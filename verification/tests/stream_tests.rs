use range_splitter::config::Config;
use range_splitter::range::{ContentRange, ResolvedRange};
use range_splitter::stream::{BodyStreamingState, FragReqGen, Fragment, StreamError};

fn object(len: usize) -> Vec<u8> {
    (0..len).map(|i| ((i * 31 + 7) % 251) as u8).collect()
}

fn config() -> Config {
    Config { block_size: 1048576, parallelism: 5, read_chunk_size: 1024 }
}

fn state(first: usize, last: usize) -> BodyStreamingState {
    BodyStreamingState::new(&ResolvedRange { first, last }, &config())
}

fn fragment(obj: &[u8], first: usize, last: usize) -> Fragment {
    Fragment { body: obj[first..=last].to_vec(), first, last }
}

#[test]
fn fragment_new_takes_span_of_content_range() {
    let cr = ContentRange { first: 3, last: 8, complete_length: 20 };
    let f = Fragment::new(vec![1, 2, 3, 4, 5, 6], &cr);
    assert_eq!(f.first, 3);
    assert_eq!(f.last, 8);
    assert_eq!(f.body, vec![1, 2, 3, 4, 5, 6]);
}

#[test]
fn state_new_starts_at_window() {
    let s = state(5, 9);
    assert_eq!(s.position, 5);
    assert_eq!(s.last, 9);
    assert_eq!(s.block_size, 1048576);
    assert_eq!(s.read_chunk_size, 1024);
    assert!(s.resp_body.is_empty());
    assert!(!s.is_complete());
}

#[test]
fn send_fragment_inside_window_appends_whole_body() {
    let obj = object(100);
    let mut s = state(0, 99);
    assert_eq!(s.send_fragment(fragment(&obj, 0, 39)), Ok(()));
    assert_eq!(s.position, 40);
    assert_eq!(s.resp_body, obj[0..40].to_vec());
    assert_eq!(s.send_fragment(fragment(&obj, 40, 99)), Ok(()));
    assert_eq!(s.position, 100);
    assert_eq!(s.resp_body, obj);
    assert!(s.is_complete());
}

#[test]
fn send_fragment_trims_head_and_tail() {
    let obj = object(5000);
    let mut s = state(1200, 3799);
    assert_eq!(s.send_fragment(fragment(&obj, 0, 4999)), Ok(()));
    assert_eq!(s.position, 3800);
    assert_eq!(s.resp_body, obj[1200..3800].to_vec());
}

#[test]
fn send_fragment_at_fragment_start_discards_nothing() {
    let obj = object(50);
    let mut s = state(10, 40);
    assert_eq!(s.send_fragment(fragment(&obj, 10, 30)), Ok(()));
    assert_eq!(s.resp_body.len(), 21);
    assert_eq!(s.position - 10, s.resp_body.len());
    assert_eq!(s.resp_body, obj[10..31].to_vec());
}

#[test]
fn send_fragment_across_unaligned_fragments() {
    let obj = object(1000);
    let mut s = state(123, 876);
    for (a, b) in [(100, 299), (300, 301), (302, 700), (701, 999)] {
        assert_eq!(s.send_fragment(fragment(&obj, a, b)), Ok(()));
    }
    assert_eq!(s.position, 877);
    assert_eq!(s.resp_body, obj[123..877].to_vec());
}

#[test]
fn send_fragment_refuses_fragment_after_position() {
    let obj = object(100);
    let mut s = state(10, 50);
    assert_eq!(
        s.send_fragment(fragment(&obj, 11, 50)),
        Err(StreamError::UnexpectedFragment { first: 11, last: 50, position: 10 })
    );
    assert_eq!(s.position, 10);
    assert!(s.resp_body.is_empty());
}

#[test]
fn send_fragment_refuses_fragment_before_position() {
    let obj = object(100);
    let mut s = state(30, 50);
    assert_eq!(
        s.send_fragment(fragment(&obj, 0, 29)),
        Err(StreamError::UnexpectedFragment { first: 0, last: 29, position: 30 })
    );
}

#[test]
fn fragment_ending_at_position_is_refused() {
    let obj = object(100);
    let mut s = state(99, 99);
    assert_eq!(
        s.send_fragment(fragment(&obj, 64, 99)),
        Err(StreamError::UnexpectedFragment { first: 64, last: 99, position: 99 })
    );
    assert_eq!(s.position, 99);
}

#[test]
fn send_fragment_truncated_in_overlap() {
    let mut s = state(10, 50);
    let frag = Fragment { body: vec![0; 5], first: 0, last: 60 };
    assert_eq!(s.send_fragment(frag), Err(StreamError::TruncatedFragment));
    assert_eq!(s.position, 10);
    assert!(s.resp_body.is_empty());
}

#[test]
fn send_fragment_truncated_while_copying() {
    let obj = object(100);
    let mut s = state(10, 50);
    let frag = Fragment { body: obj[0..30].to_vec(), first: 0, last: 60 };
    assert_eq!(s.send_fragment(frag), Err(StreamError::TruncatedFragment));
    assert_eq!(s.position, 10);
    assert_eq!(s.resp_body, obj[10..30].to_vec());
}

#[test]
fn send_fragment_short_body_inside_window_is_appended_as_it_is() {
    let obj = object(100);
    let mut s = state(10, 90);
    let frag = Fragment { body: obj[0..15].to_vec(), first: 0, last: 60 };
    assert_eq!(s.send_fragment(frag), Ok(()));
    assert_eq!(s.position, 61);
    assert_eq!(s.resp_body, obj[10..15].to_vec());
}

#[test]
fn send_fragment_copies_more_than_one_chunk() {
    let obj = object(10_000);
    let mut s = state(1, 7000);
    assert_eq!(s.send_fragment(fragment(&obj, 0, 9999)), Ok(()));
    assert_eq!(s.resp_body, obj[1..7001].to_vec());
    assert_eq!(s.position, 7001);
}

#[test]
fn send_fragment_after_window_is_complete_writes_nothing() {
    let obj = object(100);
    let mut s = state(10, 20);
    assert_eq!(s.send_fragment(fragment(&obj, 0, 50)), Ok(()));
    assert_eq!(s.position, 21);
    let written = s.resp_body.clone();
    assert_eq!(s.send_fragment(fragment(&obj, 0, 50)), Ok(()));
    assert_eq!(s.position, 21);
    assert_eq!(s.resp_body, written);
}

#[test]
fn take_output_empties_the_body() {
    let obj = object(100);
    let mut s = state(0, 99);
    assert_eq!(s.send_fragment(fragment(&obj, 0, 39)), Ok(()));
    assert_eq!(s.take_output(), obj[0..40].to_vec());
    assert!(s.resp_body.is_empty());
    assert_eq!(s.position, 40);
    assert_eq!(s.send_fragment(fragment(&obj, 40, 99)), Ok(()));
    assert_eq!(s.take_output(), obj[40..100].to_vec());
}

#[test]
fn generator_starts_at_writer_position() {
    let s = state(1048576, 3_000_000);
    let g = s.frag_req_gen();
    assert_eq!(g, FragReqGen { position: 1048576, last: 3_000_000, block_size: 1048576 });
}

#[test]
fn generator_yields_blocks_until_past_last() {
    let mut g = FragReqGen { position: 100, last: 349, block_size: 100 };
    assert_eq!(g.next(), Some(b"bytes=100-199".to_vec()));
    assert_eq!(g.position, 200);
    assert_eq!(g.next(), Some(b"bytes=200-299".to_vec()));
    assert_eq!(g.next(), Some(b"bytes=300-399".to_vec()));
    assert_eq!(g.position, 400);
    assert_eq!(g.next(), None);
    assert_eq!(g.position, 400);
    assert_eq!(g.next(), None);
}

#[test]
fn generator_yields_block_that_starts_at_last() {
    let mut g = FragReqGen { position: 300, last: 300, block_size: 100 };
    assert_eq!(g.next(), Some(b"bytes=300-399".to_vec()));
    assert_eq!(g.next(), None);
}

#[test]
fn generator_past_last_yields_nothing() {
    let mut g = FragReqGen { position: 301, last: 300, block_size: 100 };
    assert_eq!(g.next(), None);
    assert_eq!(g, FragReqGen { position: 301, last: 300, block_size: 100 });
}
