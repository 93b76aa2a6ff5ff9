use range_splitter::config::Config;
use range_splitter::pipeline::{check_response, deliver_response, FetchError, FetchPipeline, PipelineAction};
use range_splitter::range::{ContentRange, ContentRangeError, ResolvedRange};
use range_splitter::stream::{BodyStreamingState, FragReqGen, StreamError};

fn one(value: &[u8]) -> Vec<Vec<u8>> {
    vec![value.to_vec()]
}

fn submitted(action: PipelineAction) -> Vec<u8> {
    match action {
        PipelineAction::Submit(text) => text,
        other => panic!("expected a submission, got {:?}", other),
    }
}

fn awaited(action: PipelineAction) -> usize {
    match action {
        PipelineAction::Await(start) => start,
        other => panic!("expected an await, got {:?}", other),
    }
}

#[test]
fn pipeline_keeps_window_full_and_awaits_oldest() {
    let ranges = FragReqGen { position: 100, last: 399, block_size: 100 };
    let mut p = FetchPipeline::new(ranges, 2);
    assert_eq!(submitted(p.next_action()), b"bytes=100-199".to_vec());
    assert_eq!(submitted(p.next_action()), b"bytes=200-299".to_vec());
    assert_eq!(p.in_flight.len(), 2);
    assert_eq!(awaited(p.next_action()), 100);
    assert_eq!(submitted(p.next_action()), b"bytes=300-399".to_vec());
    assert_eq!(awaited(p.next_action()), 200);
    assert_eq!(awaited(p.next_action()), 300);
    assert!(matches!(p.next_action(), PipelineAction::Finished));
    assert!(matches!(p.next_action(), PipelineAction::Finished));
    assert_eq!(p.in_flight.len(), 0);
}

#[test]
fn pipeline_of_one_alternates() {
    let ranges = FragReqGen { position: 0, last: 150, block_size: 100 };
    let mut p = FetchPipeline::new(ranges, 1);
    assert_eq!(submitted(p.next_action()), b"bytes=0-99".to_vec());
    assert_eq!(awaited(p.next_action()), 0);
    assert_eq!(submitted(p.next_action()), b"bytes=100-199".to_vec());
    assert_eq!(awaited(p.next_action()), 100);
    assert!(matches!(p.next_action(), PipelineAction::Finished));
}

#[test]
fn pipeline_never_exceeds_parallelism() {
    let ranges = FragReqGen { position: 0, last: 99_999, block_size: 100 };
    let mut p = FetchPipeline::new(ranges, 5);
    let mut submissions = 0;
    let mut awaits = 0;
    loop {
        match p.next_action() {
            PipelineAction::Submit(_) => submissions += 1,
            PipelineAction::Await(start) => {
                assert_eq!(start, awaits * 100);
                awaits += 1;
            }
            PipelineAction::Finished => break,
        }
        assert!(p.in_flight.len() <= 5);
    }
    assert_eq!(submissions, 1000);
    assert_eq!(awaits, 1000);
}

#[test]
fn pipeline_without_ranges_finishes_at_once() {
    let ranges = FragReqGen { position: 500, last: 499, block_size: 100 };
    let mut p = FetchPipeline::new(ranges, 5);
    assert!(matches!(p.next_action(), PipelineAction::Finished));
}

#[test]
fn check_response_accepts_consistent_fragment() {
    assert_eq!(
        check_response(206, &one(b"bytes 100-199/1000"), 1000),
        Ok(ContentRange { first: 100, last: 199, complete_length: 1000 })
    );
}

#[test]
fn check_response_refuses_other_status() {
    assert_eq!(
        check_response(200, &one(b"bytes 100-199/1000"), 1000),
        Err(FetchError::Status { status: 200 })
    );
    assert_eq!(check_response(404, &vec![], 1000), Err(FetchError::Status { status: 404 }));
}

#[test]
fn check_response_refuses_bad_content_range() {
    assert_eq!(
        check_response(206, &vec![], 1000),
        Err(FetchError::ContentRange { reason: ContentRangeError::Missing })
    );
    assert_eq!(
        check_response(206, &one(b"bytes */1000"), 1000),
        Err(FetchError::ContentRange { reason: ContentRangeError::UnsatisfiedRange })
    );
}

#[test]
fn check_response_refuses_changed_length() {
    assert_eq!(
        check_response(206, &one(b"bytes 1048576-2097151/9000000"), 10_000_000),
        Err(FetchError::InconsistentLength { found: 9_000_000, expected: 10_000_000 })
    );
}

#[test]
fn deliver_response_writes_fragment() {
    let config = Config { block_size: 1048576, parallelism: 5, read_chunk_size: 1024 };
    let mut s = BodyStreamingState::new(&ResolvedRange { first: 2, last: 7 }, &config);
    let r = deliver_response(&mut s, 206, &one(b"bytes 0-4/10"), vec![10, 11, 12, 13, 14], 10);
    assert_eq!(r, Ok(()));
    assert_eq!(s.resp_body, vec![12, 13, 14]);
    assert_eq!(s.position, 5);
    let r = deliver_response(&mut s, 206, &one(b"bytes 5-9/10"), vec![15, 16, 17, 18, 19], 10);
    assert_eq!(r, Ok(()));
    assert_eq!(s.resp_body, vec![12, 13, 14, 15, 16, 17]);
    assert_eq!(s.position, 8);
}

#[test]
fn deliver_response_reports_stream_error() {
    let config = Config { block_size: 1048576, parallelism: 5, read_chunk_size: 1024 };
    let mut s = BodyStreamingState::new(&ResolvedRange { first: 2, last: 7 }, &config);
    let r = deliver_response(&mut s, 206, &one(b"bytes 5-9/10"), vec![15, 16, 17, 18, 19], 10);
    assert_eq!(
        r,
        Err(FetchError::Stream {
            error: StreamError::UnexpectedFragment { first: 5, last: 9, position: 2 }
        })
    );
    let r = deliver_response(&mut s, 206, &one(b"bytes 0-9/10"), vec![1, 2, 3, 4], 10);
    assert_eq!(r, Err(FetchError::Stream { error: StreamError::TruncatedFragment }));
    assert_eq!(s.position, 2);
    assert_eq!(s.resp_body, vec![3, 4]);
}

#[test]
fn deliver_response_refused_changes_nothing() {
    let config = Config { block_size: 1048576, parallelism: 5, read_chunk_size: 1024 };
    let mut s = BodyStreamingState::new(&ResolvedRange { first: 2, last: 7 }, &config);
    let r = deliver_response(&mut s, 500, &one(b"bytes 0-4/10"), vec![10, 11, 12, 13, 14], 10);
    assert_eq!(r, Err(FetchError::Status { status: 500 }));
    assert_eq!(s.position, 2);
    assert!(s.resp_body.is_empty());
}

#[test]
fn transfer_begins_with_first_fragment() {
    let config = Config { block_size: 1048576, parallelism: 3, read_chunk_size: 1024 };
    let window = ResolvedRange { first: 2, last: 3_000_000 };
    let first = range_splitter::stream::Fragment { body: vec![7; 1048576], first: 0, last: 1048575 };
    let (transfer, sent) = range_splitter::pipeline::Transfer::begin(&window, &config, 5_000_000, first);
    assert_eq!(sent, Ok(()));
    assert_eq!(transfer.complete_length, 5_000_000);
    assert_eq!(transfer.state.position, 1048576);
    assert_eq!(transfer.state.resp_body.len(), 1048574);
    assert_eq!(
        transfer.pipeline.ranges,
        FragReqGen { position: 1048576, last: 3_000_000, block_size: 1048576 }
    );
    assert_eq!(transfer.pipeline.parallelism, 3);
    assert!(transfer.pipeline.in_flight.is_empty());
}

#[test]
fn transfer_reports_refused_first_fragment() {
    let config = Config { block_size: 1048576, parallelism: 3, read_chunk_size: 1024 };
    let window = ResolvedRange { first: 9, last: 9 };
    let first = range_splitter::stream::Fragment { body: vec![7; 10], first: 0, last: 9 };
    let (transfer, sent) = range_splitter::pipeline::Transfer::begin(&window, &config, 10, first);
    assert_eq!(
        sent,
        Err(FetchError::Stream {
            error: StreamError::UnexpectedFragment { first: 0, last: 9, position: 9 }
        })
    );
    assert_eq!(transfer.state.position, 9);
}

#[test]
fn transfer_checks_each_response_against_first_length() {
    let config = Config { block_size: 1048576, parallelism: 3, read_chunk_size: 1024 };
    let window = ResolvedRange { first: 0, last: 19 };
    let first = range_splitter::stream::Fragment { body: vec![1; 10], first: 0, last: 9 };
    let (mut transfer, sent) = range_splitter::pipeline::Transfer::begin(&window, &config, 20, first);
    assert_eq!(sent, Ok(()));
    let r = transfer.on_response(206, &one(b"bytes 10-19/21"), vec![2; 10]);
    assert_eq!(r, Err(FetchError::InconsistentLength { found: 21, expected: 20 }));
    assert_eq!(transfer.state.position, 10);
    let r = transfer.on_response(206, &one(b"bytes 10-19/20"), vec![2; 10]);
    assert_eq!(r, Ok(()));
    assert_eq!(transfer.state.position, 20);
    assert!(transfer.state.is_complete());
}
