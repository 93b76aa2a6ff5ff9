//! Reassembly: fragments arrive in order, their leading overlap is dropped,
//! and what lies inside the serving window is appended to the response body.

use vstd::prelude::*;
use vstd::slice::slice_subrange;
use crate::config::Config;
use crate::range::{closed_range_text, range_header_value, ContentRange, ResolvedRange};
use crate::text::push_bytes;

verus! {

/// The body of one origin response and the span of the object that it holds.
#[derive(Debug)]
pub struct Fragment {
    pub body: Vec<u8>,
    pub first: usize,
    pub last: usize,
}

/// A fragment as plain values.
pub struct FragmentView {
    pub body: Seq<u8>,
    pub first: usize,
    pub last: usize,
}

/// Why a fragment could not be delivered.
#[derive(Clone, Copy, Debug, PartialEq, Eq, Structural)]
pub enum StreamError {
    /// The fragment does not cover the next byte that is owed.
    UnexpectedFragment { first: usize, last: usize, position: usize },
    /// The fragment's body ended before the bytes that were needed from it.
    TruncatedFragment,
}

/// The writer of a response body: `position` is the next byte of the object
/// that is owed, `last` the final one.
#[derive(Debug)]
pub struct BodyStreamingState {
    pub position: usize,
    pub last: usize,
    pub block_size: usize,
    pub read_chunk_size: usize,
    pub resp_body: Vec<u8>,
}

/// The writer as plain values.
pub struct StreamView {
    pub position: usize,
    pub last: usize,
    pub output: Seq<u8>,
}

/// A cursor over the block-sized ranges that are still to be fetched.
#[derive(Clone, Copy, Debug, PartialEq, Eq, Structural)]
pub struct FragReqGen {
    pub position: usize,
    pub last: usize,
    pub block_size: usize,
}

impl View for Fragment {
    type V = FragmentView;

    open spec fn view(&self) -> FragmentView {
        FragmentView { body: self.body@, first: self.first, last: self.last }
    }
}

impl View for BodyStreamingState {
    type V = StreamView;

    open spec fn view(&self) -> StreamView {
        StreamView { position: self.position, last: self.last, output: self.resp_body@ }
    }
}

impl FragmentView {
    /// The span is not empty and ends before the largest offset.
    pub open spec fn wf(&self) -> bool {
        self.first <= self.last && self.last < usize::MAX
    }

    /// The body holds the bytes of `object` over the fragment's span.
    pub open spec fn holds(&self, object: Seq<u8>) -> bool {
        self.last < object.len() && self.body == object.subrange(
            self.first as int,
            self.last + 1,
        )
    }
}

impl StreamView {
    /// `position <= last + 1`, and `last` lies before the largest offset.
    pub open spec fn wf(&self) -> bool {
        self.position <= self.last + 1 && self.last < usize::MAX
    }

    /// A fragment is taken where it starts at or before the next byte owed
    /// and that byte lies before the fragment's last.
    pub open spec fn accepts(&self, frag: FragmentView) -> bool {
        frag.first <= self.position && self.position < frag.last
    }

    /// Bytes at the head of an accepted fragment that were delivered before.
    pub open spec fn leading_overlap(&self, frag: FragmentView) -> int {
        self.position - frag.first
    }

    /// The next byte owed once an accepted fragment has been delivered.
    pub open spec fn position_after(&self, frag: FragmentView) -> usize {
        if self.last >= frag.last {
            (frag.last + 1) as usize
        } else {
            (self.last + 1) as usize
        }
    }

    /// The outcome of delivering one fragment, and the writer after it.
    ///
    /// A fragment that is not accepted, or one too short for its leading
    /// overlap, changes nothing. A fragment that ends inside the window has
    /// the rest of its body appended whole. One that reaches past the window
    /// has exactly the bytes up to the window's end appended; if its body
    /// ends before them, what there is of it is appended and the position
    /// stays.
    pub open spec fn deliver(self, frag: FragmentView) -> (Result<(), StreamError>, StreamView) {
        let skip = self.leading_overlap(frag);
        let wanted = self.last + 1 - self.position;
        if !self.accepts(frag) {
            (
                Err(
                    StreamError::UnexpectedFragment {
                        first: frag.first,
                        last: frag.last,
                        position: self.position,
                    },
                ),
                self,
            )
        } else if frag.body.len() < skip {
            (Err(StreamError::TruncatedFragment), self)
        } else if self.last >= frag.last {
            (
                Ok(()),
                StreamView {
                    position: self.position_after(frag),
                    last: self.last,
                    output: self.output + frag.body.skip(skip),
                },
            )
        } else if frag.body.len() < skip + wanted {
            (
                Err(StreamError::TruncatedFragment),
                StreamView {
                    position: self.position,
                    last: self.last,
                    output: self.output + frag.body.skip(skip),
                },
            )
        } else {
            (
                Ok(()),
                StreamView {
                    position: self.position_after(frag),
                    last: self.last,
                    output: self.output + frag.body.subrange(skip, skip + wanted),
                },
            )
        }
    }

    /// Delivering fragments one after the other, up to the first failure.
    pub open spec fn deliver_all(self, frags: Seq<FragmentView>) -> Result<StreamView, StreamError>
        decreases frags.len(),
    {
        if frags.len() == 0 {
            Ok(self)
        } else {
            match self.deliver(frags[0]) {
                (Ok(_), next) => next.deliver_all(frags.skip(1)),
                (Err(e), _) => Err(e),
            }
        }
    }
}

/// Fragments of `object` that can be delivered to `s` one after the other
/// and between them reach the end of its window: each holds the object's
/// bytes over its span, each starts where the one before ended, the first
/// is accepted by `s`, each later one spans more than one byte, none starts
/// past the window, and the last ends at or past the window's end.
pub open spec fn covers_window(frags: Seq<FragmentView>, object: Seq<u8>, s: StreamView) -> bool {
    &&& frags.len() > 0
    &&& forall|i: int|
        #![trigger frags[i]]
        0 <= i < frags.len() ==> frags[i].wf() && frags[i].holds(object) && frags[i].first
            <= s.last && (i > 0 ==> frags[i].first < frags[i].last && frags[i].first == frags[i
            - 1].last + 1)
    &&& s.accepts(frags[0])
    &&& frags[frags.len() - 1].last >= s.last
}

/// A writer that has written the object's bytes from `start` up to its
/// position, and is then given fragments that cover the rest of its window,
/// ends with exactly the object's bytes from `start` to the window's last
/// byte written: none twice and none left out, wherever the fragments'
/// bounds lie.
pub proof fn lemma_reassembly_from(
    object: Seq<u8>,
    start: usize,
    s: StreamView,
    frags: Seq<FragmentView>,
)
    requires
        s.wf(),
        start <= s.position,
        s.last < object.len(),
        s.output == object.subrange(start as int, s.position as int),
        covers_window(frags, object, s),
    ensures
        s.deliver_all(frags) matches Ok(t) && t.position == s.last + 1 && t.last == s.last
            && t.output == object.subrange(start as int, s.last + 1),
    decreases frags.len(),
{
    let f = frags[0];
    let rest = frags.skip(1);
    let skip = s.leading_overlap(f);
    let (r, t) = s.deliver(f);
    assert(f.wf() && f.holds(object));
    assert(f.body.len() == f.last + 1 - f.first);
    if s.last >= f.last {
        assert(f.body.skip(skip) =~= object.subrange(s.position as int, f.last + 1));
        assert(t.output =~= object.subrange(start as int, f.last + 1));
        if frags.len() == 1 {
            assert(rest.len() == 0);
            assert(t.deliver_all(rest) == Ok::<StreamView, StreamError>(t));
        } else {
            assert(frags[1].first == frags[0].last + 1);
            assert forall|i: int| #![trigger rest[i]] 0 <= i < rest.len() implies rest[i].wf()
                && rest[i].holds(object) && rest[i].first <= t.last && (i > 0 ==> rest[i].first
                < rest[i].last && rest[i].first == rest[i - 1].last + 1) by {
                assert(rest[i] == frags[i + 1]);
                if i > 0 {
                    assert(rest[i - 1] == frags[i]);
                }
            }
            assert(rest[0] == frags[1]);
            assert(rest[rest.len() - 1] == frags[frags.len() - 1]);
            lemma_reassembly_from(object, start, t, rest);
        }
    } else {
        let wanted = s.last + 1 - s.position;
        assert(f.body.subrange(skip, skip + wanted) =~= object.subrange(
            s.position as int,
            s.last + 1,
        ));
        assert(t.output =~= object.subrange(start as int, s.last + 1));
        if frags.len() > 1 {
            assert(frags[1].first == frags[0].last + 1);
            assert(frags[1].first <= s.last);
        }
        assert(rest.len() == 0);
        assert(t.deliver_all(rest) == Ok::<StreamView, StreamError>(t));
    }
}

/// A fresh writer for a window of `object`, given fragments that cover the
/// window, writes the object's bytes over exactly the window.
pub proof fn lemma_window_reassembled(
    object: Seq<u8>,
    window: ResolvedRange,
    frags: Seq<FragmentView>,
)
    requires
        window.first <= window.last,
        window.last < object.len(),
        covers_window(
            frags,
            object,
            (StreamView { position: window.first, last: window.last, output: Seq::empty() }),
        ),
    ensures
        (StreamView {
            position: window.first,
            last: window.last,
            output: Seq::empty(),
        }).deliver_all(frags) matches Ok(t) && t.position == window.last + 1 && t.output
            == object.subrange(window.first as int, window.last + 1),
{
    let s = StreamView { position: window.first, last: window.last, output: Seq::empty() };
    assert(frags[frags.len() - 1].wf());
    assert(s.output =~= object.subrange(window.first as int, window.first as int));
    lemma_reassembly_from(object, window.first, s, frags);
}

/// What an origin that holds `object` sends for the block that starts at
/// `start`: the object's bytes from there to the block's end, or to the
/// object's end where that comes sooner.
pub open spec fn origin_fragment(object: Seq<u8>, start: int, block_size: int) -> FragmentView {
    let last = if start + block_size - 1 < object.len() - 1 {
        start + block_size - 1
    } else {
        object.len() - 1
    };
    FragmentView {
        body: object.subrange(start, last + 1),
        first: start as usize,
        last: last as usize,
    }
}

/// What such an origin sends for `count` blocks that follow one another.
pub open spec fn origin_fragments(object: Seq<u8>, start: int, block_size: int, count: nat) -> Seq<
    FragmentView,
> {
    Seq::new(count, |i: int| origin_fragment(object, start + i * block_size, block_size))
}

/// The fragments that an origin sends for the blocks from the one that
/// holds the writer's position to the one that holds the window's last
/// byte cover the window, unless the writer would enter a fragment at its
/// last byte: the position must lie before the last byte of the first
/// fragment, and the last block must hold more than the object's last byte
/// alone.
pub proof fn lemma_blocks_cover_window(
    object: Seq<u8>,
    s: StreamView,
    start: usize,
    block_size: usize,
    count: nat,
)
    requires
        s.position <= s.last,
        s.last < object.len(),
        object.len() <= usize::MAX,
        block_size >= 2,
        count >= 1,
        start <= s.position,
        s.position < start + block_size - 1,
        s.position < object.len() - 1,
        start + (count - 1) * block_size <= s.last,
        s.last < start + count * block_size,
        count > 1 ==> start + (count - 1) * block_size < object.len() - 1,
    ensures
        covers_window(origin_fragments(object, start as int, block_size as int, count), object, s),
{
    let b = block_size as int;
    let n = count as int;
    let frags = origin_fragments(object, start as int, b, count);
    assert(0 * b == 0) by (nonlinear_arith);
    assert forall|i: int| #![trigger frags[i]] 0 <= i < frags.len() implies frags[i].wf()
        && frags[i].holds(object) && frags[i].first <= s.last && (i > 0 ==> frags[i].first
        < frags[i].last && frags[i].first == frags[i - 1].last + 1) by {
        assert(0 <= i * b <= (n - 1) * b) by (nonlinear_arith)
            requires
                0 <= i <= n - 1,
                b >= 0,
        ;
        assert((i + 1) * b == i * b + b) by (nonlinear_arith);
        if i < n - 1 {
            assert((i + 1) * b <= (n - 1) * b) by (nonlinear_arith)
                requires
                    i + 1 <= n - 1,
                    b >= 0,
            ;
        }
        if i > 0 {
            assert((i - 1) * b + b == i * b) by (nonlinear_arith);
            assert(0 <= (i - 1) * b) by (nonlinear_arith)
                requires
                    i >= 1,
                    b >= 0,
            ;
        }
    }
    assert((n - 1) * b + b == n * b) by (nonlinear_arith);
}

/// A fresh writer for a window of `object`, given what an origin sends for
/// the blocks from the one that holds the window's first byte to the one
/// that holds its last, writes the object's bytes over exactly the window.
pub proof fn lemma_blocks_reassembled(
    object: Seq<u8>,
    window: ResolvedRange,
    start: usize,
    block_size: usize,
    count: nat,
)
    requires
        window.first <= window.last,
        window.last < object.len(),
        object.len() <= usize::MAX,
        block_size >= 2,
        count >= 1,
        start <= window.first,
        window.first < start + block_size - 1,
        window.first < object.len() - 1,
        start + (count - 1) * block_size <= window.last,
        window.last < start + count * block_size,
        count > 1 ==> start + (count - 1) * block_size < object.len() - 1,
    ensures
        (StreamView {
            position: window.first,
            last: window.last,
            output: Seq::empty(),
        }).deliver_all(origin_fragments(object, start as int, block_size as int, count))
            matches Ok(t) && t.position == window.last + 1 && t.output == object.subrange(
            window.first as int,
            window.last + 1,
        ),
{
    let s = StreamView { position: window.first, last: window.last, output: Seq::empty() };
    lemma_blocks_cover_window(object, s, start, block_size, count);
    lemma_window_reassembled(
        object,
        window,
        origin_fragments(object, start as int, block_size as int, count),
    );
}

/// Delivering an accepted fragment whose body is as long as its span takes
/// from the body its leading overlap and then exactly the bytes that are
/// appended, as many as the position moves forward; a fragment that starts
/// at the position has no leading overlap.
pub proof fn lemma_delivery_consumes(s: StreamView, frag: FragmentView)
    requires
        s.wf(),
        frag.wf(),
        s.accepts(frag),
        frag.body.len() == frag.last + 1 - frag.first,
    ensures
        s.deliver(frag) matches (Ok(_), t) && t.position == s.position_after(frag) && t.last
            == s.last && t.wf() && t.output == s.output + frag.body.subrange(
            s.leading_overlap(frag),
            t.position - frag.first,
        ) && t.output.len() - s.output.len() == t.position - s.position,
        s.position == frag.first ==> s.leading_overlap(frag) == 0,
{
    let skip = s.leading_overlap(frag);
    if s.last >= frag.last {
        assert(frag.body.skip(skip) =~= frag.body.subrange(skip, frag.last + 1 - frag.first));
    }
}

/// Delivery never moves the position back nor past the end of the window,
/// and never takes back what was written.
pub proof fn lemma_delivery_monotone(s: StreamView, frag: FragmentView)
    requires
        s.wf(),
        frag.wf(),
    ensures
        ({
            let (r, t) = s.deliver(frag);
            &&& t.wf()
            &&& t.last == s.last
            &&& s.position <= t.position
            &&& s.output.is_prefix_of(t.output)
            &&& r.is_err() ==> t.position == s.position
        }),
{
}

/// Copies `count` bytes of `body` from `start` on to `out`, at most `chunk`
/// at a time, and stops where the body ends.
fn forward(body: &[u8], start: usize, count: usize, chunk: usize, out: &mut Vec<u8>) -> (ok: bool)
    requires
        start <= body@.len(),
        chunk > 0,
    ensures
        ok == (start + count <= body@.len()),
        ok ==> final(out)@ == old(out)@ + body@.subrange(start as int, start + count),
        !ok ==> final(out)@ == old(out)@ + body@.skip(start as int),
{
    let mut cursor: usize = start;
    let mut remainder: usize = count;
    assert(body@.subrange(start as int, cursor as int) =~= Seq::<u8>::empty());
    assert(out@ =~= old(out)@ + body@.subrange(start as int, cursor as int));
    while remainder > 0
        invariant
            chunk > 0,
            start <= cursor <= body@.len(),
            cursor - start + remainder == count,
            out@ == old(out)@ + body@.subrange(start as int, cursor as int),
        decreases remainder,
    {
        let toread: usize = if remainder < chunk { remainder } else { chunk };
        let available: usize = body.len() - cursor;
        let rsize: usize = if toread < available { toread } else { available };
        if rsize == 0 {
            assert(body@.subrange(start as int, cursor as int) =~= body@.skip(start as int));
            return false;
        }
        push_bytes(out, slice_subrange(body, cursor, cursor + rsize));
        assert(out@ =~= old(out)@ + body@.subrange(start as int, cursor + rsize));
        cursor += rsize;
        remainder -= rsize;
    }
    true
}

impl Fragment {
    pub open spec fn wf(&self) -> bool {
        self@.wf()
    }

    /// Pairs a response body with the span that its content range states.
    pub fn new(body: Vec<u8>, content_range: &ContentRange) -> (r: Self)
        ensures
            r.body == body,
            r.first == content_range.first,
            r.last == content_range.last,
            content_range.wf() ==> r.wf(),
    {
        Fragment { body, first: content_range.first, last: content_range.last }
    }
}

impl BodyStreamingState {
    /// The writer's own bounds hold, blocks and chunks are not empty, and
    /// the block after the window's last byte still has an offset.
    pub open spec fn wf(&self) -> bool {
        &&& self@.wf()
        &&& self.block_size > 0
        &&& self.read_chunk_size > 0
        &&& self.last + self.block_size <= usize::MAX
    }

    /// The whole window has been delivered.
    pub open spec fn spec_is_complete(&self) -> bool {
        self.position > self.last
    }

    /// A writer at the start of its window, with nothing written.
    pub fn new(range: &ResolvedRange, config: &Config) -> (r: Self)
        requires
            range.first <= range.last,
            config.wf(),
            range.last + config.block_size <= usize::MAX,
        ensures
            r.wf(),
            r@ == (StreamView { position: range.first, last: range.last, output: Seq::empty() }),
            r.block_size == config.block_size,
            r.read_chunk_size == config.read_chunk_size,
    {
        BodyStreamingState {
            position: range.first,
            last: range.last,
            block_size: config.block_size,
            read_chunk_size: config.read_chunk_size,
            resp_body: Vec::new(),
        }
    }

    /// Whether the whole window has been delivered.
    pub fn is_complete(&self) -> (r: bool)
        ensures
            r == self.spec_is_complete(),
    {
        self.position > self.last
    }

    /// Delivers one fragment: appends to the response body the bytes of the
    /// fragment that the window still owes, and moves the position past them.
    pub fn send_fragment(&mut self, frag: Fragment) -> (r: Result<(), StreamError>)
        requires
            old(self).wf(),
            frag.wf(),
        ensures
            (r, final(self)@) == old(self)@.deliver(frag@),
            final(self).block_size == old(self).block_size,
            final(self).read_chunk_size == old(self).read_chunk_size,
            final(self).wf(),
            r.is_ok() ==> final(self).position > old(self).position || old(self).spec_is_complete(),
    {
        if self.position < frag.first || self.position >= frag.last {
            return Err(
                StreamError::UnexpectedFragment {
                    first: frag.first,
                    last: frag.last,
                    position: self.position,
                },
            );
        }
        let skip: usize = self.position - frag.first;
        let body: &[u8] = frag.body.as_slice();
        if body.len() < skip {
            return Err(StreamError::TruncatedFragment);
        }
        if self.last >= frag.last {
            push_bytes(&mut self.resp_body, slice_subrange(body, skip, body.len()));
            self.position = frag.last + 1;
            Ok(())
        } else {
            let wanted: usize = self.last + 1 - self.position;
            if forward(body, skip, wanted, self.read_chunk_size, &mut self.resp_body) {
                self.position = self.last + 1;
                Ok(())
            } else {
                Err(StreamError::TruncatedFragment)
            }
        }
    }

    /// Hands out what has been written since the last call, and leaves the
    /// response body empty.
    pub fn take_output(&mut self) -> (r: Vec<u8>)
        ensures
            r@ == old(self).resp_body@,
            final(self).resp_body@ == Seq::<u8>::empty(),
            final(self).position == old(self).position,
            final(self).last == old(self).last,
            final(self).block_size == old(self).block_size,
            final(self).read_chunk_size == old(self).read_chunk_size,
    {
        let mut out: Vec<u8> = Vec::new();
        out.append(&mut self.resp_body);
        out
    }

    /// A generator of the ranges that are still to be fetched, from the
    /// writer's position on.
    pub fn frag_req_gen(&self) -> (r: FragReqGen)
        ensures
            r == (FragReqGen {
                position: self.position,
                last: self.last,
                block_size: self.block_size,
            }),
            self.wf() ==> r.wf(),
    {
        FragReqGen { position: self.position, last: self.last, block_size: self.block_size }
    }
}

impl FragReqGen {
    /// Blocks are not empty, and the block after `last` still has an offset.
    pub open spec fn wf(&self) -> bool {
        self.block_size > 0 && self.last + self.block_size <= usize::MAX
    }

    /// Whether a range is still to come.
    pub open spec fn has_next(&self) -> bool {
        self.position <= self.last
    }

    /// Number of ranges still to come.
    pub open spec fn remaining(&self) -> int {
        if self.position <= self.last {
            (self.last - self.position) / (self.block_size as int) + 1
        } else {
            0
        }
    }

    /// The generator after one range has been taken.
    pub open spec fn advanced(&self) -> FragReqGen {
        FragReqGen {
            position: (self.position + self.block_size) as usize,
            last: self.last,
            block_size: self.block_size,
        }
    }

    /// The next range to ask the origin for, `bytes=position-end` with
    /// `end` one block further less one; `None` once the position is past
    /// the last byte wanted.
    pub fn next(&mut self) -> (r: Option<Vec<u8>>)
        requires
            old(self).wf(),
        ensures
            old(self).has_next() ==> *final(self) == old(self).advanced() && (r matches Some(text)
                && text@ == closed_range_text(
                old(self).position,
                (old(self).position + old(self).block_size - 1) as usize,
            )),
            !old(self).has_next() ==> *final(self) == *old(self) && r.is_none(),
            final(self).wf(),
            final(self).remaining() == if old(self).has_next() {
                old(self).remaining() - 1
            } else {
                0
            },
    {
        if self.position <= self.last {
            let pos: usize = self.position;
            proof {
                lemma_remaining_step(*self);
            }
            self.position = pos + self.block_size;
            Some(range_header_value(pos, pos + self.block_size - 1))
        } else {
            None
        }
    }
}

/// The ranges still to come reach the last byte wanted and go no further
/// than one block past it: the last of them starts at or before `last`,
/// and the one after it would start past `last`.
pub proof fn lemma_remaining_reaches_last(g: FragReqGen)
    requires
        g.wf(),
        g.has_next(),
    ensures
        g.remaining() >= 1,
        g.position + (g.remaining() - 1) * g.block_size <= g.last,
        g.position + g.remaining() * g.block_size > g.last,
{
    let d = g.last - g.position;
    let b = g.block_size as int;
    assert(d / b >= 0 && (d / b) * b <= d && d < (d / b + 1) * b) by (nonlinear_arith)
        requires
            b > 0,
            d >= 0,
    ;
}

/// Taking one range leaves one range fewer to come.
pub proof fn lemma_remaining_step(g: FragReqGen)
    requires
        g.wf(),
        g.has_next(),
    ensures
        g.advanced().remaining() == g.remaining() - 1,
        g.advanced().position == g.position + g.block_size,
{
    let d = g.last - g.position;
    let b = g.block_size as int;
    if d >= b {
        assert((d - b) / b == d / b - 1) by (nonlinear_arith)
            requires
                b > 0,
                d >= b,
        ;
    } else {
        assert(d / b == 0) by (nonlinear_arith)
            requires
                b > 0,
                0 <= d < b,
        ;
    }
}

} // verus!
