//! The fetch pipeline: which origin fetch to submit or await next, so that
//! a bounded number is outstanding and results are taken in submission
//! order, and what is asked of each origin response.

use std::collections::VecDeque;
use vstd::prelude::*;
use crate::text::values_view;
use crate::config::Config;
use crate::range::{
    closed_range_text, content_range_of, ContentRange, ContentRangeError, ResolvedRange,
};
use crate::stream::{
    lemma_remaining_reaches_last, lemma_remaining_step, BodyStreamingState, FragReqGen, Fragment,
    FragmentView, StreamError, StreamView,
};

verus! {

/// The status of a response that carries part of an object.
pub const PARTIAL_CONTENT: u16 = 206;

/// Why a fetch ended the request.
#[derive(Clone, Copy, Debug, PartialEq, Eq, Structural)]
pub enum FetchError {
    /// The origin answered a fragment request with another status than 206.
    Status { status: u16 },
    /// The origin's content range was not accepted.
    ContentRange { reason: ContentRangeError },
    /// The origin stated another complete length than in its first response.
    InconsistentLength { found: usize, expected: usize },
    /// The first response does not start at the range asked for, or ends past it.
    UnexpectedRange { first: usize, last: usize, asked_first: usize, asked_last: usize },
    /// The fragment could not be delivered.
    Stream { error: StreamError },
}

/// What the pipeline does next.
#[derive(Debug)]
pub enum PipelineAction {
    /// Submit a fetch of this range without waiting for it.
    Submit(Vec<u8>),
    /// Wait for the oldest outstanding fetch, the one of the block that
    /// starts at this offset.
    Await(usize),
    /// Nothing outstanding and nothing left to submit.
    Finished,
}

/// The pipeline's bookkeeping: the ranges still to submit, and the start of
/// each block whose fetch is outstanding, oldest first.
#[derive(Debug)]
pub struct FetchPipeline {
    pub ranges: FragReqGen,
    pub parallelism: usize,
    pub in_flight: VecDeque<usize>,
}

/// What a fragment response states, or why it is refused: the status must
/// be 206, the content range must be accepted, and its complete length must
/// be the one already known.
pub open spec fn checked_response(status: u16, values: Seq<Seq<u8>>, complete_length: usize) -> Result<
    ContentRange,
    FetchError,
> {
    if status != PARTIAL_CONTENT {
        Err(FetchError::Status { status })
    } else {
        match content_range_of(values) {
            Err(error) => Err(FetchError::ContentRange { reason: error }),
            Ok(c) => if c.complete_length != complete_length {
                Err(
                    FetchError::InconsistentLength {
                        found: c.complete_length,
                        expected: complete_length,
                    },
                )
            } else {
                Ok(c)
            },
        }
    }
}

/// Checks one fragment response against the complete length that the first
/// response stated.
pub fn check_response(status: u16, values: &Vec<Vec<u8>>, complete_length: usize) -> (r: Result<
    ContentRange,
    FetchError,
>)
    ensures
        r == checked_response(status, values_view(values), complete_length),
        r matches Ok(c) ==> c.wf() && c.complete_length == complete_length,
{
    if status != PARTIAL_CONTENT {
        return Err(FetchError::Status { status });
    }
    match ContentRange::new(values) {
        Err(error) => Err(FetchError::ContentRange { reason: error }),
        Ok(c) => {
            if c.complete_length != complete_length {
                Err(
                    FetchError::InconsistentLength {
                        found: c.complete_length,
                        expected: complete_length,
                    },
                )
            } else {
                Ok(c)
            }
        },
    }
}

/// Checks one fragment response and delivers its body: a response that is
/// refused changes nothing, an accepted one is delivered as a fragment
/// over the span that it states.
pub fn deliver_response(
    state: &mut BodyStreamingState,
    status: u16,
    values: &Vec<Vec<u8>>,
    body: Vec<u8>,
    complete_length: usize,
) -> (r: Result<(), FetchError>)
    requires
        old(state).wf(),
    ensures
        final(state).wf(),
        final(state).block_size == old(state).block_size,
        final(state).read_chunk_size == old(state).read_chunk_size,
        match checked_response(status, values_view(values), complete_length) {
            Err(e) => r == Err::<(), FetchError>(e) && final(state)@ == old(state)@,
            Ok(c) => {
                let frag = FragmentView { body: body@, first: c.first, last: c.last };
                &&& final(state)@ == old(state)@.deliver(frag).1
                &&& r == stream_outcome(old(state)@.deliver(frag).0)
            },
        },
{
    match check_response(status, values, complete_length) {
        Err(e) => Err(e),
        Ok(c) => {
            let frag = Fragment::new(body, &c);
            match state.send_fragment(frag) {
                Ok(_) => Ok(()),
                Err(error) => Err(FetchError::Stream { error }),
            }
        },
    }
}

/// The delivery of one response body: the writer, the pipeline that feeds
/// it, and the complete length that every fragment must agree with.
#[derive(Debug)]
pub struct Transfer {
    pub state: BodyStreamingState,
    pub pipeline: FetchPipeline,
    pub complete_length: usize,
}

/// A delivery's outcome as the outcome of a fetch.
pub open spec fn stream_outcome(r: Result<(), StreamError>) -> Result<(), FetchError> {
    match r {
        Ok(_) => Ok(()),
        Err(error) => Err(FetchError::Stream { error }),
    }
}

impl Transfer {
    pub open spec fn wf(&self) -> bool {
        self.state.wf() && self.pipeline.wf()
    }

    /// Starts the delivery of a window: the writer stands at the window's
    /// first byte and is given the first fragment; the pipeline then holds
    /// the ranges from the writer's position on, with nothing outstanding.
    pub fn begin(
        range: &ResolvedRange,
        config: &Config,
        complete_length: usize,
        first: Fragment,
    ) -> (r: (Transfer, Result<(), FetchError>))
        requires
            range.first <= range.last,
            config.wf(),
            range.last + config.block_size <= usize::MAX,
            first.wf(),
        ensures
            r.0.wf(),
            r.0.complete_length == complete_length,
            ({
                let start = StreamView {
                    position: range.first,
                    last: range.last,
                    output: Seq::empty(),
                };
                r.0.state@ == start.deliver(first@).1 && r.1 == stream_outcome(
                    start.deliver(first@).0,
                )
            }),
            r.0.state.block_size == config.block_size,
            r.0.state.read_chunk_size == config.read_chunk_size,
            r.0.pipeline.ranges == (FragReqGen {
                position: r.0.state.position,
                last: range.last,
                block_size: config.block_size,
            }),
            r.0.pipeline.parallelism == config.parallelism,
            r.0.pipeline.in_flight@ == Seq::<usize>::empty(),
    {
        let mut state = BodyStreamingState::new(range, config);
        let sent = match state.send_fragment(first) {
            Ok(_) => Ok(()),
            Err(error) => Err(FetchError::Stream { error }),
        };
        let pipeline = FetchPipeline::new(state.frag_req_gen(), config.parallelism);
        (Transfer { state, pipeline, complete_length }, sent)
    }

    /// Takes the response of the fetch that was awaited: checks it against
    /// the complete length and delivers its body. The pipeline stays as it is.
    pub fn on_response(&mut self, status: u16, values: &Vec<Vec<u8>>, body: Vec<u8>) -> (r: Result<
        (),
        FetchError,
    >)
        requires
            old(self).wf(),
        ensures
            final(self).wf(),
            final(self).pipeline == old(self).pipeline,
            final(self).complete_length == old(self).complete_length,
            final(self).state.block_size == old(self).state.block_size,
            final(self).state.read_chunk_size == old(self).state.read_chunk_size,
            match checked_response(status, values_view(values), old(self).complete_length) {
                Err(e) => r == Err::<(), FetchError>(e) && final(self).state@ == old(self).state@,
                Ok(c) => {
                    let frag = FragmentView { body: body@, first: c.first, last: c.last };
                    &&& final(self).state@ == old(self).state@.deliver(frag).1
                    &&& r == stream_outcome(old(self).state@.deliver(frag).0)
                },
            },
    {
        deliver_response(&mut self.state, status, values, body, self.complete_length)
    }
}

impl FetchPipeline {
    /// No more fetches are outstanding than the pipeline allows, and they
    /// are outstanding in the order of their submission.
    pub open spec fn wf(&self) -> bool {
        self.ranges.wf() && self.in_flight@.len() <= self.parallelism && self.in_order()
    }

    /// The outstanding fetches are those of the blocks just before the
    /// generator's position, one block after the other, oldest first.
    pub open spec fn in_order(&self) -> bool {
        forall|i: int|
            0 <= i < self.in_flight@.len() ==> (#[trigger] self.in_flight@[i]) + (
            self.in_flight@.len() - i) * self.ranges.block_size == self.ranges.position
    }

    /// A fetch can be submitted: fewer are outstanding than allowed, and a
    /// range is left.
    pub open spec fn can_submit(&self) -> bool {
        self.in_flight@.len() < self.parallelism && self.ranges.has_next()
    }

    /// Actions still to come where the pipeline allows any fetch at all: a
    /// submission and an await for each range left, an await for each fetch
    /// outstanding.
    pub open spec fn steps_left(&self) -> int {
        2 * self.ranges.remaining() + self.in_flight@.len()
    }

    /// A pipeline with nothing outstanding.
    pub fn new(ranges: FragReqGen, parallelism: usize) -> (r: Self)
        ensures
            r.ranges == ranges,
            r.parallelism == parallelism,
            r.in_flight@ == Seq::<usize>::empty(),
            ranges.wf() ==> r.wf(),
    {
        FetchPipeline { ranges, parallelism, in_flight: VecDeque::new() }
    }

    /// The next action: submit the next range while fewer fetches are
    /// outstanding than allowed and a range is left; else await the oldest
    /// outstanding fetch; else the pipeline has finished.
    pub fn next_action(&mut self) -> (r: PipelineAction)
        requires
            old(self).wf(),
        ensures
            final(self).wf(),
            final(self).parallelism == old(self).parallelism,
            old(self).can_submit() ==> {
                &&& r matches PipelineAction::Submit(text)
                &&& text@ == closed_range_text(
                    old(self).ranges.position,
                    (old(self).ranges.position + old(self).ranges.block_size - 1) as usize,
                )
                &&& final(self).ranges == old(self).ranges.advanced()
                &&& final(self).in_flight@ == old(self).in_flight@.push(old(self).ranges.position)
            },
            !old(self).can_submit() && old(self).in_flight@.len() > 0 ==> {
                &&& r matches PipelineAction::Await(start)
                &&& start == old(self).in_flight@[0]
                &&& final(self).ranges == old(self).ranges
                &&& final(self).in_flight@ == old(self).in_flight@.skip(1)
            },
            !old(self).can_submit() && old(self).in_flight@.len() == 0 ==> {
                &&& r is Finished
                &&& final(self).ranges == old(self).ranges
                &&& final(self).in_flight@ == old(self).in_flight@
            },
            !(r is Finished) ==> final(self).steps_left() == old(self).steps_left() - 1,
            old(self).parallelism > 0 ==> ((r is Finished) <==> old(self).steps_left() == 0),
    {
        proof {
            if self.ranges.has_next() {
                lemma_remaining_reaches_last(self.ranges);
            }
        }
        if self.in_flight.len() < self.parallelism {
            let start: usize = self.ranges.position;
            proof {
                if self.ranges.has_next() {
                    lemma_remaining_step(self.ranges);
                }
            }
            match self.ranges.next() {
                Some(text) => {
                    self.in_flight.push_back(start);
                    proof {
                        let n = old(self).in_flight@.len() as int;
                        let b = self.ranges.block_size as int;
                        assert forall|i: int| 0 <= i < self.in_flight@.len() implies (
                        #[trigger] self.in_flight@[i]) + (self.in_flight@.len() - i) * b
                            == self.ranges.position by {
                            assert(self.in_flight@.len() == n + 1);
                            assert(self.ranges.position == old(self).ranges.position + b);
                            if i < n {
                                assert(self.in_flight@[i] == old(self).in_flight@[i]);
                                assert((n + 1 - i) * b == (n - i) * b + b) by (nonlinear_arith);
                            } else {
                                assert(self.in_flight@[i] == start);
                                assert((n + 1 - i) * b == b) by (nonlinear_arith)
                                    requires
                                        i == n,
                                ;
                            }
                        }
                    }
                    return PipelineAction::Submit(text);
                },
                None => {},
            }
        }
        match self.in_flight.pop_front() {
            Some(start) => {
                proof {
                    let n = old(self).in_flight@.len() as int;
                    let b = self.ranges.block_size as int;
                    assert(self.in_flight@ =~= old(self).in_flight@.skip(1));
                    assert forall|i: int| 0 <= i < self.in_flight@.len() implies (
                    #[trigger] self.in_flight@[i]) + (self.in_flight@.len() - i) * b
                        == self.ranges.position by {
                        assert(self.in_flight@[i] == old(self).in_flight@[i + 1]);
                        assert((n - 1 - i) * b == (n - (i + 1)) * b);
                    }
                }
                PipelineAction::Await(start)
            },
            None => PipelineAction::Finished,
        }
    }
}

} // verus!
