//! The response head: whether a request is served at all, which block is
//! fetched first, and the status and headers that answer the client.

use vstd::prelude::*;
use crate::pipeline::{FetchError, PARTIAL_CONTENT};
use crate::range::{
    content_range_header_value, content_range_of, content_range_text, resolve,
    unsatisfied_range_header_value,
    unsatisfied_range_text, ContentRange, RequestRange, ResolvedRange,
};
use crate::text::{decimal, push_decimal, values_view};

verus! {

pub const OK: u16 = 200;

pub const FORBIDDEN: u16 = 403;

pub const METHOD_NOT_ALLOWED: u16 = 405;

pub const RANGE_NOT_SATISFIABLE: u16 = 416;

pub const INTERNAL_SERVER_ERROR: u16 = 500;

/// The method of a client request.
#[derive(Clone, Copy, Debug, PartialEq, Eq, Structural)]
pub enum RequestMethod {
    Get,
    Head,
    Other,
}

/// Whether a client request is served.
#[derive(Clone, Copy, Debug, PartialEq, Eq, Structural)]
pub enum Admission {
    /// Served; a `HEAD` request gets the headers only.
    Serve { header_only: bool },
    /// Refused with 405 and `Allow: GET, HEAD`.
    MethodNotAllowed,
    /// Refused with 403: the request has a body.
    BodyNotAllowed,
}

/// What the first origin response means for the request.
#[derive(Clone, Copy, Debug, PartialEq, Eq, Structural)]
pub enum FirstResponse {
    /// The origin did not answer with part of the object: its response goes
    /// to the client as it is.
    PassThrough,
    /// The first fragment, with the complete length of the object.
    Fragment { content_range: ContentRange },
}

/// Status and headers that answer the client.
#[derive(Debug)]
pub enum ResponseHead {
    /// 416 with `Content-Range: bytes */length` and no body.
    NotSatisfiable { unsatisfied_range: Vec<u8> },
    /// 200 or 206 with the window that the body will hold.
    Content {
        status: u16,
        content_range: Option<Vec<u8>>,
        content_length: Vec<u8>,
        range: ResolvedRange,
    },
}

/// A response head as plain values.
pub enum ResponseHeadView {
    NotSatisfiable { unsatisfied_range: Seq<u8> },
    Content {
        status: u16,
        content_range: Option<Seq<u8>>,
        content_length: Seq<u8>,
        range: ResolvedRange,
    },
}

impl View for ResponseHead {
    type V = ResponseHeadView;

    open spec fn view(&self) -> ResponseHeadView {
        match *self {
            ResponseHead::NotSatisfiable { unsatisfied_range } => ResponseHeadView::NotSatisfiable {
                unsatisfied_range: unsatisfied_range@,
            },
            ResponseHead::Content {
                status,
                content_range,
                content_length,
                range,
            } => ResponseHeadView::Content {
                status,
                content_range: match content_range {
                    Some(t) => Some(t@),
                    None => None,
                },
                content_length: content_length@,
                range,
            },
        }
    }
}

impl Admission {
    /// The status that refuses the request; `None` where it is served.
    pub open spec fn spec_refusal_status(&self) -> Option<u16> {
        match *self {
            Admission::Serve { .. } => None,
            Admission::MethodNotAllowed => Some(METHOD_NOT_ALLOWED),
            Admission::BodyNotAllowed => Some(FORBIDDEN),
        }
    }

    /// The status that refuses the request: 405 for a method that is not
    /// served, 403 for a request with a body; `None` where it is served.
    pub fn refusal_status(&self) -> (r: Option<u16>)
        ensures
            r == self.spec_refusal_status(),
    {
        match self {
            Admission::Serve { .. } => None,
            Admission::MethodNotAllowed => Some(METHOD_NOT_ALLOWED),
            Admission::BodyNotAllowed => Some(FORBIDDEN),
        }
    }
}

impl ResponseHeadView {
    /// The status of the head: 416 where the range cannot be satisfied.
    pub open spec fn status(&self) -> u16 {
        match *self {
            ResponseHeadView::NotSatisfiable { .. } => RANGE_NOT_SATISFIABLE,
            ResponseHeadView::Content { status, .. } => status,
        }
    }
}

impl ResponseHead {
    /// The status of the head: 416 where the range cannot be satisfied,
    /// else the status that it was composed with.
    pub fn status(&self) -> (r: u16)
        ensures
            r == self@.status(),
    {
        match self {
            ResponseHead::NotSatisfiable { .. } => RANGE_NOT_SATISFIABLE,
            ResponseHead::Content { status, .. } => *status,
        }
    }
}

/// The value of the `Allow` header that goes with status 405.
pub fn allowed_methods() -> (r: &'static str)
    ensures
        r@ == "GET, HEAD"@,
{
    "GET, HEAD"
}

/// The status that reports a failure to the client: 500 while the
/// response head has not been sent; once it has, the status can no longer
/// change and the stream just ends.
pub fn failure_status(header_sent: bool) -> (r: Option<u16>)
    ensures
        r == if header_sent {
            None::<u16>
        } else {
            Some(INTERNAL_SERVER_ERROR)
        },
{
    if header_sent {
        None
    } else {
        Some(INTERNAL_SERVER_ERROR)
    }
}

/// Only `GET` and `HEAD` are served, and only without a request body; the
/// method is judged first.
pub open spec fn admission(method: RequestMethod, has_body: bool) -> Admission {
    match method {
        RequestMethod::Other => Admission::MethodNotAllowed,
        RequestMethod::Get => if has_body {
            Admission::BodyNotAllowed
        } else {
            Admission::Serve { header_only: false }
        },
        RequestMethod::Head => if has_body {
            Admission::BodyNotAllowed
        } else {
            Admission::Serve { header_only: true }
        },
    }
}

/// The first byte that a request asks for; 0 without a range.
pub open spec fn requested_first(req: Option<RequestRange>) -> usize {
    match req {
        Some(r) => r.spec_first(),
        None => 0,
    }
}

/// Start of the block that holds offset `first`.
pub open spec fn block_start(first: usize, block_size: usize) -> int {
    (first as int / block_size as int) * block_size as int
}

/// What the first origin response means: any status but 206 passes
/// through; a fragment must state an accepted content range that starts at
/// the block asked for and does not end past it.
pub open spec fn first_response(
    status: u16,
    values: Seq<Seq<u8>>,
    asked_first: usize,
    asked_last: usize,
) -> Result<FirstResponse, FetchError> {
    if status != PARTIAL_CONTENT {
        Ok(FirstResponse::PassThrough)
    } else {
        match content_range_of(values) {
            Err(error) => Err(FetchError::ContentRange { reason: error }),
            Ok(c) => if c.first != asked_first || c.last > asked_last {
                Err(
                    FetchError::UnexpectedRange {
                        first: c.first,
                        last: c.last,
                        asked_first,
                        asked_last,
                    },
                )
            } else {
                Ok(FirstResponse::Fragment { content_range: c })
            },
        }
    }
}

/// The head that answers a request once the complete length is known: 416
/// where the range cannot be satisfied, 206 with the resolved content range
/// where a range was asked for, 200 where none was; 200 and 206 state the
/// number of bytes in the window as the content length.
pub open spec fn response_head(req: Option<RequestRange>, complete_length: usize) -> ResponseHeadView {
    match resolve(req, complete_length) {
        None => ResponseHeadView::NotSatisfiable {
            unsatisfied_range: unsatisfied_range_text(complete_length),
        },
        Some(w) => ResponseHeadView::Content {
            status: if req.is_some() {
                PARTIAL_CONTENT
            } else {
                OK
            },
            content_range: if req.is_some() {
                Some(content_range_text(w.first, w.last, complete_length))
            } else {
                None
            },
            content_length: decimal((w.last - w.first + 1) as nat),
            range: w,
        },
    }
}

/// Judges a client request by its method and by whether it has a body.
pub fn judge_request(method: RequestMethod, has_body: bool) -> (r: Admission)
    ensures
        r == admission(method, has_body),
{
    match method {
        RequestMethod::Other => Admission::MethodNotAllowed,
        RequestMethod::Get => if has_body {
            Admission::BodyNotAllowed
        } else {
            Admission::Serve { header_only: false }
        },
        RequestMethod::Head => if has_body {
            Admission::BodyNotAllowed
        } else {
            Admission::Serve { header_only: true }
        },
    }
}

/// The block to fetch first: the one that holds the first byte asked for.
pub fn first_block(req_range: &Option<RequestRange>, block_size: usize) -> (r: (usize, usize))
    requires
        block_size > 0,
        block_start(requested_first(*req_range), block_size) + block_size - 1 <= usize::MAX,
    ensures
        r.0 == block_start(requested_first(*req_range), block_size),
        r.1 == r.0 + block_size - 1,
        r.0 % block_size == 0,
        r.0 <= requested_first(*req_range) <= r.1,
{
    let first: usize = match req_range {
        Some(r) => r.get_first(),
        None => 0,
    };
    proof {
        lemma_block_start(first, block_size);
    }
    let start: usize = first / block_size * block_size;
    (start, start + (block_size - 1))
}

/// The start of a block is a multiple of the block size, at or before the
/// offset and less than a block away from it.
pub proof fn lemma_block_start(first: usize, block_size: usize)
    requires
        block_size > 0,
    ensures
        0 <= block_start(first, block_size) <= first,
        first < block_start(first, block_size) + block_size,
        block_start(first, block_size) % (block_size as int) == 0,
{
    let f = first as int;
    let b = block_size as int;
    assert(0 <= (f / b) * b <= f && f < (f / b) * b + b && ((f / b) * b) % b == 0)
        by (nonlinear_arith)
        requires
            b > 0,
            f >= 0,
    ;
}

/// Judges the first origin response against the block that was asked for.
pub fn check_first_response(
    status: u16,
    values: &Vec<Vec<u8>>,
    asked_first: usize,
    asked_last: usize,
) -> (r: Result<FirstResponse, FetchError>)
    ensures
        r == first_response(status, values_view(values), asked_first, asked_last),
        r matches Ok(FirstResponse::Fragment { content_range }) ==> content_range.wf(),
{
    if status != PARTIAL_CONTENT {
        return Ok(FirstResponse::PassThrough);
    }
    match ContentRange::new(values) {
        Err(error) => Err(FetchError::ContentRange { reason: error }),
        Ok(c) => {
            if c.first != asked_first || c.last > asked_last {
                Err(
                    FetchError::UnexpectedRange {
                        first: c.first,
                        last: c.last,
                        asked_first,
                        asked_last,
                    },
                )
            } else {
                Ok(FirstResponse::Fragment { content_range: c })
            }
        },
    }
}

/// Composes the head that answers the client.
pub fn compose(req_range: &Option<RequestRange>, complete_length: usize) -> (r: ResponseHead)
    requires
        req_range.is_none() ==> complete_length > 0,
        req_range matches Some(q) ==> q.wf(),
    ensures
        r@ == response_head(*req_range, complete_length),
        r matches ResponseHead::Content { range, .. } ==> range.wf(complete_length),
{
    match ResolvedRange::new(req_range, complete_length) {
        None => ResponseHead::NotSatisfiable {
            unsatisfied_range: unsatisfied_range_header_value(complete_length),
        },
        Some(w) => {
            let mut content_length: Vec<u8> = Vec::new();
            push_decimal(&mut content_length, w.last - w.first + 1);
            assert(content_length@ =~= decimal((w.last - w.first + 1) as nat));
            if req_range.is_some() {
                ResponseHead::Content {
                    status: PARTIAL_CONTENT,
                    content_range: Some(
                        content_range_header_value(w.first, w.last, complete_length),
                    ),
                    content_length,
                    range: w,
                }
            } else {
                ResponseHead::Content {
                    status: OK,
                    content_range: None,
                    content_length,
                    range: w,
                }
            }
        },
    }
}

} // verus!
