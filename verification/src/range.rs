//! Range negotiation: the range a client asks for, the window it resolves to
//! once the object's length is known, and the range an origin says it sent.

use vstd::prelude::*;
use crate::text::{
    all_digits, decimal, is_digit, is_header_text, is_text, is_visible_ascii,
    lemma_decimal_reads_back, lemma_first_index_at, lemma_parse_decimal, parse_number,
    parse_usize, push_bytes, push_decimal, split_at_first, split_once, values_view,
};

verus! {

/// The byte range of a request: closed at both ends, or open to the end.
#[derive(Clone, Copy, Debug, PartialEq, Eq, Structural)]
pub enum RequestRange {
    Closed { first: usize, last: usize },
    Open { first: usize },
}

/// Why a `Range` header was not accepted.
#[derive(Clone, Copy, Debug, PartialEq, Eq, Structural)]
pub enum RangeError {
    /// The header value is not visible ASCII.
    HeaderValue,
    /// More than one `Range` field.
    MultipleFields,
    /// The unit is not `bytes`.
    NotBytes,
    /// A suffix range (`-N`).
    SuffixNotSupported,
    /// The lower bound is no number.
    LowerBound,
    /// The upper bound is no number.
    UpperBound,
    /// The upper bound lies below the lower bound.
    UpperBelowLower,
    /// No `-` between the bounds.
    CannotParse,
}

/// The inclusive window of bytes that is served.
#[derive(Clone, Copy, Debug, PartialEq, Eq, Structural)]
pub struct ResolvedRange {
    pub first: usize,
    pub last: usize,
}

/// The span and complete length that an origin response states.
#[derive(Clone, Copy, Debug, PartialEq, Eq, Structural)]
pub struct ContentRange {
    pub first: usize,
    pub last: usize,
    pub complete_length: usize,
}

/// Why a `Content-Range` header was not accepted.
#[derive(Clone, Copy, Debug, PartialEq, Eq, Structural)]
pub enum ContentRangeError {
    /// No `Content-Range` field.
    Missing,
    /// The header value is not visible ASCII.
    HeaderValue,
    /// More than one `Content-Range` field.
    MultipleFields,
    /// The unit is not `bytes` followed by a space.
    NotBytes,
    /// The complete length is `*`.
    UnknownCompleteLength,
    /// The range is `*`.
    UnsatisfiedRange,
    /// The complete length is no number.
    CompleteLength,
    /// No `/` between range and complete length.
    CannotParse,
    /// The complete length is zero.
    ZeroCompleteLength,
    /// The lower bound is no number.
    LowerBound,
    /// The upper bound is no number.
    UpperBound,
    /// The upper bound lies below the lower bound.
    UpperBelowLower,
    /// The lower bound is not below the complete length.
    LowerNotBelowLength,
    /// The upper bound is not below the complete length.
    UpperNotBelowLength,
    /// No `-` between the bounds.
    CannotParseRange,
}

/// The unit name `bytes`.
pub open spec fn bytes_unit() -> Seq<u8> {
    seq![98u8, 121u8, 116u8, 101u8, 115u8]
}

/// The single byte `*`.
pub open spec fn star() -> Seq<u8> {
    seq![42u8]
}

/// The bounds of a requested range, as written after `bytes=`.
pub open spec fn parse_range_bounds(range: Seq<u8>) -> Result<RequestRange, RangeError> {
    match split_once(range, 45) {
        None => Err(RangeError::CannotParse),
        Some((first, last)) => if first.len() == 0 && last.len() > 0 {
            Err(RangeError::SuffixNotSupported)
        } else {
            match parse_number(first) {
                None => Err(RangeError::LowerBound),
                Some(f) => if last.len() == 0 {
                    Ok(RequestRange::Open { first: f })
                } else {
                    match parse_number(last) {
                        None => Err(RangeError::UpperBound),
                        Some(l) => if l < f {
                            Err(RangeError::UpperBelowLower)
                        } else {
                            Ok(RequestRange::Closed { first: f, last: l })
                        },
                    }
                },
            }
        },
    }
}

/// What one `Range` header value asks for.
pub open spec fn parse_range_value(value: Seq<u8>) -> Result<RequestRange, RangeError> {
    if !is_text(value) {
        Err(RangeError::HeaderValue)
    } else {
        match split_once(value, 61) {
            Some((unit, range)) => if unit == bytes_unit() {
                parse_range_bounds(range)
            } else {
                Err(RangeError::NotBytes)
            },
            None => Err(RangeError::NotBytes),
        }
    }
}

/// What the `Range` fields of a request ask for: no field asks for the
/// whole object, one field is parsed, more than one is refused.
pub open spec fn request_range_of(values: Seq<Seq<u8>>) -> Result<Option<RequestRange>, RangeError> {
    if values.len() == 0 {
        Ok(None)
    } else if values.len() == 1 {
        match parse_range_value(values[0]) {
            Ok(range) => Ok(Some(range)),
            Err(e) => Err(e),
        }
    } else {
        Err(RangeError::MultipleFields)
    }
}

/// The range that a request is served by: the one its `Range` fields ask
/// for, and the whole object where they are refused.
pub open spec fn served_range_of(values: Seq<Seq<u8>>) -> Option<RequestRange> {
    match request_range_of(values) {
        Ok(range) => range,
        Err(_) => None,
    }
}

/// The text `bytes=first-last`.
pub open spec fn closed_range_text(first: usize, last: usize) -> Seq<u8> {
    bytes_unit().push(61) + decimal(first as nat).push(45) + decimal(last as nat)
}

/// The text `bytes=first-`.
pub open spec fn open_range_text(first: usize) -> Seq<u8> {
    bytes_unit().push(61) + decimal(first as nat).push(45)
}

/// The window that a request resolves to on an object of `complete_length`
/// bytes: the whole object without a request, nothing where the request
/// starts at or past the end, else the request cut off at the last byte.
pub open spec fn resolve(req: Option<RequestRange>, complete_length: usize) -> Option<
    ResolvedRange,
> {
    match req {
        None => Some(ResolvedRange { first: 0, last: (complete_length - 1) as usize }),
        Some(r) => if r.spec_first() >= complete_length {
            None
        } else {
            Some(
                ResolvedRange {
                    first: r.spec_first(),
                    last: match r.spec_last() {
                        Some(l) => if l < complete_length {
                            l
                        } else {
                            (complete_length - 1) as usize
                        },
                        None => (complete_length - 1) as usize,
                    },
                },
            )
        },
    }
}

/// The bounds of a content range, as written before `/`.
pub open spec fn parse_content_span(range: Seq<u8>, complete_length: usize) -> Result<
    ContentRange,
    ContentRangeError,
> {
    match split_once(range, 45) {
        None => Err(ContentRangeError::CannotParseRange),
        Some((first, last)) => match parse_number(first) {
            None => Err(ContentRangeError::LowerBound),
            Some(f) => match parse_number(last) {
                None => Err(ContentRangeError::UpperBound),
                Some(l) => if l < f {
                    Err(ContentRangeError::UpperBelowLower)
                } else if f >= complete_length {
                    Err(ContentRangeError::LowerNotBelowLength)
                } else if l >= complete_length {
                    Err(ContentRangeError::UpperNotBelowLength)
                } else {
                    Ok(ContentRange { first: f, last: l, complete_length })
                },
            },
        },
    }
}

/// What stands after `bytes ` in a content range: `first-last/length`.
pub open spec fn parse_content_field(field: Seq<u8>) -> Result<ContentRange, ContentRangeError> {
    match split_once(field, 47) {
        None => Err(ContentRangeError::CannotParse),
        Some((range, length)) => if length == star() {
            Err(ContentRangeError::UnknownCompleteLength)
        } else if range == star() {
            Err(ContentRangeError::UnsatisfiedRange)
        } else {
            match parse_number(length) {
                None => Err(ContentRangeError::CompleteLength),
                Some(n) => if n == 0 {
                    Err(ContentRangeError::ZeroCompleteLength)
                } else {
                    parse_content_span(range, n)
                },
            }
        },
    }
}

/// What one `Content-Range` header value states.
pub open spec fn parse_content_range_value(value: Seq<u8>) -> Result<
    ContentRange,
    ContentRangeError,
> {
    if !is_text(value) {
        Err(ContentRangeError::HeaderValue)
    } else {
        match split_once(value, 32) {
            Some((unit, field)) => if unit == bytes_unit() {
                parse_content_field(field)
            } else {
                Err(ContentRangeError::NotBytes)
            },
            None => Err(ContentRangeError::NotBytes),
        }
    }
}

/// What the `Content-Range` fields of a response state: exactly one field
/// is wanted.
pub open spec fn content_range_of(values: Seq<Seq<u8>>) -> Result<ContentRange, ContentRangeError> {
    if values.len() == 0 {
        Err(ContentRangeError::Missing)
    } else if values.len() == 1 {
        parse_content_range_value(values[0])
    } else {
        Err(ContentRangeError::MultipleFields)
    }
}

/// The text `bytes first-last/length`.
pub open spec fn content_range_text(first: usize, last: usize, complete_length: usize) -> Seq<u8> {
    bytes_unit().push(32) + decimal(first as nat).push(45) + decimal(last as nat).push(47)
        + decimal(complete_length as nat)
}

/// The text `bytes */length`.
pub open spec fn unsatisfied_range_text(complete_length: usize) -> Seq<u8> {
    bytes_unit().push(32).push(42).push(47) + decimal(complete_length as nat)
}


/// Joining two texts with a separator that the first does not hold, and
/// splitting at the first separator, gives the two texts back.
pub proof fn lemma_split_once_joined(a: Seq<u8>, sep: u8, b: Seq<u8>)
    requires
        forall|j: int| 0 <= j < a.len() ==> a[j] != sep,
    ensures
        split_once(a.push(sep) + b, sep) == Some((a, b)),
{
    let s = a.push(sep) + b;
    assert forall|j: int| 0 <= j < a.len() implies s[j] != sep by {
        assert(s[j] == a[j]);
    }
    assert(s[a.len() as int] == sep);
    lemma_first_index_at(s, sep, a.len() as int);
    assert(s.subrange(0, a.len() as int) =~= a);
    assert(s.subrange(a.len() as int + 1, s.len() as int) =~= b);
}

/// A decimal writing is visible text without sign or separator.
pub proof fn lemma_decimal_is_plain(n: nat)
    ensures
        decimal(n).len() > 0,
        all_digits(decimal(n)),
        is_text(decimal(n)),
        forall|j: int| 0 <= j < decimal(n).len() ==> is_digit(#[trigger] decimal(n)[j]),
{
    lemma_decimal_reads_back(n);
    assert forall|j: int| 0 <= j < decimal(n).len() implies is_visible_ascii(
        #[trigger] decimal(n)[j],
    ) by {
        assert(is_digit(decimal(n)[j]));
    }
}

/// Writing a request range as a header value and parsing that value gives
/// the range back: `bytes=first-last` reads as the closed range, and
/// `bytes=first-` as the open one.
pub proof fn lemma_request_range_round_trip(r: RequestRange)
    requires
        r.wf(),
    ensures
        parse_range_value(r.text()) == Ok::<RequestRange, RangeError>(r),
{
    let f = r.spec_first();
    let df = decimal(f as nat);
    let tail = match r {
        RequestRange::Closed { last, .. } => decimal(last as nat),
        RequestRange::Open { .. } => Seq::<u8>::empty(),
    };
    let bounds = df.push(45) + tail;
    let value = bytes_unit().push(61) + bounds;
    assert(r.text() =~= value);
    lemma_decimal_is_plain(f as nat);
    lemma_parse_decimal(f);
    match r {
        RequestRange::Closed { last, .. } => {
            lemma_decimal_is_plain(last as nat);
            lemma_parse_decimal(last);
        },
        RequestRange::Open { .. } => {},
    }
    assert forall|j: int| 0 <= j < value.len() implies is_visible_ascii(#[trigger] value[j]) by {
        if j < 5 {
            assert(value[j] == bytes_unit()[j]);
        } else if j == 5 {
        } else if j < 6 + df.len() {
            assert(value[j] == df[j - 6]);
            assert(is_digit(df[j - 6]));
        } else if j == 6 + df.len() {
        } else {
            assert(value[j] == tail[j - 7 - df.len()]);
            assert(is_digit(tail[j - 7 - df.len()]));
        }
    }
    lemma_split_once_joined(bytes_unit(), 61, bounds);
    assert forall|j: int| 0 <= j < df.len() implies df[j] != 45 by {
        assert(is_digit(df[j]));
    }
    lemma_split_once_joined(df, 45, tail);
}

/// Writing a content range as a header value and parsing that value gives
/// the content range back.
pub proof fn lemma_content_range_round_trip(c: ContentRange)
    requires
        c.wf(),
    ensures
        parse_content_range_value(content_range_text(c.first, c.last, c.complete_length)) == Ok::<
            ContentRange,
            ContentRangeError,
        >(c),
{
    let df = decimal(c.first as nat);
    let dl = decimal(c.last as nat);
    let dn = decimal(c.complete_length as nat);
    let span = df.push(45) + dl;
    let field = span.push(47) + dn;
    let value = bytes_unit().push(32) + field;
    assert(content_range_text(c.first, c.last, c.complete_length) =~= value);
    lemma_decimal_is_plain(c.first as nat);
    lemma_decimal_is_plain(c.last as nat);
    lemma_decimal_is_plain(c.complete_length as nat);
    lemma_parse_decimal(c.first);
    lemma_parse_decimal(c.last);
    lemma_parse_decimal(c.complete_length);
    assert forall|j: int| 0 <= j < span.len() implies span[j] != 47 && is_visible_ascii(
        #[trigger] span[j],
    ) by {
        if j < df.len() {
            assert(is_digit(df[j]));
        } else if j > df.len() {
            assert(span[j] == dl[j - df.len() - 1]);
            assert(is_digit(dl[j - df.len() - 1]));
        }
    }
    assert forall|j: int| 0 <= j < value.len() implies is_visible_ascii(#[trigger] value[j]) by {
        if j < 5 {
            assert(value[j] == bytes_unit()[j]);
        } else if j == 5 {
        } else if j < 6 + span.len() {
            assert(value[j] == span[j - 6]);
        } else if j == 6 + span.len() {
        } else {
            assert(value[j] == dn[j - 7 - span.len()]);
            assert(is_digit(dn[j - 7 - span.len()]));
        }
    }
    lemma_split_once_joined(bytes_unit(), 32, field);
    lemma_split_once_joined(span, 47, dn);
    assert(is_digit(dn[0]));
    assert(is_digit(span[0])) by {
        assert(span[0] == df[0]);
        assert(is_digit(df[0]));
    }
    assert(dn != star());
    assert(span != star());
    assert forall|j: int| 0 <= j < df.len() implies df[j] != 45 by {
        assert(is_digit(df[j]));
    }
    lemma_split_once_joined(df, 45, dl);
}

/// A request that starts at or past the end of the object resolves to nothing.
pub proof fn lemma_resolve_past_end(r: RequestRange, complete_length: usize)
    requires
        r.spec_first() >= complete_length,
    ensures
        resolve(Some(r), complete_length).is_none(),
{
}

/// Without a request, an object that is not empty resolves to all of itself.
pub proof fn lemma_resolve_whole(complete_length: usize)
    requires
        complete_length > 0,
    ensures
        resolve(None, complete_length) == Some(
            (ResolvedRange { first: 0, last: (complete_length - 1) as usize }),
        ),
        resolve(None, complete_length).unwrap().spec_len() == complete_length,
{
}

/// A well-formed request that starts inside the object resolves to a window
/// inside the object that starts where the request does and ends no later.
pub proof fn lemma_resolve_inside(r: RequestRange, complete_length: usize)
    requires
        r.wf(),
        r.spec_first() < complete_length,
    ensures
        resolve(Some(r), complete_length) matches Some(w) && w.wf(complete_length) && w.first
            == r.spec_first() && (r.spec_last() matches Some(l) ==> w.last <= l),
{
}

fn is_bytes_unit(s: &[u8]) -> (r: bool)
    ensures
        r == (s@ == bytes_unit()),
{
    let r = s.len() == 5 && s[0] == 98 && s[1] == 121 && s[2] == 116 && s[3] == 101 && s[4]
        == 115;
    proof {
        if r {
            assert(s@ =~= bytes_unit());
        } else if s.len() == 5 {
            assert(bytes_unit()[0] == 98 && bytes_unit()[1] == 121 && bytes_unit()[2] == 116
                && bytes_unit()[3] == 101 && bytes_unit()[4] == 115);
        }
    }
    r
}

fn is_star(s: &[u8]) -> (r: bool)
    ensures
        r == (s@ == star()),
{
    let r = s.len() == 1 && s[0] == 42;
    proof {
        if r {
            assert(s@ =~= star());
        } else if s.len() == 1 {
            assert(star()[0] == 42);
        }
    }
    r
}

impl RangeError {
    /// What went wrong, in words.
    pub open spec fn spec_message(&self) -> Seq<char> {
        match *self {
            RangeError::HeaderValue => "range header value"@,
            RangeError::MultipleFields => "multiple range fields"@,
            RangeError::NotBytes => "range not bytes"@,
            RangeError::SuffixNotSupported => "suffix range not supported"@,
            RangeError::LowerBound => "range lower bound"@,
            RangeError::UpperBound => "range upper bound"@,
            RangeError::UpperBelowLower => "range upper bound lower than lower bound"@,
            RangeError::CannotParse => "cannot parse requested range"@,
        }
    }

    /// What went wrong, in words.
    pub fn message(&self) -> (r: &'static str)
        ensures
            r@ == self.spec_message(),
    {
        match self {
            RangeError::HeaderValue => "range header value",
            RangeError::MultipleFields => "multiple range fields",
            RangeError::NotBytes => "range not bytes",
            RangeError::SuffixNotSupported => "suffix range not supported",
            RangeError::LowerBound => "range lower bound",
            RangeError::UpperBound => "range upper bound",
            RangeError::UpperBelowLower => "range upper bound lower than lower bound",
            RangeError::CannotParse => "cannot parse requested range",
        }
    }
}

impl ContentRangeError {
    /// What went wrong, in words.
    pub open spec fn spec_message(&self) -> Seq<char> {
        match *self {
            ContentRangeError::Missing => "missing content-range"@,
            ContentRangeError::HeaderValue => "content-range header value"@,
            ContentRangeError::MultipleFields => "multiple content-range fields"@,
            ContentRangeError::NotBytes => "content-range not bytes"@,
            ContentRangeError::UnknownCompleteLength => "unknown complete length in content-range not supported"@,
            ContentRangeError::UnsatisfiedRange => "unsatisfied range in content-range not supported"@,
            ContentRangeError::CompleteLength => "content-range complete length"@,
            ContentRangeError::CannotParse => "cannot parse content-range"@,
            ContentRangeError::ZeroCompleteLength => "zero complete length in content-range"@,
            ContentRangeError::LowerBound => "content-range lower bound"@,
            ContentRangeError::UpperBound => "content-range upper bound"@,
            ContentRangeError::UpperBelowLower => "content-range upper bound lower than lower bound"@,
            ContentRangeError::LowerNotBelowLength => "content-range lower bound not lower than complete length"@,
            ContentRangeError::UpperNotBelowLength => "content-range upper bound not lower than complete length"@,
            ContentRangeError::CannotParseRange => "cannot parse range in content-range"@,
        }
    }

    /// What went wrong, in words.
    pub fn message(&self) -> (r: &'static str)
        ensures
            r@ == self.spec_message(),
    {
        match self {
            ContentRangeError::Missing => "missing content-range",
            ContentRangeError::HeaderValue => "content-range header value",
            ContentRangeError::MultipleFields => "multiple content-range fields",
            ContentRangeError::NotBytes => "content-range not bytes",
            ContentRangeError::UnknownCompleteLength => "unknown complete length in content-range not supported",
            ContentRangeError::UnsatisfiedRange => "unsatisfied range in content-range not supported",
            ContentRangeError::CompleteLength => "content-range complete length",
            ContentRangeError::CannotParse => "cannot parse content-range",
            ContentRangeError::ZeroCompleteLength => "zero complete length in content-range",
            ContentRangeError::LowerBound => "content-range lower bound",
            ContentRangeError::UpperBound => "content-range upper bound",
            ContentRangeError::UpperBelowLower => "content-range upper bound lower than lower bound",
            ContentRangeError::LowerNotBelowLength => "content-range lower bound not lower than complete length",
            ContentRangeError::UpperNotBelowLength => "content-range upper bound not lower than complete length",
            ContentRangeError::CannotParseRange => "cannot parse range in content-range",
        }
    }
}

impl RequestRange {
    /// The range is closed only over a span that is not empty.
    pub open spec fn wf(&self) -> bool {
        match *self {
            RequestRange::Closed { first, last } => first <= last,
            RequestRange::Open { .. } => true,
        }
    }

    pub open spec fn spec_first(&self) -> usize {
        match *self {
            RequestRange::Closed { first, .. } => first,
            RequestRange::Open { first } => first,
        }
    }

    pub open spec fn spec_last(&self) -> Option<usize> {
        match *self {
            RequestRange::Closed { last, .. } => Some(last),
            RequestRange::Open { .. } => None,
        }
    }

    /// The text that asks for this range.
    pub open spec fn text(&self) -> Seq<u8> {
        match *self {
            RequestRange::Closed { first, last } => closed_range_text(first, last),
            RequestRange::Open { first } => open_range_text(first),
        }
    }

    /// Reads the `Range` fields of a request: none asks for the whole
    /// object, one is parsed, more than one is refused.
    pub fn new(values: &Vec<Vec<u8>>) -> (r: Result<Option<RequestRange>, RangeError>)
        ensures
            r == request_range_of(values_view(values)),
            r matches Ok(Some(range)) ==> range.wf(),
    {
        if values.len() == 0 {
            Ok(None)
        } else if values.len() == 1 {
            match RequestRange::parse(values[0].as_slice()) {
                Ok(range) => Ok(Some(range)),
                Err(e) => Err(e),
            }
        } else {
            Err(RangeError::MultipleFields)
        }
    }

    /// The range that a request is served by: a request whose `Range`
    /// fields are refused is served as one that asks for the whole object.
    pub fn served(values: &Vec<Vec<u8>>) -> (r: Option<RequestRange>)
        ensures
            r == served_range_of(values_view(values)),
            r matches Some(range) ==> range.wf(),
    {
        match RequestRange::new(values) {
            Ok(range) => range,
            Err(_) => None,
        }
    }

    /// Parses one `Range` header value: `bytes=first-last` or `bytes=first-`.
    pub fn parse(value: &[u8]) -> (r: Result<RequestRange, RangeError>)
        ensures
            r == parse_range_value(value@),
            r matches Ok(range) ==> range.wf(),
    {
        if !is_header_text(value) {
            return Err(RangeError::HeaderValue);
        }
        let range = match split_at_first(value, 61) {
            Some((unit, range)) => {
                if !is_bytes_unit(unit) {
                    return Err(RangeError::NotBytes);
                }
                range
            },
            None => {
                return Err(RangeError::NotBytes);
            },
        };
        let (first, last) = match split_at_first(range, 45) {
            Some(parts) => parts,
            None => {
                return Err(RangeError::CannotParse);
            },
        };
        if first.len() == 0 && last.len() > 0 {
            return Err(RangeError::SuffixNotSupported);
        }
        let f: usize = match parse_usize(first) {
            Some(f) => f,
            None => {
                return Err(RangeError::LowerBound);
            },
        };
        if last.len() == 0 {
            return Ok(RequestRange::Open { first: f });
        }
        let l: usize = match parse_usize(last) {
            Some(l) => l,
            None => {
                return Err(RangeError::UpperBound);
            },
        };
        if l < f {
            return Err(RangeError::UpperBelowLower);
        }
        Ok(RequestRange::Closed { first: f, last: l })
    }

    /// The first byte asked for.
    pub fn get_first(&self) -> (r: usize)
        ensures
            r == self.spec_first(),
    {
        match self {
            RequestRange::Closed { first, .. } => *first,
            RequestRange::Open { first } => *first,
        }
    }

    /// The last byte asked for, where the range names one.
    pub fn get_last(&self) -> (r: Option<usize>)
        ensures
            r == self.spec_last(),
    {
        match self {
            RequestRange::Closed { last, .. } => Some(*last),
            RequestRange::Open { .. } => None,
        }
    }
}

impl ResolvedRange {
    /// `first <= last`, and both lie inside an object of `complete_length` bytes.
    pub open spec fn wf(&self, complete_length: usize) -> bool {
        self.first <= self.last && self.last < complete_length
    }

    /// Number of bytes in the window.
    pub open spec fn spec_len(&self) -> int {
        self.last - self.first + 1
    }

    /// Resolves a request against the object's complete length. `None`
    /// means that the range cannot be satisfied.
    pub fn new(req_range: &Option<RequestRange>, complete_length: usize) -> (r: Option<Self>)
        requires
            req_range.is_none() ==> complete_length > 0,
        ensures
            r == resolve(*req_range, complete_length),
            req_range.is_none() ==> r == Some(
                (ResolvedRange { first: 0, last: (complete_length - 1) as usize }),
            ),
            (req_range matches Some(q) && q.spec_first() >= complete_length) ==> r.is_none(),
            (req_range matches Some(q) && q.wf()) ==> (r matches Some(w) ==> w.wf(complete_length)),
            req_range.is_none() ==> (r matches Some(w) && w.wf(complete_length)),
    {
        match req_range {
            Some(req) => {
                let first: usize = req.get_first();
                if first >= complete_length {
                    return None;
                }
                let last: usize = match req.get_last() {
                    Some(l) => if l < complete_length {
                        l
                    } else {
                        complete_length - 1
                    },
                    None => complete_length - 1,
                };
                Some(ResolvedRange { first, last })
            },
            None => Some(ResolvedRange { first: 0, last: complete_length - 1 }),
        }
    }
}

impl ContentRange {
    /// `first <= last < complete_length`.
    pub open spec fn wf(&self) -> bool {
        self.first <= self.last && self.last < self.complete_length
    }

    /// Reads the `Content-Range` fields of an origin response: exactly one
    /// is wanted, and it must state a span inside a known complete length.
    pub fn new(values: &Vec<Vec<u8>>) -> (r: Result<ContentRange, ContentRangeError>)
        ensures
            r == content_range_of(values_view(values)),
            r matches Ok(c) ==> c.wf(),
    {
        if values.len() == 0 {
            Err(ContentRangeError::Missing)
        } else if values.len() == 1 {
            ContentRange::parse(values[0].as_slice())
        } else {
            Err(ContentRangeError::MultipleFields)
        }
    }

    /// Parses one `Content-Range` header value: `bytes first-last/length`.
    pub fn parse(value: &[u8]) -> (r: Result<ContentRange, ContentRangeError>)
        ensures
            r == parse_content_range_value(value@),
            r matches Ok(c) ==> c.wf(),
    {
        if !is_header_text(value) {
            return Err(ContentRangeError::HeaderValue);
        }
        let field = match split_at_first(value, 32) {
            Some((unit, field)) => {
                if !is_bytes_unit(unit) {
                    return Err(ContentRangeError::NotBytes);
                }
                field
            },
            None => {
                return Err(ContentRangeError::NotBytes);
            },
        };
        let (range, length) = match split_at_first(field, 47) {
            Some(parts) => parts,
            None => {
                return Err(ContentRangeError::CannotParse);
            },
        };
        if is_star(length) {
            return Err(ContentRangeError::UnknownCompleteLength);
        }
        if is_star(range) {
            return Err(ContentRangeError::UnsatisfiedRange);
        }
        let complete_length: usize = match parse_usize(length) {
            Some(n) => n,
            None => {
                return Err(ContentRangeError::CompleteLength);
            },
        };
        if complete_length == 0 {
            return Err(ContentRangeError::ZeroCompleteLength);
        }
        let (first, last) = match split_at_first(range, 45) {
            Some(parts) => parts,
            None => {
                return Err(ContentRangeError::CannotParseRange);
            },
        };
        let f: usize = match parse_usize(first) {
            Some(f) => f,
            None => {
                return Err(ContentRangeError::LowerBound);
            },
        };
        let l: usize = match parse_usize(last) {
            Some(l) => l,
            None => {
                return Err(ContentRangeError::UpperBound);
            },
        };
        if l < f {
            return Err(ContentRangeError::UpperBelowLower);
        }
        if f >= complete_length {
            return Err(ContentRangeError::LowerNotBelowLength);
        }
        if l >= complete_length {
            return Err(ContentRangeError::UpperNotBelowLength);
        }
        Ok(ContentRange { first: f, last: l, complete_length })
    }
}

/// Writes `bytes=first-last`.
pub fn range_header_value(first: usize, last: usize) -> (r: Vec<u8>)
    ensures
        r@ == closed_range_text(first, last),
{
    let mut out: Vec<u8> = Vec::new();
    let unit: [u8; 6] = [98, 121, 116, 101, 115, 61];
    push_bytes(&mut out, unit.as_slice());
    push_decimal(&mut out, first);
    out.push(45);
    push_decimal(&mut out, last);
    assert(out@ =~= closed_range_text(first, last));
    out
}

/// Writes `bytes first-last/length`.
pub fn content_range_header_value(first: usize, last: usize, complete_length: usize) -> (r: Vec<u8>)
    ensures
        r@ == content_range_text(first, last, complete_length),
{
    let mut out: Vec<u8> = Vec::new();
    let unit: [u8; 6] = [98, 121, 116, 101, 115, 32];
    push_bytes(&mut out, unit.as_slice());
    push_decimal(&mut out, first);
    out.push(45);
    push_decimal(&mut out, last);
    out.push(47);
    push_decimal(&mut out, complete_length);
    assert(out@ =~= content_range_text(first, last, complete_length));
    out
}

/// Writes `bytes */length`.
pub fn unsatisfied_range_header_value(complete_length: usize) -> (r: Vec<u8>)
    ensures
        r@ == unsatisfied_range_text(complete_length),
{
    let mut out: Vec<u8> = Vec::new();
    let unit: [u8; 8] = [98, 121, 116, 101, 115, 32, 42, 47];
    push_bytes(&mut out, unit.as_slice());
    push_decimal(&mut out, complete_length);
    assert(out@ =~= unsatisfied_range_text(complete_length));
    out
}

} // verus!
