//! The wire codec: typed requests parsed from inbound lines, and the
//! work-assignment response format.
//!
//! A request is UTF-8 text, stripped of trailing NUL padding and trailing
//! newlines, then split on commas: `callerId,kind[,value]` with
//! `kind` either `interval` (a work request) or `result` (a result report,
//! whose third field carries the reported value as text).

use vstd::prelude::*;
use vstd::utf8::valid_utf8;

use crate::wire::{
    all_ascii, bytes_eq, i32_to_dec, int_digits, is_dec_digit, lemma_ascii_concat,
    lemma_ascii_valid_utf8, lemma_int_digits_byte_range, lemma_parse_int_digits,
    lemma_sep_free_concat, lemma_split_append_sep, lemma_split_no_sep, parse_i32,
    parse_i32_spec, push_all, sep_free, split_bytes, split_on, strip_leading,
    strip_leading_byte, strip_leading_ws, strip_trailing, strip_trailing_byte,
    strip_trailing_ws, trim_bytes, trim_ws,
};

verus! {

/// A parsed inbound request.
#[derive(Debug)]
pub enum Request {
    /// `callerId,interval`: the caller asks for a work range.
    WorkRequest { caller_id: Vec<u8> },
    /// `callerId,result,value`: the caller reports a computed value.
    ResultReport { caller_id: Vec<u8>, computed_value: Vec<u8> },
}

/// Why an inbound request was rejected.
#[derive(Clone, Copy, Debug, PartialEq, Eq, Structural)]
pub enum RequestError {
    /// The bytes are not valid UTF-8 text.
    InvalidUtf8,
    /// Fewer than two comma-separated fields, or a result report with no
    /// value field.
    MalformedRequest,
    /// The second field is neither `interval` nor `result`.
    UnknownRequestKind,
}

/// The bytes of the request kind `interval`.
pub open spec fn interval_kind() -> Seq<u8> {
    seq![105u8, 110u8, 116u8, 101u8, 114u8, 118u8, 97u8, 108u8]
}

/// The bytes of the request kind `result`.
pub open spec fn result_kind() -> Seq<u8> {
    seq![114u8, 101u8, 115u8, 117u8, 108u8, 116u8]
}

/// A request line after padding removal: trailing NUL bytes, then trailing
/// newlines, are stripped.
pub open spec fn stripped(buf: Seq<u8>) -> Seq<u8> {
    strip_trailing(strip_trailing(buf, 0), 10)
}

/// The comma-separated fields of a stripped request line.
pub open spec fn request_fields(buf: Seq<u8>) -> Seq<Seq<u8>> {
    split_bytes(stripped(buf), 44)
}

/// Exactly what decoding owes for input `buf`: each outcome happens if and
/// only if its condition holds.  A `result` line without its value field is
/// malformed: a report carries its value, and rejecting the truncated line
/// keeps the coordinator answering instead of crashing.
pub open spec fn request_decoded(buf: Seq<u8>, r: Result<Request, RequestError>) -> bool {
    let f = request_fields(buf);
    match r {
        Ok(Request::WorkRequest { caller_id }) => valid_utf8(buf) && f.len() >= 2 && f[1]
            == interval_kind() && caller_id@ == f[0],
        Ok(Request::ResultReport { caller_id, computed_value }) => valid_utf8(buf) && f.len()
            >= 3 && f[1] == result_kind() && caller_id@ == f[0] && computed_value@ == f[2],
        Err(RequestError::InvalidUtf8) => !valid_utf8(buf),
        Err(RequestError::MalformedRequest) => valid_utf8(buf) && (f.len() <= 1 || (f.len()
            == 2 && f[1] == result_kind())),
        Err(RequestError::UnknownRequestKind) => valid_utf8(buf) && f.len() >= 2 && f[1]
            != interval_kind() && f[1] != result_kind(),
    }
}

/// Relies on `core::str::from_utf8`, which returns `Ok` exactly when the
/// bytes are a valid UTF-8 encoding.
#[verifier::external_body]
fn utf8_ok(buf: &Vec<u8>) -> (r: bool)
    ensures
        r == valid_utf8(buf@),
{
    core::str::from_utf8(buf.as_slice()).is_ok()
}

/// The bytes of `interval`, for field comparison.
pub fn kind_interval_bytes() -> (r: Vec<u8>)
    ensures
        r@ == interval_kind(),
{
    let mut r: Vec<u8> = Vec::new();
    r.push(105);
    r.push(110);
    r.push(116);
    r.push(101);
    r.push(114);
    r.push(118);
    r.push(97);
    r.push(108);
    assert(r@ =~= interval_kind());
    r
}

/// The bytes of `result`, for field comparison.
pub fn kind_result_bytes() -> (r: Vec<u8>)
    ensures
        r@ == result_kind(),
{
    let mut r: Vec<u8> = Vec::new();
    r.push(114);
    r.push(101);
    r.push(115);
    r.push(117);
    r.push(108);
    r.push(116);
    assert(r@ =~= result_kind());
    r
}

/// Decode one request line.  Total: every input is either parsed or
/// classified under one of the three request errors.
pub fn decode_request(buf: &Vec<u8>) -> (r: Result<Request, RequestError>)
    ensures
        request_decoded(buf@, r),
{
    if !utf8_ok(buf) {
        return Err(RequestError::InvalidUtf8);
    }
    let no_nul = strip_trailing_byte(buf, 0);
    let line = strip_trailing_byte(&no_nul, 10);
    assert(line@ == stripped(buf@));
    let mut fields = split_on(&line, 44);
    assert(forall|k: int|
        0 <= k < fields@.len() ==> #[trigger] fields@[k]@ == request_fields(buf@)[k]);
    if fields.len() <= 1 {
        return Err(RequestError::MalformedRequest);
    }
    let interval = kind_interval_bytes();
    let result = kind_result_bytes();
    if bytes_eq(&fields[1], &interval) {
        let caller_id = fields.remove(0);
        Ok(Request::WorkRequest { caller_id })
    } else if bytes_eq(&fields[1], &result) {
        if fields.len() < 3 {
            return Err(RequestError::MalformedRequest);
        }
        let computed_value = fields.remove(2);
        let caller_id = fields.remove(0);
        Ok(Request::ResultReport { caller_id, computed_value })
    } else {
        Err(RequestError::UnknownRequestKind)
    }
}

/// The request line a caller frames for a work request with an integer
/// caller id, exactly as [`crate::caller::encode_request`] renders it.
pub open spec fn work_request_line(id: int) -> Seq<u8> {
    int_digits(id) + seq![44u8] + interval_kind()
}

/// What holds of every timestamp the coordinator stamps into a response:
/// nonempty ASCII text that contains no field separator.
pub open spec fn stamp_ok(s: Seq<u8>) -> bool {
    s.len() >= 1 && forall|i: int| 0 <= i < s.len() ==> (#[trigger] s[i]) < 128 && s[i] != 124
}

/// Wire form of a work assignment: `callerId|[low, high]|received|sent`,
/// the range rendered literally as a bracketed, comma-and-space pair.
pub open spec fn assignment_wire(
    id: Seq<u8>,
    low: int,
    high: int,
    received: Seq<u8>,
    sent: Seq<u8>,
) -> Seq<u8> {
    id + seq![124u8, 91u8] + int_digits(low) + seq![44u8, 32u8] + int_digits(high) + seq![
        93u8,
        124u8,
    ] + received + seq![124u8] + sent
}

/// Encode a work assignment.  Pure formatting: it cannot fail, and the
/// result's exact bytes (hence its length) follow from the specification.
pub fn encode_assignment(
    caller_id: &Vec<u8>,
    low: i32,
    high: i32,
    received: &Vec<u8>,
    sent: &Vec<u8>,
) -> (r: Vec<u8>)
    ensures
        r@ == assignment_wire(caller_id@, low as int, high as int, received@, sent@),
{
    let mut r: Vec<u8> = Vec::new();
    push_all(&mut r, caller_id);
    r.push(124);
    r.push(91);
    let lo = i32_to_dec(low);
    push_all(&mut r, &lo);
    r.push(44);
    r.push(32);
    let hi = i32_to_dec(high);
    push_all(&mut r, &hi);
    r.push(93);
    r.push(124);
    push_all(&mut r, received);
    r.push(124);
    push_all(&mut r, sent);
    assert(r@ =~= assignment_wire(caller_id@, low as int, high as int, received@, sent@));
    r
}

/// A decoded work assignment, as the caller sees it.
#[derive(Debug)]
pub struct Assignment {
    pub caller_id: i32,
    /// The numeric entries of the bracketed range field, in order.
    pub interval: Vec<i32>,
    /// Opaque timestamp text: when the coordinator read the request.
    pub server_received: Vec<u8>,
    /// Opaque timestamp text: when the coordinator wrote the response.
    pub server_sent: Vec<u8>,
}

/// Why a response was rejected by the caller.
#[derive(Clone, Copy, Debug, PartialEq, Eq, Structural)]
pub enum ResponseError {
    /// The bytes are not valid UTF-8 text.
    InvalidUtf8,
    /// The text does not split into exactly four pipe-separated fields.
    MalformedResponse,
}

/// The pipe-separated fields of a response.
pub open spec fn response_fields(resp: Seq<u8>) -> Seq<Seq<u8>> {
    split_bytes(resp, 124)
}

/// The entries of the bracketed range field: leading `[`s and trailing `]`s
/// are stripped, then the remainder is split on commas.
pub open spec fn interval_items(field: Seq<u8>) -> Seq<Seq<u8>> {
    split_bytes(strip_trailing(strip_leading(field, 91), 93), 44)
}

/// Numeric value of one range entry, after whitespace trimming.
pub open spec fn item_value(e: Seq<u8>) -> Option<i32> {
    parse_i32_spec(trim_ws(e))
}

/// Exactly what response decoding owes for input `resp`.  A four-field
/// reply whose caller id or range entries are not integer text is
/// malformed: the caller skips that attempt and the batch continues.
pub open spec fn response_decoded(resp: Seq<u8>, r: Result<Assignment, ResponseError>) -> bool {
    let f = response_fields(resp);
    let items = interval_items(f[1]);
    match r {
        Ok(a) => valid_utf8(resp) && f.len() == 4 && parse_i32_spec(f[0]) == Some(a.caller_id)
            && a.interval@.len() == items.len() && (forall|k: int|
            0 <= k < a.interval@.len() ==> item_value(items[k]) == Some(
                #[trigger] a.interval@[k],
            )) && a.server_received@ == f[2] && a.server_sent@ == f[3],
        Err(ResponseError::InvalidUtf8) => !valid_utf8(resp),
        Err(ResponseError::MalformedResponse) => valid_utf8(resp) && (f.len() != 4
            || parse_i32_spec(f[0]) is None || (exists|k: int|
            0 <= k < items.len() && (#[trigger] item_value(items[k])) is None)),
    }
}

/// Decode a work-assignment response.  Total: every input is either parsed
/// or classified under one of the two response errors.
pub fn decode_assignment(resp: &Vec<u8>) -> (r: Result<Assignment, ResponseError>)
    ensures
        response_decoded(resp@, r),
{
    if !utf8_ok(resp) {
        return Err(ResponseError::InvalidUtf8);
    }
    let mut fields = split_on(resp, 124);
    assert(forall|k: int|
        0 <= k < fields@.len() ==> #[trigger] fields@[k]@ == response_fields(resp@)[k]);
    if fields.len() != 4 {
        return Err(ResponseError::MalformedResponse);
    }
    let no_open = strip_leading_byte(&fields[1], 91);
    let inner = strip_trailing_byte(&no_open, 93);
    let items = split_on(&inner, 44);
    let ghost gitems = interval_items(response_fields(resp@)[1]);
    assert(forall|k: int| 0 <= k < items@.len() ==> #[trigger] items@[k]@ == gitems[k]);
    let mut interval: Vec<i32> = Vec::new();
    let mut k: usize = 0;
    while k < items.len()
        invariant
            k <= items@.len(),
            valid_utf8(resp@),
            response_fields(resp@).len() == 4,
            gitems == interval_items(response_fields(resp@)[1]),
            items@.len() == gitems.len(),
            forall|j: int| 0 <= j < items@.len() ==> #[trigger] items@[j]@ == gitems[j],
            interval@.len() == k,
            forall|j: int|
                0 <= j < k ==> item_value(gitems[j]) == Some(#[trigger] interval@[j]),
        decreases items@.len() - k,
    {
        let t = trim_bytes(&items[k]);
        match parse_i32(&t) {
            Some(v) => {
                assert(item_value(gitems[k as int]) == Some(v));
                interval.push(v);
            },
            None => {
                assert(0 <= k < gitems.len() && item_value(gitems[k as int]) is None);
                return Err(ResponseError::MalformedResponse);
            },
        }
        k = k + 1;
    }
    let id: i32;
    match parse_i32(&fields[0]) {
        Some(v) => {
            id = v;
        },
        None => {
            return Err(ResponseError::MalformedResponse);
        },
    }
    let sent = fields.remove(3);
    let received = fields.remove(2);
    Ok(Assignment { caller_id: id, interval, server_received: received, server_sent: sent })
}

/// Round trip: a work assignment encoded for an integer caller id decodes
/// on the caller side without error, recovering the same caller id and the
/// same `(low, high)` pair exactly as integers; the two timestamps ride
/// along as opaque text (any nonempty ASCII text without a `|`) and come
/// back verbatim.
pub proof fn lemma_assignment_round_trip(
    id: i32,
    low: i32,
    high: i32,
    received: Seq<u8>,
    sent: Seq<u8>,
)
    requires
        stamp_ok(received),
        stamp_ok(sent),
    ensures
        ({
            let wire = assignment_wire(
                int_digits(id as int),
                low as int,
                high as int,
                received,
                sent,
            );
            let f = response_fields(wire);
            &&& valid_utf8(wire)
            &&& f.len() == 4
            &&& parse_i32_spec(f[0]) == Some(id)
            &&& interval_items(f[1]).len() == 2
            &&& item_value(interval_items(f[1])[0]) == Some(low)
            &&& item_value(interval_items(f[1])[1]) == Some(high)
            &&& f[2] == received
            &&& f[3] == sent
        }),
{
    let idb = int_digits(id as int);
    let lob = int_digits(low as int);
    let hib = int_digits(high as int);
    lemma_int_digits_byte_range(id as int);
    lemma_int_digits_byte_range(low as int);
    lemma_int_digits_byte_range(high as int);
    let mid = seq![91u8] + lob + seq![44u8, 32u8] + hib + seq![93u8];
    let wire = assignment_wire(idb, low as int, high as int, received, sent);
    let tail2 = received + seq![124u8] + sent;
    let tail1 = mid + seq![124u8] + tail2;
    assert(wire =~= idb + seq![124u8] + tail1);

    // Rendered integers hold only digits and a possible minus sign.
    assert forall|s: Seq<u8>| s == idb || s == lob || s == hib implies sep_free(s, 124)
        && sep_free(s, 44) && sep_free(s, 93) && all_ascii(s) by {
        assert forall|i: int| 0 <= i < s.len() implies (#[trigger] s[i]) != 124 && s[i] != 44
            && s[i] != 93 && s[i] < 128 by {
            assert(s[i] == 45 || is_dec_digit(s[i]));
        }
    }
    assert(sep_free(received, 124) && sep_free(sent, 124)) by {
        assert(forall|i: int| 0 <= i < received.len() ==> (#[trigger] received[i]) != 124);
        assert(forall|i: int| 0 <= i < sent.len() ==> (#[trigger] sent[i]) != 124);
    }

    // The response splits into exactly the four encoded fields.
    assert(sep_free(mid, 124)) by {
        lemma_sep_free_concat(seq![91u8], lob, 124);
        lemma_sep_free_concat(seq![91u8] + lob, seq![44u8, 32u8], 124);
        lemma_sep_free_concat(seq![91u8] + lob + seq![44u8, 32u8], hib, 124);
        lemma_sep_free_concat(seq![91u8] + lob + seq![44u8, 32u8] + hib, seq![93u8], 124);
    }
    lemma_split_append_sep(idb, tail1, 124);
    lemma_split_no_sep(idb, 124);
    lemma_split_append_sep(mid, tail2, 124);
    lemma_split_no_sep(mid, 124);
    lemma_split_append_sep(received, sent, 124);
    lemma_split_no_sep(received, 124);
    lemma_split_no_sep(sent, 124);
    let f = response_fields(wire);
    assert(f =~~= seq![idb, mid, received, sent]);

    // Every byte of the response is ASCII, so it is valid UTF-8 text.
    let s1 = seq![124u8, 91u8];
    let s2 = seq![44u8, 32u8];
    let s3 = seq![93u8, 124u8];
    let s4 = seq![124u8];
    assert(all_ascii(s1)) by {
        assert forall|i: int| 0 <= i < s1.len() implies (#[trigger] s1[i]) < 128 by {
            assert(s1[0] == 124 && s1[1] == 91);
        }
    }
    assert(all_ascii(s2)) by {
        assert forall|i: int| 0 <= i < s2.len() implies (#[trigger] s2[i]) < 128 by {
            assert(s2[0] == 44 && s2[1] == 32);
        }
    }
    assert(all_ascii(s3)) by {
        assert forall|i: int| 0 <= i < s3.len() implies (#[trigger] s3[i]) < 128 by {
            assert(s3[0] == 93 && s3[1] == 124);
        }
    }
    assert(all_ascii(s4)) by {
        assert forall|i: int| 0 <= i < s4.len() implies (#[trigger] s4[i]) < 128 by {
            assert(s4[0] == 124);
        }
    }
    assert(all_ascii(received) && all_ascii(sent)) by {
        assert(forall|i: int| 0 <= i < received.len() ==> (#[trigger] received[i]) < 128);
        assert(forall|i: int| 0 <= i < sent.len() ==> (#[trigger] sent[i]) < 128);
    }
    lemma_ascii_concat(idb, seq![124u8, 91u8]);
    lemma_ascii_concat(idb + seq![124u8, 91u8], lob);
    lemma_ascii_concat(idb + seq![124u8, 91u8] + lob, seq![44u8, 32u8]);
    lemma_ascii_concat(idb + seq![124u8, 91u8] + lob + seq![44u8, 32u8], hib);
    lemma_ascii_concat(idb + seq![124u8, 91u8] + lob + seq![44u8, 32u8] + hib, seq![
        93u8,
        124u8,
    ]);
    lemma_ascii_concat(
        idb + seq![124u8, 91u8] + lob + seq![44u8, 32u8] + hib + seq![93u8, 124u8],
        received,
    );
    lemma_ascii_concat(
        idb + seq![124u8, 91u8] + lob + seq![44u8, 32u8] + hib + seq![93u8, 124u8] + received,
        seq![124u8],
    );
    lemma_ascii_concat(
        idb + seq![124u8, 91u8] + lob + seq![44u8, 32u8] + hib + seq![93u8, 124u8] + received
            + seq![124u8],
        sent,
    );
    lemma_ascii_valid_utf8(wire);

    // The caller id field parses back to the id.
    lemma_parse_int_digits(id as int);

    // The range field strips to `low, high` and its two entries parse.
    let rest = lob + seq![44u8, 32u8] + hib + seq![93u8];
    assert(mid.len() > 0);
    assert(mid[0] == 91);
    assert(strip_leading(mid, 91) == strip_leading(mid.drop_first(), 91));
    assert(mid.drop_first() =~= rest);
    assert(rest[0] == lob[0]);
    assert(rest[0] != 91);
    assert(strip_leading(rest, 91) == rest);
    assert(strip_leading(mid, 91) == rest);
    let core = lob + seq![44u8, 32u8] + hib;
    assert(rest.len() == lob.len() + 2 + hib.len() + 1);
    assert(rest[rest.len() - 1] == 93);
    assert(strip_trailing(rest, 93) == strip_trailing(rest.drop_last(), 93));
    assert(rest.drop_last() =~= core);
    assert(core.len() > 0);
    assert(core[core.len() - 1] == hib[hib.len() - 1]);
    assert(core.last() == hib.last());
    assert(core.last() != 93 && !crate::wire::is_ascii_ws(core.last())) by {
        assert(is_dec_digit(hib.last()));
    }
    assert(strip_trailing(core, 93) == core);
    assert(strip_trailing(rest, 93) == core);
    let eh = seq![32u8] + hib;
    assert(core =~= lob + seq![44u8] + eh);
    lemma_split_append_sep(lob, eh, 44);
    lemma_split_no_sep(lob, 44);
    assert forall|i: int| 0 <= i < eh.len() implies (#[trigger] eh[i]) != 44 by {
        if i == 0 {
            assert(eh[i] == 32);
        } else {
            assert(eh[i] == hib[i - 1]);
            assert(hib[i - 1] == 45 || is_dec_digit(hib[i - 1]));
        }
    }
    lemma_split_no_sep(eh, 44);
    let items = interval_items(f[1]);
    assert(items =~~= seq![lob, eh]);

    // Entry one: the digits of `low`, no surrounding whitespace.
    assert(!crate::wire::is_ascii_ws(lob.last())) by {
        assert(is_dec_digit(lob.last()));
    }
    assert(strip_trailing_ws(lob) == lob);
    assert(!crate::wire::is_ascii_ws(lob.first()));
    assert(strip_leading_ws(lob) == lob);
    assert(trim_ws(lob) == lob);
    lemma_parse_int_digits(low as int);

    // Entry two: one leading space, then the digits of `high`.
    assert(eh.last() == hib.last());
    assert(!crate::wire::is_ascii_ws(eh.last()));
    assert(strip_trailing_ws(eh) == eh);
    assert(eh.first() == 32);
    assert(eh.drop_first() =~= hib);
    assert(!crate::wire::is_ascii_ws(hib.first()));
    assert(strip_leading_ws(hib) == hib);
    assert(strip_leading_ws(eh) == hib);
    assert(trim_ws(eh) == hib);
    lemma_parse_int_digits(high as int);
}

} // verus!

