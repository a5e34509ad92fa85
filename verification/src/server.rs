//! The per-connection request handler: decode one request, act on it, and
//! produce the exact response bytes to write back.  Socket reads and writes
//! stay outside the library; the handler is given the raw bytes read and
//! the timestamp text captured when the connection arrived.

use vstd::prelude::*;
use vstd::utf8::valid_utf8;

use crate::codec::{
    assignment_wire, decode_request, encode_assignment, interval_items, interval_kind,
    item_value, lemma_assignment_round_trip, request_fields, response_fields, result_kind,
    stamp_ok, work_request_line, Request, RequestError,
};
use crate::range::generate_interval;
use crate::wire::{
    all_ascii, dec_digits, int_digits, is_dec_digit, lemma_ascii_concat,
    lemma_ascii_valid_utf8, lemma_dec_digits_len, lemma_int_digits_byte_range,
    lemma_int_digits_len, lemma_split_append_sep, lemma_split_no_sep, parse_i32_spec, pow10,
    sep_free, strip_trailing,
};

verus! {

/// The fixed response to bytes that are not valid UTF-8.
pub open spec fn utf8_error_text() -> Seq<u8> {
    seq![
        73u8, 110u8, 118u8, 97u8, 108u8, 105u8, 100u8, 32u8, 85u8, 84u8, 70u8, 45u8, 56u8,
        32u8, 115u8, 101u8, 113u8, 117u8, 101u8, 110u8, 99u8, 101u8,
    ]
}

/// The fixed response to a request with fewer than two fields, or to a
/// result report missing its value field.
pub open spec fn format_error_text() -> Seq<u8> {
    seq![
        73u8, 110u8, 118u8, 97u8, 108u8, 105u8, 100u8, 32u8, 114u8, 101u8, 113u8, 117u8,
        101u8, 115u8, 116u8, 32u8, 102u8, 111u8, 114u8, 109u8, 97u8, 116u8,
    ]
}

/// The fixed response to an unrecognized request kind.
pub open spec fn type_error_text() -> Seq<u8> {
    seq![
        73u8, 110u8, 118u8, 97u8, 108u8, 105u8, 100u8, 32u8, 114u8, 101u8, 113u8, 117u8,
        101u8, 115u8, 116u8, 32u8, 116u8, 121u8, 112u8, 101u8,
    ]
}

/// The bytes of `Invalid UTF-8 sequence`.
pub fn utf8_error_bytes() -> (r: Vec<u8>)
    ensures
        r@ == utf8_error_text(),
{
    let mut r: Vec<u8> = Vec::new();
    r.push(73);
    r.push(110);
    r.push(118);
    r.push(97);
    r.push(108);
    r.push(105);
    r.push(100);
    r.push(32);
    r.push(85);
    r.push(84);
    r.push(70);
    r.push(45);
    r.push(56);
    r.push(32);
    r.push(115);
    r.push(101);
    r.push(113);
    r.push(117);
    r.push(101);
    r.push(110);
    r.push(99);
    r.push(101);
    assert(r@ =~= utf8_error_text());
    r
}

/// The bytes of `Invalid request format`.
pub fn format_error_bytes() -> (r: Vec<u8>)
    ensures
        r@ == format_error_text(),
{
    let mut r: Vec<u8> = Vec::new();
    r.push(73);
    r.push(110);
    r.push(118);
    r.push(97);
    r.push(108);
    r.push(105);
    r.push(100);
    r.push(32);
    r.push(114);
    r.push(101);
    r.push(113);
    r.push(117);
    r.push(101);
    r.push(115);
    r.push(116);
    r.push(32);
    r.push(102);
    r.push(111);
    r.push(114);
    r.push(109);
    r.push(97);
    r.push(116);
    assert(r@ =~= format_error_text());
    r
}

/// The bytes of `Invalid request type`.
pub fn type_error_bytes() -> (r: Vec<u8>)
    ensures
        r@ == type_error_text(),
{
    let mut r: Vec<u8> = Vec::new();
    r.push(73);
    r.push(110);
    r.push(118);
    r.push(97);
    r.push(108);
    r.push(105);
    r.push(100);
    r.push(32);
    r.push(114);
    r.push(101);
    r.push(113);
    r.push(117);
    r.push(101);
    r.push(115);
    r.push(116);
    r.push(32);
    r.push(116);
    r.push(121);
    r.push(112);
    r.push(101);
    assert(r@ =~= type_error_text());
    r
}

/// Relies on `chrono::Local::now` rendered through `Display`, which writes
/// the date, the time and the numeric offset using only ASCII digits and
/// the punctuation `- + : .` and spaces: nonempty, never a `|`, and at most
/// 64 bytes (date at most 13, time at most 18, offset at most 9, two
/// separating spaces).
#[verifier::external_body]
fn now_stamp() -> (r: Vec<u8>)
    ensures
        stamp_ok(r@),
        r@.len() <= 64,
{
    chrono::Local::now().to_string().into_bytes()
}

/// Exactly what the handler owes: the response bytes for each class of
/// request.  A work request is answered with a fresh range and a fresh
/// sent-timestamp, both existentially fixed here and pinned down no further
/// (the range is random, the timestamp is the clock's); the timestamp is
/// stamp-shaped and at most 64 bytes, which keeps the response within the
/// fixed read buffer (see [`lemma_response_fits_buffer`]).
pub open spec fn response_for(buf: Seq<u8>, received: Seq<u8>, resp: Seq<u8>) -> bool {
    let f = request_fields(buf);
    &&& (!valid_utf8(buf) ==> resp == utf8_error_text())
    &&& (valid_utf8(buf) && (f.len() <= 1 || (f.len() == 2 && f[1] == result_kind())) ==> resp
        == format_error_text())
    &&& (valid_utf8(buf) && f.len() >= 2 && f[1] == interval_kind() ==> exists|
        low: int,
        high: int,
        sent: Seq<u8>,
    |
        10 <= low <= high <= 100 && stamp_ok(sent) && sent.len() <= 64 && resp
            == #[trigger] assignment_wire(f[0], low, high, received, sent))
    &&& (valid_utf8(buf) && f.len() >= 3 && f[1] == result_kind() ==> resp
        == Seq::<u8>::empty())
    &&& (valid_utf8(buf) && f.len() >= 2 && f[1] != interval_kind() && f[1] != result_kind()
        ==> resp == type_error_text())
}

/// Handle one connection's request: decode, act, encode.  `buf` is the raw
/// bytes read (including any NUL padding), `received` the timestamp text
/// the server captured for this connection.  Total: every input, however
/// malformed, gets a response, and neither the server nor its worker pool
/// is ever brought down by one.
pub fn handle_request(buf: &Vec<u8>, received: &Vec<u8>) -> (resp: Vec<u8>)
    ensures
        response_for(buf@, received@, resp@),
{
    proof {
        assert(interval_kind().len() != result_kind().len());
    }
    match decode_request(buf) {
        Ok(Request::WorkRequest { caller_id }) => {
            let range = generate_interval();
            let sent = now_stamp();
            let resp = encode_assignment(&caller_id, range.low, range.high, received, &sent);
            proof {
                let f = request_fields(buf@);
                assert(10 <= range.low as int <= range.high as int <= 100 && stamp_ok(sent@)
                    && resp@ == assignment_wire(
                    f[0],
                    range.low as int,
                    range.high as int,
                    received@,
                    sent@,
                ));
            }
            resp
        },
        Ok(Request::ResultReport { caller_id: _, computed_value: _ }) => {
            let resp: Vec<u8> = Vec::new();
            assert(resp@ =~= Seq::<u8>::empty());
            resp
        },
        Err(RequestError::InvalidUtf8) => utf8_error_bytes(),
        Err(RequestError::MalformedRequest) => format_error_bytes(),
        Err(RequestError::UnknownRequestKind) => type_error_bytes(),
    }
}

/// The caller-side reading of a response: its range field holds exactly the
/// in-bounds pair `(low, high)`.
pub open spec fn assigned_pair(resp: Seq<u8>, low: i32, high: i32) -> bool {
    &&& 10 <= low <= high <= 100
    &&& interval_items(response_fields(resp)[1]).len() == 2
    &&& item_value(interval_items(response_fields(resp)[1])[0]) == Some(low)
    &&& item_value(interval_items(response_fields(resp)[1])[1]) == Some(high)
}

/// One full protocol cycle, stated over the wire bytes alone: whatever the
/// coordinator answers to the work-request line framed for integer caller
/// id `id` decodes on the caller side without error, recovering that same
/// id, some well-formed range, and the received-timestamp verbatim; and
/// when the received-timestamp is stamp-sized, the whole response fits the
/// fixed 256-byte read buffer both ends use.
pub proof fn lemma_work_request_cycle(id: i32, received: Seq<u8>, resp: Seq<u8>)
    requires
        stamp_ok(received),
        response_for(work_request_line(id as int), received, resp),
    ensures
        valid_utf8(resp),
        response_fields(resp).len() == 4,
        parse_i32_spec(response_fields(resp)[0]) == Some(id),
        exists|low: i32, high: i32| #[trigger] assigned_pair(resp, low, high),
        response_fields(resp)[2] == received,
        received.len() <= 64 ==> resp.len() <= 256,
{
    let buf = work_request_line(id as int);
    let idb = int_digits(id as int);
    let kindb = interval_kind();
    lemma_int_digits_byte_range(id as int);

    // The framed line carries no trailing padding and splits into exactly
    // the id field and the kind field.
    assert(buf.len() == idb.len() + 1 + 8);
    assert(buf[buf.len() - 1] == kindb[7]);
    assert(buf[buf.len() - 1] == 108);
    assert(strip_trailing(buf, 0) == buf);
    assert(strip_trailing(buf, 10) == buf);
    assert forall|i: int| 0 <= i < idb.len() implies (#[trigger] idb[i]) != 44 && idb[i]
        < 128 by {
        assert(idb[i] == 45 || is_dec_digit(idb[i]));
    }
    assert(sep_free(idb, 44));
    assert(all_ascii(idb));
    assert forall|i: int| 0 <= i < kindb.len() implies (#[trigger] kindb[i]) != 44 && kindb[i]
        < 128 by {
        assert(kindb[0] == 105 && kindb[1] == 110 && kindb[2] == 116 && kindb[3] == 101
            && kindb[4] == 114 && kindb[5] == 118 && kindb[6] == 97 && kindb[7] == 108);
    }
    assert(sep_free(kindb, 44));
    assert(all_ascii(kindb));
    assert(buf =~= idb + seq![44u8] + kindb);
    lemma_split_append_sep(idb, kindb, 44);
    lemma_split_no_sep(idb, 44);
    lemma_split_no_sep(kindb, 44);
    let f = request_fields(buf);
    assert(f =~~= seq![idb, kindb]);

    // The framed line is ASCII, hence valid UTF-8, so the handler's
    // work-request clause is the one that describes `resp`.
    let s4 = seq![44u8];
    assert(all_ascii(s4)) by {
        assert(forall|i: int| 0 <= i < 1 ==> (#[trigger] s4[i]) == 44);
    }
    lemma_ascii_concat(idb, s4);
    lemma_ascii_concat(idb + s4, kindb);
    lemma_ascii_valid_utf8(buf);
    assert(valid_utf8(buf) && f.len() == 2 && f[1] == interval_kind());

    let (low, high, sent): (int, int, Seq<u8>) = choose|low: int, high: int, sent: Seq<u8>|
        10 <= low <= high <= 100 && stamp_ok(sent) && sent.len() <= 64 && resp
            == #[trigger] assignment_wire(f[0], low, high, received, sent);
    assert(f[0] == idb);
    assert((low as i32) as int == low && (high as i32) as int == high);
    lemma_assignment_round_trip(id, low as i32, high as i32, received, sent);
    assert(assigned_pair(resp, low as i32, high as i32));

    // The budget: an i32 id renders in at most 11 bytes, the two range
    // bounds in at most 3 each, and both timestamps are at most 64.
    assert(pow10(0) == 1);
    assert(pow10(1) == 10);
    assert(pow10(2) == 100);
    assert(pow10(3) == 1000);
    assert(pow10(4) == 10000);
    assert(pow10(5) == 100000);
    assert(pow10(6) == 1000000);
    assert(pow10(7) == 10000000);
    assert(pow10(8) == 100000000);
    assert(pow10(9) == 1000000000);
    assert(pow10(10) == 10000000000);
    lemma_int_digits_len(id as int, 10);
    assert(int_digits(low) == dec_digits(low as nat));
    assert(int_digits(high) == dec_digits(high as nat));
    lemma_dec_digits_len(low as nat, 3);
    lemma_dec_digits_len(high as nat, 3);
    assert(resp.len() == idb.len() + 2 + int_digits(low).len() + 2 + int_digits(high).len()
        + 2 + received.len() + 1 + sent.len());
}

/// Every response fits the fixed 256-byte read buffer both ends use, as
/// long as the echoed caller-id field is at most 115 bytes and the
/// received-timestamp is stamp-sized: the error texts are short, the
/// acknowledgement is empty, and a work assignment adds at most 141 bytes
/// of framing, range digits and timestamps around the echoed id.
pub proof fn lemma_response_fits_buffer(buf: Seq<u8>, received: Seq<u8>, resp: Seq<u8>)
    requires
        response_for(buf, received, resp),
        received.len() <= 64,
        request_fields(buf).len() >= 2 ==> request_fields(buf)[0].len() <= 115,
    ensures
        resp.len() <= 256,
{
    let f = request_fields(buf);
    if !valid_utf8(buf) {
        assert(resp == utf8_error_text());
    } else if f.len() <= 1 || (f.len() == 2 && f[1] == result_kind()) {
        assert(resp == format_error_text());
    } else if f[1] == interval_kind() {
        let (low, high, sent): (int, int, Seq<u8>) = choose|
            low: int,
            high: int,
            sent: Seq<u8>,
        |
            10 <= low <= high <= 100 && stamp_ok(sent) && sent.len() <= 64 && resp
                == #[trigger] assignment_wire(f[0], low, high, received, sent);
        assert(pow10(0) == 1);
        assert(pow10(1) == 10);
        assert(pow10(2) == 100);
        assert(pow10(3) == 1000);
        assert(int_digits(low) == dec_digits(low as nat));
        assert(int_digits(high) == dec_digits(high as nat));
        lemma_dec_digits_len(low as nat, 3);
        lemma_dec_digits_len(high as nat, 3);
        assert(resp.len() == f[0].len() + 2 + int_digits(low).len() + 2 + int_digits(
            high,
        ).len() + 2 + received.len() + 1 + sent.len());
    } else if f[1] == result_kind() {
        assert(f.len() >= 3);
        assert(resp == Seq::<u8>::empty());
    } else {
        assert(resp == type_error_text());
    }
}

/// Reporting a result is a no-op with no acknowledgement payload: the
/// handler keeps no state between connections, so the same report, handled
/// any number of times and whatever timestamps accompany it, is answered
/// each time by the same independent empty acknowledgement.
pub proof fn lemma_result_report_idempotent(
    buf: Seq<u8>,
    received1: Seq<u8>,
    received2: Seq<u8>,
    resp1: Seq<u8>,
    resp2: Seq<u8>,
)
    requires
        valid_utf8(buf),
        request_fields(buf).len() >= 3,
        request_fields(buf)[1] == result_kind(),
        response_for(buf, received1, resp1),
        response_for(buf, received2, resp2),
    ensures
        resp1 == Seq::<u8>::empty(),
        resp2 == Seq::<u8>::empty(),
        resp1 == resp2,
{
}

/// No connection influences any other: what the coordinator owes for one
/// request is a predicate of that request's own bytes and timestamp alone,
/// so a batch of handled connections is acceptable exactly when each one is
/// acceptable on its own — in particular, result reports leave nothing
/// behind that any later response could depend on.
pub open spec fn batch_ok(requests: Seq<(Seq<u8>, Seq<u8>, Seq<u8>)>) -> bool {
    forall|i: int|
        0 <= i < requests.len() ==> #[trigger] response_for(
            requests[i].0,
            requests[i].1,
            requests[i].2,
        )
}

/// Dropping any one handled connection from a batch leaves an acceptable
/// batch: there is no server-side state through which it could have
/// affected the rest.
pub proof fn lemma_connections_independent(requests: Seq<(Seq<u8>, Seq<u8>, Seq<u8>)>, i: int)
    requires
        batch_ok(requests),
        0 <= i < requests.len(),
    ensures
        batch_ok(requests.remove(i)),
{
    let shorter = requests.remove(i);
    assert forall|j: int| 0 <= j < shorter.len() implies #[trigger] response_for(
        shorter[j].0,
        shorter[j].1,
        shorter[j].2,
    ) by {
        if j < i {
            assert(shorter[j] == requests[j]);
        } else {
            assert(shorter[j] == requests[j + 1]);
        }
    }
}

} // verus!
