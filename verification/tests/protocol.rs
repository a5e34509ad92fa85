use pi_dispatch::caller::{encode_request, request_ids};
use pi_dispatch::codec::{
    decode_assignment, decode_request, encode_assignment, Request, RequestError, ResponseError,
};
use pi_dispatch::server::handle_request;
use pi_dispatch::wire::parse_i32;

fn decode(bytes: &[u8]) -> Result<Request, RequestError> {
    decode_request(&bytes.to_vec())
}

fn handle(bytes: &[u8], received: &[u8]) -> Vec<u8> {
    handle_request(&bytes.to_vec(), &received.to_vec())
}

#[test]
fn single_field_is_malformed() {
    assert!(matches!(decode(b"5"), Err(RequestError::MalformedRequest)));
}

#[test]
fn unknown_kind_is_rejected() {
    assert!(matches!(
        decode(b"5,bogus"),
        Err(RequestError::UnknownRequestKind)
    ));
}

#[test]
fn malformed_request_response_text() {
    assert_eq!(handle(b"5", b"t0"), b"Invalid request format".to_vec());
}

#[test]
fn unknown_kind_response_text() {
    assert_eq!(handle(b"5,bogus", b"t0"), b"Invalid request type".to_vec());
}

#[test]
fn invalid_utf8_response_text() {
    assert_eq!(
        handle(&[0xff, 0xfe, 0x35], b"t0"),
        b"Invalid UTF-8 sequence".to_vec()
    );
}

#[test]
fn result_report_acknowledged_twice_identically() {
    let first = handle(b"5,result,3.14", b"t0");
    let second = handle(b"5,result,3.14", b"t1");
    assert!(first.is_empty());
    assert!(second.is_empty());
    assert_eq!(first, second);
}

#[test]
fn work_request_decodes_with_padding_stripped() {
    match decode(b"7,interval\n\0\0\0") {
        Ok(Request::WorkRequest { caller_id }) => assert_eq!(caller_id, b"7".to_vec()),
        other => panic!("expected a work request, got {:?}", other),
    }
}

#[test]
fn result_report_decodes_all_fields() {
    match decode(b"9,result,2.5") {
        Ok(Request::ResultReport {
            caller_id,
            computed_value,
        }) => {
            assert_eq!(caller_id, b"9".to_vec());
            assert_eq!(computed_value, b"2.5".to_vec());
        }
        other => panic!("expected a result report, got {:?}", other),
    }
}

#[test]
fn result_without_value_is_malformed() {
    assert!(matches!(
        decode(b"5,result"),
        Err(RequestError::MalformedRequest)
    ));
    assert_eq!(handle(b"5,result", b"t0"), b"Invalid request format".to_vec());
}

#[test]
fn work_request_gets_wellformed_assignment() {
    let resp = handle(b"5,interval", b"stamp0");
    assert!(resp.len() <= 256);
    let decoded = decode_assignment(&resp).expect("server responses are well-formed");
    assert_eq!(decoded.caller_id, 5);
    assert_eq!(decoded.interval.len(), 2);
    let low = decoded.interval[0];
    let high = decoded.interval[1];
    assert!(10 <= low && low <= high && high <= 100);
    assert_eq!(decoded.server_received, b"stamp0".to_vec());
}

#[test]
fn assignment_encoding_is_literal() {
    let wire = encode_assignment(&b"7".to_vec(), 10, 12, &b"t1".to_vec(), &b"t2".to_vec());
    assert_eq!(wire, b"7|[10, 12]|t1|t2".to_vec());
}

#[test]
fn assignment_round_trip_recovers_id_and_range() {
    let wire = encode_assignment(&b"7".to_vec(), 10, 12, &b"t1".to_vec(), &b"t2".to_vec());
    let decoded = decode_assignment(&wire).expect("encoded assignments are well-formed");
    assert_eq!(decoded.caller_id, 7);
    assert_eq!(decoded.interval, vec![10, 12]);
    assert_eq!(decoded.server_received, b"t1".to_vec());
    assert_eq!(decoded.server_sent, b"t2".to_vec());
}

#[test]
fn response_with_wrong_field_count_is_malformed() {
    let r = decode_assignment(&b"7|[10, 12]|t1".to_vec());
    assert_eq!(
        r.map(|_| ()).expect_err("three fields cannot decode"),
        ResponseError::MalformedResponse
    );
}

#[test]
fn response_with_invalid_utf8_is_rejected() {
    let r = decode_assignment(&vec![0xffu8, 0x7c, 0x35]);
    assert_eq!(
        r.map(|_| ()).expect_err("invalid text cannot decode"),
        ResponseError::InvalidUtf8
    );
}

#[test]
fn response_with_numeric_garbage_is_malformed() {
    let bad_id = decode_assignment(&b"x|[10, 12]|t1|t2".to_vec());
    assert_eq!(
        bad_id.map(|_| ()).expect_err("a non-integer id cannot decode"),
        ResponseError::MalformedResponse
    );
    let bad_entry = decode_assignment(&b"7|[1x, 12]|t1|t2".to_vec());
    assert_eq!(
        bad_entry
            .map(|_| ())
            .expect_err("a non-integer range entry cannot decode"),
        ResponseError::MalformedResponse
    );
}

#[test]
fn parse_i32_accepts_exactly_what_std_does() {
    assert_eq!(parse_i32(&b"42".to_vec()), Some(42));
    assert_eq!(parse_i32(&b"+7".to_vec()), Some(7));
    assert_eq!(parse_i32(&b"-13".to_vec()), Some(-13));
    assert_eq!(parse_i32(&b"007".to_vec()), Some(7));
    assert_eq!(parse_i32(&b"2147483647".to_vec()), Some(2147483647));
    assert_eq!(parse_i32(&b"2147483648".to_vec()), None);
    assert_eq!(parse_i32(&b"-2147483648".to_vec()), Some(-2147483648));
    assert_eq!(parse_i32(&b"-2147483649".to_vec()), None);
    assert_eq!(parse_i32(&b"".to_vec()), None);
    assert_eq!(parse_i32(&b"-".to_vec()), None);
    assert_eq!(parse_i32(&b"1a".to_vec()), None);
    assert_eq!(parse_i32(&b"5 ".to_vec()), None);
}

#[test]
fn batch_of_two_makes_three_requests() {
    assert_eq!(request_ids(2), vec![0, 1, 2]);
}

#[test]
fn negative_batch_makes_no_requests() {
    assert!(request_ids(-1).is_empty());
}

#[test]
fn request_framing_is_literal() {
    let kind = b"interval".to_vec();
    assert_eq!(encode_request(0, &kind), b"0,interval".to_vec());
    assert_eq!(encode_request(12, &kind), b"12,interval".to_vec());
}
