use aster::join::{
    join_request, read_reply, Code, JoinError, JoinProtocol, Response, Verdict, CODE_TTL,
    EXPIRES_SOON_THRESHOLD, OLD_THRESHOLD,
};
use aster::join_code::{make_join_code, parse_join_bytes, parse_join_code, JoinCodeError};
use aster::key::SecretKey;
use aster::time::{Stopwatch, LONGEST, SECOND};
use base64::Engine;

#[test]
fn thresholds_are_in_seconds() {
    assert_eq!(CODE_TTL, 120 * SECOND);
    assert_eq!(EXPIRES_SOON_THRESHOLD, 60 * SECOND);
    assert_eq!(OLD_THRESHOLD, 600 * SECOND);
    assert_eq!(SECOND, 1_000_000_000);
    assert_eq!(LONGEST, std::time::Duration::MAX.as_nanos());
}

#[test]
fn code_ages() {
    let code = Code::new(7, 5 * SECOND);
    assert_eq!(
        code,
        Code { code: 7, expires_at: 125 * SECOND, used: false }
    );
    assert!(!code.expires_soon(65 * SECOND - 1));
    assert!(code.expires_soon(65 * SECOND));
    assert!(!code.is_expired(125 * SECOND - 1));
    assert!(code.is_expired(125 * SECOND));
    assert!(code.expires_soon(125 * SECOND));
    assert!(!code.is_old(725 * SECOND - 1));
    assert!(code.is_old(725 * SECOND));
}

#[test]
fn code_is_handed_out_until_it_expires_soon() {
    let mut join = JoinProtocol::new();
    assert_eq!(join.get_code_at(0, 11), 11);
    assert_eq!(join.get_code_at(60 * SECOND - 1, 22), 11);
    assert_eq!(join.get_code_at(60 * SECOND, 22), 22);
    assert_eq!(join.get_code_at(60 * SECOND, 33), 22);
}

#[test]
fn code_lets_one_node_join() {
    let mut join = JoinProtocol::new();
    let code = join.get_code_at(0, 11);
    let request = join_request(code);
    assert_eq!(join.accept_at(&request, 60 * SECOND), Verdict::Joined(11));
    assert_eq!(join.accept_at(&request, 60 * SECOND), Verdict::Used(11));
    assert_eq!(join.accept_at(&request, 500 * SECOND), Verdict::Used(11));
    assert_eq!(join.get_code_at(60 * SECOND - 1, 22), 22);
}

#[test]
fn expired_and_unknown_codes_are_refused() {
    let mut join = JoinProtocol::new();
    let code = join.get_code_at(0, 11);
    let request = join_request(code);
    assert_eq!(join.accept_at(&join_request(12), 0), Verdict::Unknown);
    assert_eq!(join.accept_at(&request, 120 * SECOND), Verdict::Expired(11));
    assert_eq!(join.accept_at(&request, 120 * SECOND - 1), Verdict::Joined(11));
    assert_eq!(join.accept_at(&[1, 2, 3], 0), Verdict::Malformed);
    assert_eq!(join.accept_at(&[], 0), Verdict::Malformed);
}

#[test]
fn old_codes_are_forgotten() {
    let mut join = JoinProtocol::new();
    let request = join_request(join.get_code_at(0, 11));
    join.gc_codes(720 * SECOND - 1);
    assert_eq!(join.accept_at(&request, 720 * SECOND - 1), Verdict::Expired(11));
    join.gc_codes(720 * SECOND);
    assert_eq!(join.accept_at(&request, 720 * SECOND), Verdict::Unknown);
}

#[test]
fn fresh_code_joins_now() {
    let mut join = JoinProtocol::new();
    let code = join.get_code();
    assert_eq!(join.get_code(), code);
    assert_eq!(join.accept(&join_request(code)), Verdict::Joined(code));
    assert_eq!(join.accept(&join_request(code)), Verdict::Used(code));
    assert_ne!(join.get_code(), code);
    assert_ne!(JoinProtocol::new().get_code(), code);
}

#[test]
fn stopwatch_counts_up() {
    let stopwatch = Stopwatch::new();
    let first = stopwatch.elapsed();
    let mut second = stopwatch.elapsed();
    while second == first {
        second = stopwatch.elapsed();
    }
    assert!(first < second);
    assert!(second < 20 * SECOND);
}

#[test]
fn verdicts_are_answered() {
    assert_eq!(Verdict::Joined(1).response(), Response::Success);
    assert_eq!(Verdict::Malformed.response(), Response::ErrorInvalid);
    assert_eq!(Verdict::Unknown.response(), Response::ErrorInvalid);
    assert_eq!(Verdict::Expired(1).response(), Response::ErrorExpired);
    assert_eq!(Verdict::Used(1).response(), Response::ErrorUsed);
    assert!(Verdict::Joined(1).joins());
    assert!(!Verdict::Used(1).joins());
}

#[test]
fn answers_are_bytes() {
    assert_eq!(Response::Success.to_byte(), 0);
    assert_eq!(Response::ErrorInvalid.to_byte(), 1);
    assert_eq!(Response::ErrorExpired.to_byte(), 2);
    assert_eq!(Response::ErrorUsed.to_byte(), 3);
    assert_eq!(Response::try_from(0), Ok(Response::Success));
    assert_eq!(Response::try_from(1), Ok(Response::ErrorInvalid));
    assert_eq!(Response::try_from(2), Ok(Response::ErrorInvalid));
    assert_eq!(Response::try_from(3), Ok(Response::ErrorUsed));
    assert_eq!(Response::try_from(4), Err(JoinError::UnknownReply));
}

#[test]
fn replies_are_read() {
    assert_eq!(read_reply(&[0]), Ok(()));
    assert_eq!(read_reply(&[1]), Err(JoinError::Invalid));
    assert_eq!(read_reply(&[2]), Err(JoinError::Invalid));
    assert_eq!(read_reply(&[3]), Err(JoinError::Used));
    assert_eq!(read_reply(&[9]), Err(JoinError::UnknownReply));
    assert_eq!(read_reply(&[]), Err(JoinError::UnexpectedReply));
    assert_eq!(read_reply(&[0, 0]), Err(JoinError::UnexpectedReply));
}

#[test]
fn join_errors_are_told() {
    assert_eq!(
        JoinError::UnexpectedReply.message(),
        "unexpected response from join protocol"
    );
    assert_eq!(JoinError::UnknownReply.message(), "failed to parse join response");
    assert_eq!(JoinError::Invalid.message(), "code is invalid");
    assert_eq!(JoinError::Expired.message(), "code is expired");
    assert_eq!(JoinError::Used.message(), "code was already used");
}

#[test]
fn join_protocol_has_a_name() {
    assert_eq!(JoinProtocol::alpn().as_bytes(), b"aster/join/0");
}

#[test]
fn requests_are_big_endian() {
    assert_eq!(join_request(0x0102_0304_0506_0708), [1, 2, 3, 4, 5, 6, 7, 8]);
    assert_eq!(join_request(u64::MAX), u64::MAX.to_be_bytes());
}

#[test]
fn join_code_is_base64_of_node_and_code() {
    let node = SecretKey::from_bytes(&[1; 32]).public();
    let text = make_join_code(node, 0x0102_0304_0506_0708);
    let mut bytes = node.bytes.to_vec();
    bytes.extend([1, 2, 3, 4, 5, 6, 7, 8]);
    assert_eq!(text, base64::prelude::BASE64_STANDARD_NO_PAD.encode(&bytes));
    assert_eq!(text.len(), 54);
    assert_eq!(parse_join_code(&text), Ok((node, 0x0102_0304_0506_0708)));
    assert_eq!(parse_join_bytes(&bytes), Ok((node, 0x0102_0304_0506_0708)));
}

#[test]
fn join_codes_that_are_none_are_refused() {
    let error = parse_join_code("not base64!").unwrap_err();
    assert_eq!(
        error,
        JoinCodeError::Undecodable("Invalid symbol 32, offset 3.".to_string())
    );
    let outside = base64::prelude::BASE64_STANDARD_NO_PAD.decode("not base64!").unwrap_err();
    assert_eq!(
        error.message(),
        format!("{:#}", anyhow::Error::new(outside).context("failed to decode join code"))
    );

    assert_eq!(parse_join_code("AAAA"), Err(JoinCodeError::WrongLength));
    assert_eq!(parse_join_code(""), Err(JoinCodeError::WrongLength));
    assert_eq!(JoinCodeError::WrongLength.message(), "wrong length for join code");

    let mut no_point = None;
    for n in 0..=255u8 {
        let mut bytes = [0u8; 32];
        bytes[0] = n;
        if let Err(e) = iroh_base::PublicKey::from_bytes(&bytes) {
            no_point = Some((bytes, e));
        }
    }
    let (bytes, outside) = no_point.unwrap();
    let mut bytes = bytes.to_vec();
    bytes.extend([0; 8]);
    let told = format!("{:#}", anyhow::Error::new(outside).context("failed to parse join code"));
    let error = parse_join_bytes(&bytes).unwrap_err();
    assert!(matches!(error, JoinCodeError::NotANode(_)));
    assert_eq!(error.message(), told);
    let text = base64::prelude::BASE64_STANDARD_NO_PAD.encode(&bytes);
    assert_eq!(parse_join_code(&text), Err(error));
}
