use aster::bytes::{u32_from_bytes, u32_to_bytes, u64_from_bytes, u64_to_bytes};
use aster::key::SecretKey;
use aster::stream::{select_part, serve, InitRequest, InitResponse, ProtocolStream};

#[test]
fn numbers_are_written_big_endian() {
    assert_eq!(u32_to_bytes(0x0102_0304), [1, 2, 3, 4]);
    assert_eq!(u32_from_bytes(&[1, 2, 3, 4]), 0x0102_0304);
    assert_eq!(u64_to_bytes(0x0102_0304_0506_0708), [1, 2, 3, 4, 5, 6, 7, 8]);
    assert_eq!(u64_from_bytes(&[1, 2, 3, 4, 5, 6, 7, 8]), 0x0102_0304_0506_0708);
    for n in [0, 1, 255, 256, u64::MAX] {
        assert_eq!(u64_to_bytes(n), n.to_be_bytes());
        assert_eq!(u64_from_bytes(&n.to_be_bytes()), n);
    }
}

#[test]
fn init_request_is_framed() {
    let request = InitRequest { file_hash: 1, start: 300, end: None };
    assert_eq!(request.to_frame(), vec![0, 0, 0, 4, 1, 0xac, 2, 0]);
    let request = InitRequest { file_hash: u64::MAX, start: u64::MAX, end: Some(u64::MAX) };
    let frame = request.to_frame();
    assert_eq!(frame.len(), 35);
    assert_eq!(u32_from_bytes(&frame[0..4]), 31);
    let body = postcard::to_stdvec(&(u64::MAX, u64::MAX, Some(u64::MAX))).unwrap();
    assert_eq!(&frame[4..], &body[..]);
}

#[test]
fn init_request_is_read_back() {
    for end in [None, Some(0), Some(77184)] {
        let request = InitRequest { file_hash: 9, start: 128, end };
        assert_eq!(InitRequest::from_body(&request.to_frame()[4..]), Ok(request));
    }
    assert_eq!(
        InitRequest::from_body(&[]),
        Err("Hit the end of buffer, expected more data".to_string())
    );
    assert_eq!(
        InitRequest::from_body(&[1, 2, 7]),
        Err("Found an Option discriminant that wasn't 0 or 1".to_string())
    );
}

#[test]
fn init_response_is_framed_and_read_back() {
    let response = InitResponse { content_length: 77184 };
    let frame = response.to_frame();
    assert_eq!(frame, vec![0, 0, 0, 3, 0x80, 0xdb, 4]);
    assert_eq!(InitResponse::from_body(&frame[4..]), Ok(response));
    assert_eq!(
        InitResponse::from_body(&[0x80]),
        Err("Hit the end of buffer, expected more data".to_string())
    );
}

#[test]
fn requested_part_is_served() {
    let content = [10u8, 11, 12, 13, 14];
    let ask = |start, end| InitRequest { file_hash: 0, start, end };
    let reply = serve(&ask(0, None), &content);
    assert_eq!(reply.0, InitResponse { content_length: 5 });
    assert_eq!(reply.1, Some(&content[..]));
    assert_eq!(serve(&ask(2, None), &content).1, Some(&content[2..]));
    assert_eq!(serve(&ask(1, Some(3)), &content).1, Some(&content[1..3]));
    assert_eq!(serve(&ask(3, Some(100)), &content).1, Some(&content[3..]));
    assert_eq!(serve(&ask(7, Some(9)), &content).1, Some(&content[5..]));
    assert_eq!(serve(&ask(3, Some(2)), &content).1, None);
    assert_eq!(serve(&ask(6, None), &content).1, None);
    assert_eq!(ask(1, Some(3)).range(5), Some((1, 3)));
    assert_eq!(ask(1, None).range(5), Some((1, 5)));
    assert_eq!(ask(6, None).range(5), None);
}

#[test]
fn parts_adjoin() {
    let content: Vec<u8> = (0..100).collect();
    for middle in [0u64, 1, 50, 99, 100] {
        let mut both = select_part(&content, 0, middle).to_vec();
        both.extend_from_slice(select_part(&content, middle, 100));
        assert_eq!(both, content);
    }
}

#[test]
fn seeking_reopens_or_ends() {
    let peer = SecretKey::from_bytes(&[1; 32]).public();
    assert_eq!(
        ProtocolStream::create_request(9),
        InitRequest { file_hash: 9, start: 0, end: None }
    );
    let stream = ProtocolStream::create(peer, 9, InitResponse { content_length: 100 });
    assert_eq!(stream.peer_id, peer);
    assert_eq!(stream.content_length(), Some(100));
    assert!(stream.supports_seek());
    assert_eq!(
        stream.seek_range(10, Some(20)),
        Some(InitRequest { file_hash: 9, start: 10, end: Some(20) })
    );
    assert_eq!(stream.seek_range(100, None), None);
    assert_eq!(
        stream.reconnect(99),
        Some(InitRequest { file_hash: 9, start: 99, end: None })
    );
    assert_eq!(stream.reconnect(100), None);
}
