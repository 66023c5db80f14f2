use dnx::proto::{MAX_FRAME, TAG_CACHE_HIT, TAG_FAILED, TAG_PING, TAG_PONG, TAG_STORE_QUERY};
use dnx::{
    built_reply, cache_lookup_reply, decode_request, decode_response, encode_request, encode_response, read_frame,
    shutdown_reply, status_of_reply, store_query_reply, write_frame, DaemonError, DaemonErrorKind, DaemonStatus,
    Request, Response,
};

fn h(b: u8) -> [u8; 32] {
    [b; 32]
}

fn req_roundtrips(req: Request) {
    let decoded = decode_request(&encode_request(&req)).expect("valid request decodes");
    assert_eq!(decoded, req, "request survives encode then decode");
}

#[test]
fn every_request_roundtrips() {
    req_roundtrips(Request::Build(Vec::new()));
    req_roundtrips(Request::Build(vec![0xde, 0xad, 0xbe, 0xef]));
    req_roundtrips(Request::StoreQuery(h(0x11)));
    req_roundtrips(Request::CacheLookup(h(0x22)));
    req_roundtrips(Request::Ping);
    req_roundtrips(Request::Shutdown);
}

#[test]
fn unknown_request_tag_is_bad_tag() {
    assert!(matches!(decode_request(&[0x00]), Err(DaemonError::BadTag)));
    assert!(matches!(decode_request(&[0x7f]), Err(DaemonError::BadTag)));
}

fn res_roundtrips(res: Response) {
    let decoded = decode_response(&encode_response(&res)).expect("valid response decodes");
    assert_eq!(decoded, res, "response survives encode then decode");
}

#[test]
fn every_response_roundtrips() {
    res_roundtrips(Response::Built(format!("/dnx/store/{}-hello", "09".repeat(32))));
    res_roundtrips(Response::StorePresent(true));
    res_roundtrips(Response::StorePresent(false));
    res_roundtrips(Response::CacheHit(vec![1, 2, 3, 4]));
    res_roundtrips(Response::CacheHit(Vec::new()));
    res_roundtrips(Response::CacheMiss);
    res_roundtrips(Response::Pong { version: 1, queue_depth: 0, built: 0 });
    res_roundtrips(Response::Pong { version: u32::MAX, queue_depth: 7, built: 42 });
    res_roundtrips(Response::Failed(DaemonErrorKind::Build, "boom".into()));
    res_roundtrips(Response::Failed(DaemonErrorKind::NotFound, String::new()));
}

#[test]
fn empty_body_is_short_not_panic() {
    assert!(matches!(decode_request(&[]), Err(DaemonError::Protocol(_))));
    assert!(matches!(decode_response(&[]), Err(DaemonError::Protocol(_))));
}

#[test]
fn unknown_response_tag_is_bad_tag() {
    assert!(matches!(decode_response(&[0x00]), Err(DaemonError::BadTag)));
    assert!(matches!(decode_response(&[0xff]), Err(DaemonError::BadTag)));
}

#[test]
fn cache_hit_with_lying_length_prefix_is_protocol() {
    let mut body = vec![TAG_CACHE_HIT];
    body.extend_from_slice(&9999u32.to_le_bytes());
    body.extend_from_slice(b"short");
    assert!(matches!(decode_response(&body), Err(DaemonError::Protocol(_))));
}

#[test]
fn failed_with_unknown_err_kind_is_bad_tag() {
    let mut body = vec![TAG_FAILED, 0xff];
    body.extend_from_slice(&6u32.to_le_bytes());
    body.extend_from_slice(b"detail");
    assert!(matches!(decode_response(&body), Err(DaemonError::BadTag)));
}

#[test]
fn failed_detail_that_is_not_utf8_is_kept_lossily() {
    let mut body = vec![TAG_FAILED, 3];
    body.extend_from_slice(&3u32.to_le_bytes());
    body.extend_from_slice(&[b'a', 0xff, b'b']);
    assert_eq!(
        decode_response(&body).expect("decodes"),
        Response::Failed(DaemonErrorKind::Build, "a\u{fffd}b".to_string())
    );
}

#[test]
fn built_path_that_is_not_utf8_is_protocol() {
    let mut body = vec![0x81];
    body.extend_from_slice(&1u32.to_le_bytes());
    body.push(0xff);
    assert!(matches!(decode_response(&body), Err(DaemonError::Protocol(_))));
}

#[test]
fn pong_layout_is_exact() {
    let b = encode_response(&Response::Pong { version: 1, queue_depth: 2, built: 3 });
    assert_eq!(b, vec![TAG_PONG, 1, 0, 0, 0, 2, 0, 0, 0, 3, 0, 0, 0]);
}

#[test]
fn short_hash_payload_is_protocol() {
    let mut body = vec![TAG_STORE_QUERY];
    body.extend_from_slice(&[0u8; 10]);
    assert!(matches!(decode_request(&body), Err(DaemonError::Protocol(_))));
}

#[test]
fn trailing_bytes_after_a_complete_message_is_protocol() {
    assert!(matches!(decode_request(&[0x05, 0xde, 0xad]), Err(DaemonError::Protocol(_))));
}

#[test]
fn wrong_direction_tag_is_bad_tag() {
    assert!(matches!(decode_request(&[TAG_PONG]), Err(DaemonError::BadTag)));
    assert!(matches!(decode_response(&[TAG_PING]), Err(DaemonError::BadTag)));
}

#[test]
fn frame_roundtrips_over_a_byte_buffer() {
    let body = encode_request(&Request::StoreQuery(h(0x55)));
    let mut wire = Vec::new();
    write_frame(&mut wire, &body).expect("write frame");
    let read = read_frame(&mut wire.as_slice()).expect("read frame");
    assert_eq!(read, body, "the framed body is recovered byte-for-byte");
    assert_eq!(decode_request(&read).expect("decode"), Request::StoreQuery(h(0x55)));
}

#[test]
fn read_frame_rejects_an_oversize_length_prefix() {
    let mut wire = (MAX_FRAME + 1).to_le_bytes().to_vec();
    wire.push(0x00);
    assert!(matches!(read_frame(&mut wire.as_slice()), Err(DaemonError::FrameTooLarge)));
}

#[test]
fn read_frame_on_clean_eof_is_not_running() {
    let empty: &[u8] = &[];
    assert!(matches!(read_frame(&mut { empty }), Err(DaemonError::NotRunning)));
}

#[test]
fn read_frame_on_truncated_length_prefix_is_not_running() {
    let partial: &[u8] = &[0x01];
    assert!(matches!(read_frame(&mut { partial }), Err(DaemonError::NotRunning)));
}

#[test]
fn read_frame_advances_past_one_frame() {
    let mut wire = Vec::new();
    write_frame(&mut wire, &[1, 2]).expect("write");
    write_frame(&mut wire, &[3]).expect("write");
    let mut cursor: &[u8] = wire.as_slice();
    assert_eq!(read_frame(&mut cursor).expect("first"), vec![1, 2]);
    assert_eq!(read_frame(&mut cursor).expect("second"), vec![3]);
    assert!(matches!(read_frame(&mut cursor), Err(DaemonError::NotRunning)));
}

#[test]
fn short_frame_body_is_an_io_error() {
    let wire = vec![5u8, 0, 0, 0, 1, 2];
    assert!(matches!(read_frame(&mut wire.as_slice()), Err(DaemonError::Io(_))));
}

#[test]
fn error_kinds_round_trip_through_their_byte() {
    for b in 0u8..=6 {
        let k = DaemonErrorKind::from_u8(b).expect("a kind");
        assert_eq!(k.code(), b);
    }
    assert_eq!(DaemonErrorKind::from_u8(7), None);
    assert_eq!(DaemonErrorKind::from_u8(0xff), None);
}

#[test]
fn build_request_layout_is_exact() {
    let b = encode_request(&Request::Build(vec![9, 8]));
    assert_eq!(b, vec![0x01, 2, 0, 0, 0, 9, 8]);
}

#[test]
fn replies_are_read_as_their_requests_expect() {
    assert_eq!(store_query_reply(Response::StorePresent(true)), Ok(true));
    assert_eq!(store_query_reply(Response::CacheMiss), Err(DaemonError::BadTag));
    assert_eq!(
        store_query_reply(Response::Failed(DaemonErrorKind::Build, "boom".into())),
        Err(DaemonError::Protocol("boom".into()))
    );
    assert_eq!(cache_lookup_reply(Response::CacheHit(vec![7])), Ok(Some(vec![7])));
    assert_eq!(cache_lookup_reply(Response::CacheMiss), Ok(None));
    assert_eq!(
        cache_lookup_reply(Response::Failed(DaemonErrorKind::NotFound, String::new())),
        Err(DaemonError::NoOutput)
    );
    assert_eq!(shutdown_reply(Response::Pong { version: 1, queue_depth: 0, built: 0 }), Ok(()));
    assert_eq!(shutdown_reply(Response::StorePresent(false)), Err(DaemonError::BadTag));
    assert_eq!(built_reply(Response::Built("p".into())), Ok("p".to_string()));
    assert_eq!(
        built_reply(Response::Failed(DaemonErrorKind::FrameTooLarge, String::new())),
        Err(DaemonError::FrameTooLarge)
    );
    assert_eq!(
        status_of_reply(Ok(Response::Pong { version: 1, queue_depth: 2, built: 3 })),
        Some(DaemonStatus { version: 1, queue_depth: 2, built: 3 })
    );
    assert_eq!(status_of_reply(Ok(Response::CacheMiss)), None);
    assert_eq!(status_of_reply(Err(DaemonError::NotRunning)), None);
}

#[test]
fn errors_report_their_kind() {
    assert_eq!(DaemonError::NotRunning.kind(), DaemonErrorKind::Io);
    assert_eq!(DaemonError::NoOutput.kind(), DaemonErrorKind::NotFound);
    assert_eq!(DaemonError::Protocol("x".into()).kind(), DaemonErrorKind::Protocol);
    assert_eq!(DaemonError::from_kind(DaemonErrorKind::HashMismatch, "h".into()), DaemonError::Protocol("h".into()));
}
