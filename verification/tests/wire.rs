use dnx::wire::{TAG_BLOBS, TAG_FAILED, TAG_HAVE, TAG_HELD, TAG_WANT};
use dnx::{decode_body, encode_body, encode_frame, frame_len, CacheError, Msg, MAX_FRAME};

fn read_frame_bytes(bytes: &[u8]) -> Result<Msg, CacheError> {
    if bytes.len() < 4 {
        return Err(CacheError::Io(String::from("short frame")));
    }
    let len = frame_len([bytes[0], bytes[1], bytes[2], bytes[3]])? as usize;
    if bytes.len() - 4 < len {
        return Err(CacheError::Io(String::from("short frame")));
    }
    decode_body(&bytes[4..4 + len])
}

fn frame(body: &[u8]) -> Vec<u8> {
    let mut bytes = (body.len() as u32).to_le_bytes().to_vec();
    bytes.extend_from_slice(body);
    bytes
}

#[test]
fn huge_want_count_no_amplification() {
    let body = [TAG_WANT, 0xFF, 0xFF, 0xFF, 0xFF];
    let r = read_frame_bytes(&frame(&body));
    assert!(matches!(r, Err(CacheError::Io(_))), "got {r:?}");
}

#[test]
fn huge_have_count_no_amplification() {
    let body = [TAG_HAVE, 0xFF, 0xFF, 0xFF, 0xFF];
    let r = read_frame_bytes(&frame(&body));
    assert!(matches!(r, Err(CacheError::Io(_))), "got {r:?}");
}

#[test]
fn huge_blobs_count_no_amplification() {
    let body = [TAG_BLOBS, 0xFF, 0xFF, 0xFF, 0xFF];
    let r = read_frame_bytes(&frame(&body));
    assert!(matches!(r, Err(CacheError::Io(_))), "got {r:?}");
}

#[test]
fn huge_held_count_no_amplification() {
    let body = [TAG_HELD, 0xFF, 0xFF, 0xFF, 0xFF];
    let r = read_frame_bytes(&frame(&body));
    assert!(matches!(r, Err(CacheError::Io(_))), "got {r:?}");
}

#[test]
fn well_formed_want_round_trips() {
    let h = [7u8; 32];
    let mut body = vec![TAG_WANT];
    body.extend_from_slice(&1u32.to_le_bytes());
    body.extend_from_slice(&h);
    let msg = read_frame_bytes(&frame(&body)).expect("well-formed frame decodes");
    assert_eq!(msg, Msg::Want(vec![h]));
}

fn round_trip(m: Msg) {
    let f = encode_frame(&m).expect("encodes");
    let back = read_frame_bytes(&f).expect("decodes");
    assert_eq!(back, m);
}

#[test]
fn every_message_round_trips() {
    round_trip(Msg::Want(vec![]));
    round_trip(Msg::Want(vec![[1u8; 32], [2u8; 32]]));
    round_trip(Msg::Have(vec![[3u8; 32]]));
    round_trip(Msg::Blobs(vec![([4u8; 32], vec![1, 2, 3]), ([5u8; 32], vec![])]));
    round_trip(Msg::Held(vec![true, false, true]));
    round_trip(Msg::Failed(2, String::from("unexpected request")));
    round_trip(Msg::Failed(0, String::from("héllo ✓")));
}

#[test]
fn encoded_body_layout_is_exact() {
    let b = encode_body(&Msg::Held(vec![true, false])).expect("encodes");
    assert_eq!(b, vec![TAG_HELD, 2, 0, 0, 0, 1, 0]);
    let f = encode_body(&Msg::Failed(9, String::from("ab"))).expect("encodes");
    assert_eq!(f, vec![TAG_FAILED, 9, 2, 0, 0, 0, b'a', b'b']);
}

#[test]
fn trailing_bytes_are_rejected() {
    let mut body = vec![TAG_HELD, 1, 0, 0, 0, 1];
    body.push(0);
    assert!(matches!(decode_body(&body), Err(CacheError::Io(_))));
}

#[test]
fn unknown_tag_is_rejected() {
    assert!(matches!(decode_body(&[0x42, 0, 0, 0, 0]), Err(CacheError::Io(_))));
    assert!(matches!(decode_body(&[]), Err(CacheError::Io(_))));
}

#[test]
fn invalid_utf8_failure_message_is_rejected() {
    let body = vec![TAG_FAILED, 1, 1, 0, 0, 0, 0xFF];
    assert!(matches!(decode_body(&body), Err(CacheError::Io(_))));
}

#[test]
fn oversize_frame_length_is_refused() {
    let too_big = (MAX_FRAME + 1).to_le_bytes();
    assert!(matches!(frame_len(too_big), Err(CacheError::Io(_))));
    assert_eq!(frame_len(MAX_FRAME.to_le_bytes()).ok(), Some(MAX_FRAME));
}

#[test]
fn check_held_wants_one_flag_per_key() {
    let keys: Vec<dnx::canonical_hash::Blake3Hash> = vec![[1u8; 32], [2u8; 32]];
    assert_eq!(dnx::check_held(&keys, vec![true, false]).expect("matching lengths"), vec![true, false]);
    match dnx::check_held(&keys, vec![true]) {
        Err(CacheError::Io(m)) => assert_eq!(m, "Held length does not match Have"),
        other => panic!("expected an I/O error, got {other:?}"),
    }
}
