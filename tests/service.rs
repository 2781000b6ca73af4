use aes128cfb8_api::cipher::{accept_update, CipherEngine, CipherFailure};
use aes128cfb8_api::connection::{Action, Connection, ConnectionError, Event, READ_CHUNK_LEN};
use aes128cfb8_api::protocol::{
    check_response_length, decode_length, encode_handshake, encode_response, parse_handshake,
    FrameError, HandshakeError, Mode, Session, HANDSHAKE_LEN,
};

fn open(mode: Mode, key: &[u8], iv: &[u8]) -> Connection {
    let mut c = Connection::new();
    match c.on_event(Event::Received(encode_handshake(mode, key, iv))) {
        Action::Wait => {}
        other => panic!("handshake not accepted: {:?}", other),
    }
    c
}

fn reply(c: &mut Connection, data: &[u8]) -> Vec<u8> {
    match c.on_event(Event::Received(data.to_vec())) {
        Action::Reply(frame) => frame,
        other => panic!("no reply: {:?}", other),
    }
}

fn payload(c: &mut Connection, data: &[u8]) -> Vec<u8> {
    let frame = reply(c, data);
    assert_eq!(decode_length(&frame[..4]) as usize, data.len());
    frame[4..].to_vec()
}

fn encrypt(key: &[u8], iv: &[u8], data: &[u8]) -> Vec<u8> {
    let mut c = open(Mode::Encrypt, key, iv);
    payload(&mut c, data)
}

fn decrypt(key: &[u8], iv: &[u8], data: &[u8]) -> Vec<u8> {
    let mut c = open(Mode::Decrypt, key, iv);
    payload(&mut c, data)
}

#[test]
fn hello_with_zero_key_and_iv() {
    let key = [0u8; 16];
    let iv = [0u8; 16];
    let mut c = open(Mode::Encrypt, &key, &iv);
    let frame = reply(&mut c, b"HELLO");
    assert_eq!(&frame[..4], &[0, 0, 0, 5]);
    assert_eq!(frame.len(), 9);
    let cipher_text = frame[4..].to_vec();
    assert_ne!(cipher_text, b"HELLO".to_vec());
    // AES-128 of the zero block under the zero key starts with 0x66.
    assert_eq!(cipher_text[0], b'H' ^ 0x66);
    assert_eq!(decrypt(&key, &iv, &cipher_text), b"HELLO".to_vec());
}

#[test]
fn round_trip_various_inputs() {
    let key: Vec<u8> = (0u8..16).collect();
    let iv: Vec<u8> = (100u8..116).collect();
    let inputs: Vec<Vec<u8>> = vec![
        vec![0],
        b"a".to_vec(),
        (0..=255u8).collect(),
        vec![0xAB; 5000],
    ];
    for input in inputs {
        let enc = encrypt(&key, &iv, &input);
        assert_eq!(enc.len(), input.len());
        assert_eq!(decrypt(&key, &iv, &enc), input);
    }
}

#[test]
fn response_length_matches_request() {
    let mut c = open(Mode::Encrypt, &[7u8; 16], &[9u8; 16]);
    for n in [1usize, 2, 15, 16, 17, 1000, READ_CHUNK_LEN] {
        let frame = reply(&mut c, &vec![3u8; n]);
        assert_eq!(frame.len(), 4 + n);
        assert_eq!(check_response_length(&frame[..4], n), Ok(n));
    }
}

#[test]
fn chunking_does_not_change_the_stream() {
    let key = [1u8; 16];
    let iv = [2u8; 16];
    let plain: Vec<u8> = (0..100u8).collect();
    let whole = encrypt(&key, &iv, &plain);
    let mut c = open(Mode::Encrypt, &key, &iv);
    let mut pieces = Vec::new();
    for chunk in [&plain[..1], &plain[1..17], &plain[17..50], &plain[50..]] {
        pieces.extend(payload(&mut c, chunk));
    }
    assert_eq!(pieces, whole);
    let mut d = open(Mode::Decrypt, &key, &iv);
    let mut back = Vec::new();
    for chunk in [&whole[..33], &whole[33..34], &whole[34..]] {
        back.extend(payload(&mut d, chunk));
    }
    assert_eq!(back, plain);
}

#[test]
fn sessions_are_isolated() {
    let plain = b"the same plaintext".to_vec();
    let mut a = open(Mode::Encrypt, &[1u8; 16], &[0u8; 16]);
    let mut b = open(Mode::Encrypt, &[2u8; 16], &[0u8; 16]);
    let a1 = payload(&mut a, &plain[..5]);
    let b1 = payload(&mut b, &plain);
    let a2 = payload(&mut a, &plain[5..]);
    assert_ne!([a1.clone(), a2.clone()].concat(), b1);
    assert_eq!([a1, a2].concat(), encrypt(&[1u8; 16], &[0u8; 16], &plain));
    assert_eq!(b1, encrypt(&[2u8; 16], &[0u8; 16], &plain));
}

#[test]
fn invalid_direction_closes_only_that_connection() {
    let mut good = open(Mode::Encrypt, &[5u8; 16], &[6u8; 16]);
    let mut bad = Connection::new();
    let mut hs = encode_handshake(Mode::Encrypt, &[5u8; 16], &[6u8; 16]);
    hs[0] = 2;
    match bad.on_event(Event::Received(hs)) {
        Action::Fail(e) => assert_eq!(e, ConnectionError::InvalidDirection(2)),
        other => panic!("expected a failure: {:?}", other),
    }
    assert!(bad.is_closed());
    let out = payload(&mut good, b"still served");
    assert_eq!(out, encrypt(&[5u8; 16], &[6u8; 16], b"still served"));
}

#[test]
fn zero_length_read_closes_cleanly() {
    let mut c = open(Mode::Decrypt, &[0u8; 16], &[0u8; 16]);
    assert!(matches!(c.on_event(Event::Received(Vec::new())), Action::Close));
    assert!(c.is_closed());
    let mut d = open(Mode::Decrypt, &[0u8; 16], &[0u8; 16]);
    assert!(matches!(d.on_event(Event::EndOfStream), Action::Close));
    assert!(d.is_closed());
}

#[test]
fn closed_connection_stays_closed() {
    let mut c = open(Mode::Encrypt, &[0u8; 16], &[0u8; 16]);
    assert!(matches!(c.on_event(Event::EndOfStream), Action::Close));
    assert!(matches!(c.on_event(Event::Received(b"x".to_vec())), Action::Close));
    assert_eq!(c.wanted(), 0);
}

#[test]
fn end_during_handshake_is_incomplete() {
    let mut c = Connection::new();
    assert!(matches!(c.on_event(Event::Received(vec![1, 2, 3])), Action::Wait));
    match c.on_event(Event::EndOfStream) {
        Action::Fail(e) => assert_eq!(e, ConnectionError::IncompleteHandshake),
        other => panic!("expected a failure: {:?}", other),
    }
    let mut d = Connection::new();
    match d.on_event(Event::Received(Vec::new())) {
        Action::Fail(e) => assert_eq!(e, ConnectionError::IncompleteHandshake),
        other => panic!("expected a failure: {:?}", other),
    }
}

#[test]
fn channel_failures_close_with_error() {
    let mut c = open(Mode::Encrypt, &[0u8; 16], &[0u8; 16]);
    match c.on_event(Event::ReadFailed) {
        Action::Fail(e) => assert_eq!(e, ConnectionError::ChannelIO),
        other => panic!("expected a failure: {:?}", other),
    }
    let mut d = Connection::new();
    match d.on_event(Event::WriteFailed) {
        Action::Fail(e) => assert_eq!(e, ConnectionError::ChannelIO),
        other => panic!("expected a failure: {:?}", other),
    }
}

#[test]
fn handshake_in_pieces_and_trailing_request() {
    let key = [4u8; 16];
    let iv = [8u8; 16];
    let hs = encode_handshake(Mode::Encrypt, &key, &iv);
    let mut c = Connection::new();
    assert_eq!(c.wanted(), HANDSHAKE_LEN);
    assert!(matches!(c.on_event(Event::Received(hs[..10].to_vec())), Action::Wait));
    assert_eq!(c.wanted(), HANDSHAKE_LEN - 10);
    let mut rest = hs[10..].to_vec();
    rest.extend_from_slice(b"abc");
    let frame = match c.on_event(Event::Received(rest)) {
        Action::Reply(f) => f,
        other => panic!("no reply: {:?}", other),
    };
    assert_eq!(frame[4..].to_vec(), encrypt(&key, &iv, b"abc"));
    assert_eq!(c.wanted(), READ_CHUNK_LEN);
}

#[test]
fn handshake_encoding() {
    let key: Vec<u8> = (0u8..16).collect();
    let iv: Vec<u8> = (16u8..32).collect();
    let hs = encode_handshake(Mode::Decrypt, &key, &iv);
    assert_eq!(hs.len(), 33);
    assert_eq!(hs[0], 0);
    assert_eq!(&hs[1..17], &key[..]);
    assert_eq!(&hs[17..], &iv[..]);
    assert_eq!(encode_handshake(Mode::Encrypt, &key, &iv)[0], 1);
    let s = parse_handshake(&hs).unwrap();
    assert_eq!(s.mode, Mode::Decrypt);
    assert_eq!(s.key, key);
    assert_eq!(s.iv, iv);
}

#[test]
fn handshake_errors() {
    assert_eq!(
        parse_handshake(&[1u8; 32]).unwrap_err(),
        HandshakeError::IncompleteHandshake
    );
    let mut hs = vec![0u8; 33];
    hs[0] = 255;
    assert_eq!(
        parse_handshake(&hs).unwrap_err(),
        HandshakeError::InvalidDirection(255)
    );
}

#[test]
fn mode_bytes() {
    assert_eq!(Mode::Decrypt.to_byte(), 0);
    assert_eq!(Mode::Encrypt.to_byte(), 1);
    assert_eq!(Mode::from_byte(0), Some(Mode::Decrypt));
    assert_eq!(Mode::from_byte(1), Some(Mode::Encrypt));
    assert_eq!(Mode::from_byte(2), None);
}

#[test]
fn response_framing() {
    let frame = encode_response(&[9u8; 300]);
    assert_eq!(&frame[..4], &[0, 0, 1, 44]);
    assert_eq!(frame.len(), 304);
    assert_eq!(decode_length(&[1, 2, 3, 4]), 0x01020304);
    assert_eq!(decode_length(&[255, 255, 255, 255]), u32::MAX);
    assert_eq!(encode_response(&[]), vec![0, 0, 0, 0]);
}

#[test]
fn response_length_errors() {
    assert_eq!(
        check_response_length(&[0, 0, 0, 4], 5),
        Err(FrameError::LengthMismatch { expected: 5, announced: 4 })
    );
    assert_eq!(check_response_length(&[0, 0, 5], 5), Err(FrameError::TruncatedFrame));
    assert_eq!(check_response_length(&[0, 0, 0, 0], 0), Ok(0));
}

#[test]
fn engine_carries_state_between_updates() {
    let session = Session::new(Mode::Encrypt, &[3u8; 16], &[4u8; 16]);
    let mut e = CipherEngine::new(session).unwrap();
    let first = e.update(b"abcd").unwrap();
    let second = e.update(b"abcd").unwrap();
    assert_eq!(first.len(), 4);
    assert_ne!(first, second);
    assert_eq!([first, second].concat(), encrypt(&[3u8; 16], &[4u8; 16], b"abcdabcd"));
    assert_eq!(e.update(&[]).unwrap(), Vec::<u8>::new());
}

#[test]
fn update_results_are_checked() {
    assert_eq!(accept_update(b"abc", Ok(vec![7, 8, 9])), Ok(vec![7, 8, 9]));
    assert_eq!(accept_update(b"abc", Ok(vec![7, 8])), Err(CipherFailure));
    assert_eq!(accept_update(b"", Ok(Vec::new())), Ok(Vec::new()));
    assert_eq!(
        accept_update(b"abc", Err(openssl::error::ErrorStack::get())),
        Err(CipherFailure)
    );
}
