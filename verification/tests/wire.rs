use sway::wire::{
    frame, frame_len, generate_keypair, read_length, sas_code, split_message, Assembly, Handshake,
    Session, WireError,
};

/// What stands in the first frame of a stream.
fn unframed(bytes: &[u8]) -> Vec<u8> {
    let n = frame_len([bytes[0], bytes[1], bytes[2], bytes[3]]).unwrap();
    bytes[4..4 + n].to_vec()
}

/// The two ends of a session.
fn pair() -> (Session, Session) {
    let (a_priv, _) = generate_keypair().unwrap();
    let (b_priv, _) = generate_keypair().unwrap();
    let (caller, first) = Handshake::call(&a_priv).unwrap();
    let (called, answer) = Handshake::answer(&b_priv, &unframed(&first)).unwrap();
    let (last, client) = caller.conclude(&unframed(&answer)).unwrap();
    let server = called.accept(&unframed(&last)).unwrap();
    (client, server)
}

/// Decrypts what a stream holds.
fn received(s: &mut Session, stream: &[u8]) -> Result<Vec<u8>, WireError> {
    let mut rest = stream;
    let mut assembly = Assembly::new();
    loop {
        let head = [rest[0], rest[1], rest[2], rest[3]];
        let n = frame_len(head)?;
        let whole = s.open(&mut assembly, &rest[4..4 + n])?;
        rest = &rest[4 + n..];
        if whole {
            assert!(rest.is_empty());
            return Ok(assembly.finish());
        }
    }
}

#[test]
fn both_sides_derive_the_same_code_and_see_each_others_keys() {
    let (a, b) = pair();
    assert_eq!(a.code, b.code);
    assert_eq!(a.code.len(), 6);
    assert!(a.code.chars().all(|c| c.is_ascii_digit()));
    assert_ne!(a.peer_pubkey, b.peer_pubkey);
    assert_eq!(a.peer_pubkey.len(), 32);
}

#[test]
fn each_side_sees_the_public_key_of_the_other() {
    let (a_priv, a_pub) = generate_keypair().unwrap();
    let (b_priv, b_pub) = generate_keypair().unwrap();
    let (caller, first) = Handshake::call(&a_priv).unwrap();
    let (called, answer) = Handshake::answer(&b_priv, &unframed(&first)).unwrap();
    let (last, client) = caller.conclude(&unframed(&answer)).unwrap();
    let server = called.accept(&unframed(&last)).unwrap();
    assert_eq!(client.peer_pubkey, b_pub);
    assert_eq!(server.peer_pubkey, a_pub);
}

#[test]
fn whoever_stands_between_makes_the_codes_differ() {
    let (a_priv, _) = generate_keypair().unwrap();
    let (b_priv, _) = generate_keypair().unwrap();
    let (m_priv, _) = generate_keypair().unwrap();
    let (a, first) = Handshake::call(&a_priv).unwrap();
    let (_, answer) = Handshake::answer(&m_priv, &unframed(&first)).unwrap();
    let (_, at_a) = a.conclude(&unframed(&answer)).unwrap();
    let (m, first) = Handshake::call(&m_priv).unwrap();
    let (b, answer) = Handshake::answer(&b_priv, &unframed(&first)).unwrap();
    let (last, _) = m.conclude(&unframed(&answer)).unwrap();
    let at_b = b.accept(&unframed(&last)).unwrap();
    assert_ne!(at_a.code, at_b.code);
}

#[test]
fn code_differs_between_sessions() {
    let (a1, _) = pair();
    let (a2, _) = pair();
    assert_ne!(a1.code, a2.code);
}

#[test]
fn messages_round_trip() {
    let (mut a, mut b) = pair();
    let request = br#"{"PairRequest":{"uid":"u-1","name":"PC","platform":"windows"}}"#;
    let sealed = a.seal(request).unwrap();
    assert!(!sealed.windows(3).any(|w| w == b"u-1"), "it goes out encrypted");
    assert_eq!(received(&mut b, &sealed).unwrap(), request);
    let answer = br#"{"PairResponse":{"accepted":true}}"#;
    let sealed = b.seal(answer).unwrap();
    assert_eq!(received(&mut a, &sealed).unwrap(), answer);
}

#[test]
fn payloads_larger_than_one_noise_message_survive() {
    let (mut a, mut b) = pair();
    let big: Vec<u8> = (0..500_000).map(|i| (i % 251) as u8).collect();
    let sealed = a.seal(&big).unwrap();
    let got = received(&mut b, &sealed).unwrap();
    assert_eq!(got, big);
}

#[test]
fn an_empty_message_is_one_too() {
    let (mut a, mut b) = pair();
    let sealed = a.seal(&[]).unwrap();
    assert_eq!(received(&mut b, &sealed).unwrap(), Vec::<u8>::new());
}

#[test]
fn what_was_tampered_with_is_refused() {
    let (mut a, mut b) = pair();
    let mut sealed = a.seal(b"hello").unwrap();
    let last = sealed.len() - 1;
    sealed[last] ^= 1;
    let refused = received(&mut b, &sealed).unwrap_err();
    assert!(matches!(refused, WireError::Noise { .. }));
    assert_eq!(refused.message(), "decrypt error");
    // And a message cannot be played twice.
    let (mut a, mut b) = pair();
    let sealed = a.seal(b"hello").unwrap();
    assert!(received(&mut b, &sealed).is_ok());
    assert!(matches!(received(&mut b, &sealed), Err(WireError::Noise { .. })));
}

#[test]
fn a_handshake_takes_what_it_expects() {
    let (a_priv, _) = generate_keypair().unwrap();
    let refused = Handshake::answer(&a_priv, b"junk").err();
    assert!(matches!(refused, Some(WireError::Noise { .. })));
    let (caller, _) = Handshake::call(&a_priv).unwrap();
    assert!(matches!(caller.conclude(b"junk").err(), Some(WireError::Noise { .. })));
    // A third message that was spoilt on the way, or is none.
    let (b_priv, _) = generate_keypair().unwrap();
    let (caller, first) = Handshake::call(&a_priv).unwrap();
    let (called, answer) = Handshake::answer(&b_priv, &unframed(&first)).unwrap();
    let (last, _) = caller.conclude(&unframed(&answer)).unwrap();
    let mut spoilt = unframed(&last);
    spoilt[0] ^= 1;
    assert!(matches!(called.accept(&spoilt).err(), Some(WireError::Noise { .. })));
}

#[test]
fn frames_carry_their_length() {
    assert_eq!(frame(b"ab"), vec![0, 0, 0, 2, b'a', b'b']);
    assert_eq!(frame_len([0, 0, 1, 2]), Ok(258));
    assert_eq!(frame_len([0, 1, 0, 0]), Err(WireError::BadFrame { len: 65536 }));
    assert_eq!(read_length([1, 2, 3, 4]), 16909060);
}

#[test]
fn messages_are_cut_and_put_together() {
    let data: Vec<u8> = (0..150_000).map(|i| (i % 7) as u8).collect();
    let parts = split_message(&data);
    assert_eq!(parts[0], vec![0, 2, 73, 240]);
    let mut a = Assembly::new();
    for p in &parts {
        assert!(!a.is_whole());
        a.take(p).unwrap();
    }
    assert!(a.is_whole());
    assert_eq!(a.finish(), data);
}

#[test]
fn bad_messages_are_named() {
    let mut a = Assembly::new();
    assert_eq!(a.take(&[1, 2]), Err(WireError::BadHeader { len: 2 }));
    assert_eq!(WireError::BadHeader { len: 2 }.message(), "cabecera invalida (2 bytes)");
    let mut a = Assembly::new();
    let e = a.take(&[255, 255, 255, 255]).unwrap_err();
    assert_eq!(e, WireError::TooLong { len: 4294967295 });
    assert_eq!(e.message(), "mensaje demasiado grande (4294967295 bytes)");
    let mut a = Assembly::new();
    a.take(&[0, 0, 0, 5]).unwrap();
    assert_eq!(a.take(&[]), Err(WireError::Cut));
    assert_eq!(WireError::Cut.message(), "el peer corto el mensaje por la mitad");
    assert_eq!(WireError::BadFrame { len: 9 }.message(), "frame invalido (9 bytes)");
    let noise = WireError::Noise { reason: "decrypt error".to_string() };
    assert_eq!(noise.message(), "decrypt error");
    assert_eq!(WireError::NoPeerKey.message(), "el peer no mando su clave estatica");
}

#[test]
fn codes_come_from_the_hash() {
    assert_eq!(sas_code(&[0; 32]), "000000");
    let mut h = [0u8; 32];
    h[3] = 7;
    assert_eq!(sas_code(&h).len(), 6);
    assert_ne!(sas_code(&h), "000000");
}
