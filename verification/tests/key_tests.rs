use veilid_core::key::{distance, generate_hash, generate_secret, validate_hash, validate_key, DHTKey, DHTSignature};

fn key_from(first: u8) -> DHTKey {
    let mut b = [0u8; 32];
    b[0] = first;
    DHTKey::new(b)
}

#[test]
fn distance_is_xor_of_keys() {
    let mut a = [0u8; 32];
    let mut b = [0u8; 32];
    for i in 0..32 {
        a[i] = i as u8;
        b[i] = 0xF0;
    }
    let d = distance(&DHTKey::new(a), &DHTKey::new(b));
    assert!(d.valid);
    for i in 0..32 {
        assert_eq!(d.bytes[i], (i as u8) ^ 0xF0);
    }
}

#[test]
fn distance_is_symmetric_and_zero_to_itself() {
    let a = key_from(0x12);
    let b = key_from(0x34);
    assert!(distance(&a, &b) == distance(&b, &a));
    assert_eq!(distance(&a, &a).bytes, [0u8; 32]);
    assert!(distance(&a, &b).bytes != [0u8; 32]);
}

#[test]
fn bits_and_nibbles_from_most_significant() {
    let k = key_from(0b0101_0000);
    assert!(!k.bit(0));
    assert!(k.bit(1));
    assert!(!k.bit(2));
    assert!(k.bit(3));
    assert_eq!(k.first_nonzero_bit(), Some(1));
    assert_eq!(k.nibble(0), 5);
    assert_eq!(k.nibble(1), 0);
    assert_eq!(k.first_nonzero_nibble(), Some((0, 5)));
    let zero = DHTKey::new([0u8; 32]);
    assert_eq!(zero.first_nonzero_bit(), None);
    assert_eq!(zero.first_nonzero_nibble(), None);
    let mut last = [0u8; 32];
    last[31] = 1;
    assert_eq!(DHTKey::new(last).first_nonzero_bit(), Some(255));
    assert_eq!(DHTKey::new(last).first_nonzero_nibble(), Some((63, 1)));
}

#[test]
fn base64url_encoding_of_zero_key() {
    let k = DHTKey::new([0u8; 32]);
    let s = k.encode();
    assert_eq!(s, "AAAAAAAAAAAAAAAAAAAAAAAAAAAAAAAAAAAAAAAAAAA");
    assert_eq!(s.len(), 43);
}

#[test]
fn base64url_roundtrip() {
    let mut b = [0u8; 32];
    for i in 0..32 {
        b[i] = (i as u8).wrapping_mul(37).wrapping_add(11);
    }
    let k = DHTKey::new(b);
    let s = k.encode();
    let back = DHTKey::try_decode(&s).unwrap();
    assert!(back == k);
    assert!(back.valid);
}

#[test]
fn base64url_text_of_known_bytes() {
    let ones = DHTKey::new([0xFFu8; 32]);
    assert_eq!(ones.encode(), format!("{}8", "_".repeat(42)));
    let mut b = [0u8; 32];
    b[0] = 0xFB;
    b[1] = 0xEF;
    b[2] = 0x00;
    b[31] = 0x01;
    let s = DHTKey::new(b).encode();
    assert!(s.starts_with("--8A"));
    assert!(s.ends_with("AE"));
    assert_eq!(s.len(), 43);
}

#[test]
fn decode_refuses_bad_lengths_and_characters() {
    assert_eq!(DHTKey::try_decode("AAAA").unwrap_err(), "Incorrect length in decode");
    assert_eq!(DHTKey::try_decode("A").unwrap_err(), "Failed to decode");
    let bad = "!AAAAAAAAAAAAAAAAAAAAAAAAAAAAAAAAAAAAAAAAAA";
    assert_eq!(DHTKey::try_decode(bad).unwrap_err(), "Failed to decode");
}

#[test]
fn serialized_empty_string_is_invalid_key() {
    let k = DHTKey::from_serialized("").unwrap();
    assert!(!k.valid);
    assert_eq!(k.to_serialized(), "");
    let v = key_from(7);
    assert_eq!(DHTKey::from_serialized(&v.to_serialized()).unwrap().bytes, v.bytes);
}

#[test]
fn hex_string_and_back() {
    let mut b = [0u8; 32];
    for i in 0..32 {
        b[i] = i as u8;
    }
    let k = DHTKey::new(b);
    let h = k.to_hex_string();
    assert_eq!(h, "000102030405060708090a0b0c0d0e0f101112131415161718191a1b1c1d1e1f");
    let back = DHTKey::try_from_hex(&h).unwrap();
    assert_eq!(back.bytes, b);
    assert!(back.valid);
}

#[test]
fn hex_refuses_wrong_length() {
    assert_eq!(DHTKey::try_from_hex("00ff").unwrap_err(), "incorrect length");
    assert!(!DHTKey::try_from_hex("").unwrap().valid);
    let bad = "zz0102030405060708090a0b0c0d0e0f101112131415161718191a1b1c1d1e1f";
    assert!(DHTKey::try_from_hex(bad).is_err());
}

#[test]
fn try_from_vec_checks_length() {
    let ok = DHTKey::try_from_vec(vec![9u8; 32]).unwrap();
    assert_eq!(ok.bytes, [9u8; 32]);
    let err = DHTSignature::try_from_vec(vec![1u8, 2, 3]).unwrap_err();
    assert_eq!(err, "Expected a Vec of length 64 but it was 3");
    let err = DHTKey::try_from_vec(vec![0u8; 100]).unwrap_err();
    assert_eq!(err, "Expected a Vec of length 32 but it was 100");
}

#[test]
fn blake3_hash_of_empty_input() {
    let h = generate_hash(b"");
    assert!(h.valid);
    assert_eq!(h.to_hex_string(), "af1349b9f5f9a1a6a0404dea36dcc9499bcb25c9adc112b7cc9a93cae41f3262");
    assert!(validate_hash(b"", &h));
    assert!(!validate_hash(b"x", &h));
}

#[test]
fn generated_hash_validates_its_data() {
    let data = b"some record data";
    let h = generate_hash(data);
    assert!(validate_hash(data, &h));
    assert!(h != generate_hash(b"other data"));
}

#[test]
fn generated_secrets_are_valid_and_fresh() {
    let (p1, s1) = generate_secret();
    let (p2, _s2) = generate_secret();
    assert!(p1.valid && s1.valid);
    assert!(p1 != p2);
    // The public key is the one the secret gives.
    let sk = ed25519_dalek::SecretKey::from_bytes(&s1.bytes).unwrap();
    let pk: ed25519_dalek::PublicKey = (&sk).into();
    assert_eq!(pk.to_bytes(), p1.bytes);
}

#[test]
fn validate_key_signs_zeros_and_verifies() {
    let k = key_from(1);
    let s = key_from(2);
    let signed = std::cell::RefCell::new(Vec::new());
    let ok = validate_key(
        &k,
        &s,
        |_: &DHTKey, _: &DHTKey, d: &Vec<u8>| {
            signed.borrow_mut().push(d.clone());
            Ok(DHTSignature::new([7u8; 64]))
        },
        |_: &DHTKey, d: &Vec<u8>, sig: &DHTSignature| {
            assert_eq!(d, &vec![0u8; 512]);
            if *sig == DHTSignature::new([7u8; 64]) { Ok(()) } else { Err("Verification failed".to_string()) }
        },
    );
    assert!(ok);
    assert_eq!(*signed.borrow(), vec![vec![0u8; 512]]);
    let bad_verify = validate_key(
        &k,
        &s,
        |_: &DHTKey, _: &DHTKey, _: &Vec<u8>| Ok(DHTSignature::new([7u8; 64])),
        |_: &DHTKey, _: &Vec<u8>, _: &DHTSignature| Err("Verification failed".to_string()),
    );
    assert!(!bad_verify);
    let bad_sign = validate_key(
        &k,
        &s,
        |_: &DHTKey, _: &DHTKey, _: &Vec<u8>| Err("Keypair is invalid".to_string()),
        |_: &DHTKey, _: &Vec<u8>, _: &DHTSignature| -> Result<(), String> { panic!("not verified after a failed signing") },
    );
    assert!(!bad_sign);
}

#[test]
fn keys_order_invalid_first_then_bytes() {
    let invalid = DHTKey::from_serialized("").unwrap();
    let a = key_from(1);
    let b = key_from(2);
    assert!(invalid < a);
    assert!(a < b);
    assert!(a == a);
    assert!(!(a < a));
}
