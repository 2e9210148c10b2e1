use classified::envelope::{
    armor, decrypt, open, seal, trim_newline, unarmor, Encrypted, EnvelopeError,
};
use classified::keyfile::ArmoredKey;
use classified::record::{read_record, write_record};

fn key(seed: u8) -> ArmoredKey {
    ArmoredKey::new((0..32u8).map(|i| i ^ seed).collect())
}

#[test]
fn open_inverts_seal() {
    let k = key(1);
    for msg in [&b""[..], b"hello", &[7u8; 1000][..]] {
        let enc = seal(&k, msg);
        assert_eq!(enc.nonce.len(), 24);
        assert_eq!(enc.bytes.len(), msg.len() + 16);
        assert_eq!(open(&k, &enc).unwrap(), msg.to_vec());
    }
}

#[test]
fn open_with_another_key_fails() {
    let enc = seal(&key(1), b"secret");
    assert_eq!(open(&key(2), &enc), Err(EnvelopeError::AuthenticationFailed));
}

#[test]
fn open_of_a_flipped_bit_fails() {
    let k = key(3);
    let enc = seal(&k, b"secret");
    for i in 0..enc.bytes.len() {
        let mut bytes = enc.bytes.clone();
        bytes[i] ^= 0x10;
        let tampered = Encrypted { nonce: enc.nonce.clone(), bytes };
        assert_eq!(open(&k, &tampered), Err(EnvelopeError::AuthenticationFailed));
    }
    let mut nonce = enc.nonce.clone();
    nonce[0] ^= 1;
    let renonced = Encrypted { nonce, bytes: enc.bytes.clone() };
    assert_eq!(open(&k, &renonced), Err(EnvelopeError::AuthenticationFailed));
}

#[test]
fn open_with_a_short_nonce_fails() {
    let k = key(3);
    let enc = seal(&k, b"x");
    let short = Encrypted { nonce: enc.nonce[..23].to_vec(), bytes: enc.bytes.clone() };
    assert_eq!(open(&k, &short), Err(EnvelopeError::AuthenticationFailed));
}

#[test]
fn two_seals_differ() {
    let k = key(4);
    let a = seal(&k, b"same");
    let b = seal(&k, b"same");
    assert_ne!(a.nonce, b.nonce);
    assert_ne!(a.bytes, b.bytes);
}

#[test]
fn armor_round_trip() {
    let k = key(5);
    let enc = seal(&k, b"hello");
    let text = armor(&enc);
    assert!(!text.contains(&b'\n'));
    let back = unarmor(&text).unwrap();
    assert_eq!(back.nonce, enc.nonce);
    assert_eq!(back.bytes, enc.bytes);
    let mut with_newlines = text.clone();
    with_newlines.extend_from_slice(b"\n\n");
    assert_eq!(decrypt(&k, &with_newlines).unwrap(), b"hello".to_vec());
}

#[test]
fn armor_is_base64_of_the_record() {
    let enc = Encrypted { nonce: vec![0u8; 24], bytes: vec![1, 30] };
    let text = armor(&enc);
    assert_eq!(text, base64::encode(write_record(&enc.nonce, &enc.bytes)).into_bytes());
}

#[test]
fn bad_armor_is_reported() {
    assert!(matches!(unarmor(b"not base64!"), Err(EnvelopeError::ArmorDecodeFailed)));
    assert_eq!(decrypt(&key(1), b"%%%%"), Err(EnvelopeError::ArmorDecodeFailed));
}

#[test]
fn bad_record_is_reported() {
    let text = base64::encode(b"just some bytes").into_bytes();
    assert!(matches!(unarmor(&text), Err(EnvelopeError::StructuralDecodeFailed)));
    assert_eq!(decrypt(&key(1), &text), Err(EnvelopeError::StructuralDecodeFailed));
}

#[test]
fn decrypt_with_wrong_key_is_reported() {
    let text = armor(&seal(&key(6), b"hello"));
    assert_eq!(decrypt(&key(7), &text), Err(EnvelopeError::AuthenticationFailed));
}

#[test]
fn trim_newline_strips_only_trailing_line_feeds() {
    assert_eq!(trim_newline(b"abc\n\n"), b"abc");
    assert_eq!(trim_newline(b"a\nb\n"), b"a\nb");
    assert_eq!(trim_newline(b"\n"), b"");
    assert_eq!(trim_newline(b""), b"");
    assert_eq!(trim_newline(b"abc\r\n"), b"abc\r");
}

#[test]
fn record_has_known_bytes() {
    let rec = write_record(&[0u8; 24], &[1, 30]);
    let mut expected = vec![0xa2, 0x65, b'n', b'o', b'n', b'c', b'e', 0x98, 0x18];
    expected.extend_from_slice(&[0u8; 24]);
    expected.extend_from_slice(&[0x65, b'b', b'y', b't', b'e', b's', 0x82, 0x01, 0x18, 0x1e]);
    assert_eq!(rec, expected);
}

#[test]
fn record_round_trip_for_many_lengths() {
    let nonce: Vec<u8> = (0..24u8).map(|i| i * 11).collect();
    for len in [0usize, 1, 23, 24, 255, 256, 300, 65535, 65536, 70000] {
        let bytes: Vec<u8> = (0..len).map(|i| (i * 7) as u8).collect();
        let rec = write_record(&nonce, &bytes);
        let (n, b) = read_record(&rec).unwrap();
        assert_eq!(n, nonce);
        assert_eq!(b, bytes);
        assert!(read_record(&rec[..rec.len() - 1]).is_none());
        let mut longer = rec.clone();
        longer.push(0);
        assert!(read_record(&longer).is_none());
    }
}

#[test]
fn record_matches_the_cbor_library() {
    let nonce: Vec<u8> = (0..24u8).map(|i| i * 10).collect();
    let bytes: Vec<u8> = (0..300u32).map(|i| (i % 256) as u8).collect();
    let rec = write_record(&nonce, &bytes);
    let value: serde_cbor::Value = serde_cbor::from_slice(&rec).unwrap();
    let map = match value {
        serde_cbor::Value::Map(m) => m,
        _ => panic!("not a map"),
    };
    assert_eq!(map.len(), 2);
    let ints = |key: &str| -> Vec<u8> {
        match &map[&serde_cbor::Value::Text(key.to_string())] {
            serde_cbor::Value::Array(items) => items
                .iter()
                .map(|v| match v {
                    serde_cbor::Value::Integer(n) => *n as u8,
                    _ => panic!("not an integer"),
                })
                .collect(),
            _ => panic!("not an array"),
        }
    };
    assert_eq!(ints("nonce"), nonce);
    assert_eq!(ints("bytes"), bytes);
    assert_eq!(serde_cbor::to_vec(&serde_cbor::Value::Map(map.clone())).unwrap().len(), rec.len());
}

#[test]
fn non_canonical_records_are_refused() {
    let mut rec = write_record(&[0u8; 24], &[5]);
    // the single item 5 written in its two-byte form
    let last = rec.len() - 1;
    rec[last] = 0x18;
    rec.push(5);
    let n = rec.len();
    rec[n - 3] = 0x81;
    assert!(read_record(&rec).is_none());
}

