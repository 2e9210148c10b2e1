use classified::keyfile::{join_words, split_words, ArmoredKey};
use classified::mnemonic::{decode, encode, lookup_word, word, CodecError};

fn chars(text: &[u8]) -> Vec<char> {
    text.iter().map(|b| *b as char).collect()
}

fn sample_key(seed: u8) -> Vec<u8> {
    (0..32u8).map(|i| i.wrapping_mul(37).wrapping_add(seed)).collect()
}

#[test]
fn zero_key_has_known_words() {
    let words = encode(&[0u8; 32]).unwrap();
    assert_eq!(words.len(), 24);
    for w in &words[..23] {
        assert_eq!(w.as_slice(), b"baba");
    }
    // the checksum byte of the zero key is 0x66, the first byte of its SHA-256 digest
    assert_eq!(words[23].as_slice(), b"bodi");
}

#[test]
fn decode_inverts_encode() {
    for seed in [0u8, 1, 77, 200, 255] {
        let key = sample_key(seed);
        let words = encode(&key).unwrap();
        assert_eq!(decode(&words).unwrap(), key);
    }
    let ones = vec![0xffu8; 32];
    assert_eq!(decode(&encode(&ones).unwrap()).unwrap(), ones);
}

#[test]
fn encode_inverts_decode() {
    let words = encode(&sample_key(9)).unwrap();
    let key = decode(&words).unwrap();
    assert_eq!(encode(&key).unwrap(), words);
}

#[test]
fn wrong_key_length_is_refused() {
    assert_eq!(encode(&[1u8; 31]), Err(CodecError::WrongKeyLength));
    assert_eq!(encode(&[1u8; 33]), Err(CodecError::WrongKeyLength));
}

#[test]
fn wrong_word_count_is_refused() {
    let mut words = encode(&sample_key(3)).unwrap();
    words.pop();
    assert_eq!(decode(&words), Err(CodecError::WrongWordCount(23)));
    assert_eq!(decode(&Vec::new()), Err(CodecError::WrongWordCount(0)));
}

#[test]
fn unknown_word_reports_its_position() {
    let mut words = encode(&sample_key(4)).unwrap();
    words[3] = b"zzzz".to_vec();
    words[7] = b"hello".to_vec();
    assert_eq!(decode(&words), Err(CodecError::UnknownWord(3)));
}

#[test]
fn changing_one_word_is_detected() {
    let key = sample_key(5);
    let words = encode(&key).unwrap();
    for pos in 0..24 {
        for delta in [1u32, 2, 1000] {
            let mut changed = words.clone();
            let n = lookup_word(&changed[pos]).unwrap();
            changed[pos] = word((n + delta) % 2048);
            match decode(&changed) {
                Err(e) => assert_eq!(e, CodecError::ChecksumMismatch),
                Ok(other) => assert_ne!(other, key),
            }
        }
    }
}

#[test]
fn dictionary_words_look_up_to_their_numbers() {
    for i in 0..2048u32 {
        let w = word(i);
        assert_eq!(w.len(), 4);
        assert_eq!(lookup_word(&w), Some(i));
    }
    assert_eq!(lookup_word(b"bab"), None);
    assert_eq!(lookup_word(b"aaaa"), None);
}

#[test]
fn key_text_round_trip() {
    let key = ArmoredKey::new(sample_key(11));
    let text = key.to_text();
    assert_eq!(text.iter().filter(|c| **c == b' ').count(), 23);
    let back = ArmoredKey::from_text(&chars(&text)).unwrap();
    assert_eq!(back.bytes(), key.bytes());
}

#[test]
fn key_text_accepts_any_whitespace() {
    let key = ArmoredKey::new(sample_key(12));
    let text = key.to_text();
    let spaced: Vec<u8> = text
        .iter()
        .flat_map(|c| if *c == b' ' { b"\n\t ".to_vec() } else { vec![*c] })
        .collect();
    let mut framed = b"  \n".to_vec();
    framed.extend_from_slice(&spaced);
    framed.extend_from_slice(b"\r\n");
    assert_eq!(ArmoredKey::from_text(&chars(&framed)).unwrap().bytes(), key.bytes());
}

#[test]
fn key_text_with_too_few_words_is_refused() {
    assert!(matches!(
        ArmoredKey::from_text(&chars(b"baba baba")),
        Err(CodecError::WrongWordCount(2))
    ));
}

#[test]
fn split_and_join() {
    let words = split_words(&chars(b"  ab\tc\n\nd "));
    assert_eq!(words, vec![b"ab".to_vec(), b"c".to_vec(), b"d".to_vec()]);
    assert_eq!(join_words(&words), b"ab c d".to_vec());
    assert!(split_words(&chars(b" \n ")).is_empty());
}

#[test]
fn generated_keys_differ() {
    let a = ArmoredKey::generate();
    let b = ArmoredKey::generate();
    assert_eq!(a.bytes().len(), 32);
    assert_ne!(a.bytes(), b.bytes());
}

#[test]
fn released_key_is_forgotten() {
    let mut key = ArmoredKey::new(sample_key(13));
    assert_eq!(key.bytes().len(), 32);
    key.release();
    assert!(key.bytes().is_empty());
}

#[test]
fn key_text_splits_at_unicode_spaces() {
    let key = ArmoredKey::new(sample_key(14));
    let text = String::from_utf8(key.to_text()).unwrap();
    let spaced: Vec<char> = text
        .chars()
        .flat_map(|c| if c == ' ' { vec!['\u{a0}', '\u{2003}'] } else { vec![c] })
        .collect();
    assert_eq!(ArmoredKey::from_text(&spaced).unwrap().bytes(), key.bytes());
    let words = split_words(&"ab\u{3000}cd\u{85}e".chars().collect::<Vec<_>>());
    assert_eq!(words, vec![b"ab".to_vec(), b"cd".to_vec(), b"e".to_vec()]);
}

#[test]
fn non_ascii_letter_makes_a_word_unknown() {
    let key = ArmoredKey::new(sample_key(15));
    let mut text: Vec<char> = String::from_utf8(key.to_text()).unwrap().chars().collect();
    text[0] = '\u{e9}';
    assert!(matches!(ArmoredKey::from_text(&text), Err(CodecError::UnknownWord(0))));
}
