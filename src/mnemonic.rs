//! The key mnemonic: a 32-byte key and an 8-bit checksum, read as 264 bits and
//! cut into 24 groups of 11 bits, each naming one word of a 2048-word dictionary.
//!
//! The dictionary is generated: word `i` has four letters, consonant, vowel,
//! consonant, vowel, taken from the bits of `i` (4, 2, 3 and 2 of them). The
//! checksum is the first byte of the key's SHA-256 digest.
use crate::bits::{bit_of, lemma_pack_bits, lemma_pack_value, pack};
use sha2::Digest;
use vstd::prelude::*;
use zeroize::Zeroize;

verus! {

/// Length of a key in bytes.
pub const KEY_LEN: usize = 32;

/// Number of words in a mnemonic.
pub const WORD_COUNT: usize = 24;

/// Why a mnemonic or a raw key was refused.
#[derive(Debug, Clone, Copy, PartialEq, Eq, Structural)]
pub enum CodecError {
    /// The mnemonic holds this many words instead of 24.
    WrongWordCount(usize),
    /// The word at this position is not in the dictionary.
    UnknownWord(usize),
    /// The checksum carried by the words does not match the key they carry.
    ChecksumMismatch,
    /// The raw key is not exactly 32 bytes long.
    WrongKeyLength,
}

/// The SHA-256 digest of a byte string.
pub uninterp spec fn sha256_of(data: Seq<u8>) -> Seq<u8>;

/// Relies on sha2::Sha256::digest: the 32-byte SHA-256 digest of `data`.
#[verifier::external_body]
fn sha256(data: &[u8]) -> (r: Vec<u8>)
    ensures
        r@ == sha256_of(data@),
        r@.len() == 32,
{
    sha2::Sha256::digest(data).to_vec()
}

/// Relies on zeroize's `Zeroize` for `Vec<u8>`: overwrites the contents and
/// the spare capacity with zeros and then clears the vector; it does not panic.
#[verifier::external_body]
pub(crate) fn wipe(buf: &mut Vec<u8>)
    ensures
        final(buf)@.len() == 0,
    opens_invariants none
    no_unwind
{
    buf.zeroize();
}

// ----- the dictionary -----

pub open spec fn consonant(k: u32) -> u8 {
    match k {
        0 => 98u8,
        1 => 100u8,
        2 => 102u8,
        3 => 103u8,
        4 => 104u8,
        5 => 106u8,
        6 => 107u8,
        7 => 108u8,
        8 => 109u8,
        9 => 110u8,
        10 => 112u8,
        11 => 114u8,
        12 => 115u8,
        13 => 116u8,
        14 => 118u8,
        _ => 122u8,
    }
}

/// Position of `c` among the 16 consonants, or 16 when it is none of them.
pub open spec fn consonant_index(c: u8) -> u32 {
    match c {
        98u8 => 0,
        100u8 => 1,
        102u8 => 2,
        103u8 => 3,
        104u8 => 4,
        106u8 => 5,
        107u8 => 6,
        108u8 => 7,
        109u8 => 8,
        110u8 => 9,
        112u8 => 10,
        114u8 => 11,
        115u8 => 12,
        116u8 => 13,
        118u8 => 14,
        122u8 => 15,
        _ => 16,
    }
}

pub open spec fn vowel(k: u32) -> u8 {
    match k {
        0 => 97u8,
        1 => 101u8,
        2 => 105u8,
        _ => 111u8,
    }
}

/// Position of `c` among the 4 vowels, or 4 when it is none of them.
pub open spec fn vowel_index(c: u8) -> u32 {
    match c {
        97u8 => 0,
        101u8 => 1,
        105u8 => 2,
        111u8 => 3,
        _ => 4,
    }
}

/// Dictionary word number `i` (for `i < 2048`).
pub open spec fn word_of(i: u32) -> Seq<u8> {
    seq![consonant(i >> 7u32), vowel((i >> 5u32) & 3u32), consonant((i >> 2u32) & 7u32), vowel(i & 3u32)]
}

/// The number of a dictionary word, or `None` for a word outside the dictionary.
pub open spec fn word_index(w: Seq<u8>) -> Option<u32> {
    if w.len() == 4 && consonant_index(w[0]) < 16 && vowel_index(w[1]) < 4
        && consonant_index(w[2]) < 8 && vowel_index(w[3]) < 4 {
        Some(
            (consonant_index(w[0]) << 7u32) | (vowel_index(w[1]) << 5u32) | (consonant_index(w[2])
                << 2u32) | vowel_index(w[3]),
        )
    } else {
        None
    }
}

fn consonant_exec(k: u32) -> (r: u8)
    requires
        k < 16,
    ensures
        r == consonant(k),
{
    match k {
        0 => 98u8,
        1 => 100u8,
        2 => 102u8,
        3 => 103u8,
        4 => 104u8,
        5 => 106u8,
        6 => 107u8,
        7 => 108u8,
        8 => 109u8,
        9 => 110u8,
        10 => 112u8,
        11 => 114u8,
        12 => 115u8,
        13 => 116u8,
        14 => 118u8,
        _ => 122u8,
    }
}

fn consonant_index_exec(c: u8) -> (r: u32)
    ensures
        r == consonant_index(c),
{
    match c {
        98u8 => 0,
        100u8 => 1,
        102u8 => 2,
        103u8 => 3,
        104u8 => 4,
        106u8 => 5,
        107u8 => 6,
        108u8 => 7,
        109u8 => 8,
        110u8 => 9,
        112u8 => 10,
        114u8 => 11,
        115u8 => 12,
        116u8 => 13,
        118u8 => 14,
        122u8 => 15,
        _ => 16,
    }
}

fn vowel_exec(k: u32) -> (r: u8)
    requires
        k < 4,
    ensures
        r == vowel(k),
{
    match k {
        0 => 97u8,
        1 => 101u8,
        2 => 105u8,
        _ => 111u8,
    }
}

fn vowel_index_exec(c: u8) -> (r: u32)
    ensures
        r == vowel_index(c),
{
    match c {
        97u8 => 0,
        101u8 => 1,
        105u8 => 2,
        111u8 => 3,
        _ => 4,
    }
}

/// The dictionary word with number `i`.
pub fn word(i: u32) -> (r: Vec<u8>)
    requires
        i < 2048,
    ensures
        r@ == word_of(i),
{
    assert((i >> 7u32) < 16 && ((i >> 5u32) & 3u32) < 4 && ((i >> 2u32) & 7u32) < 8
        && (i & 3u32) < 4) by (bit_vector)
        requires i < 2048;
    let mut r: Vec<u8> = Vec::new();
    r.push(consonant_exec(i >> 7));
    r.push(vowel_exec((i >> 5) & 3));
    r.push(consonant_exec((i >> 2) & 7));
    r.push(vowel_exec(i & 3));
    assert(r@ =~= word_of(i));
    r
}

/// The number of dictionary word `w`, if it is one.
pub fn lookup_word(w: &[u8]) -> (r: Option<u32>)
    ensures
        r == word_index(w@),
{
    if w.len() != 4 {
        return None;
    }
    let a = consonant_index_exec(w[0]);
    let b = vowel_index_exec(w[1]);
    let c = consonant_index_exec(w[2]);
    let d = vowel_index_exec(w[3]);
    if a < 16 && b < 4 && c < 8 && d < 4 {
        Some((a << 7) | (b << 5) | (c << 2) | d)
    } else {
        None
    }
}

/// Every number below 2048 names a word, and that word is looked up to it.
pub proof fn lemma_word_index_of_word(i: u32)
    requires
        i < 2048,
    ensures
        word_index(word_of(i)) == Some(i),
{
    let a = i >> 7u32;
    let b = (i >> 5u32) & 3u32;
    let c = (i >> 2u32) & 7u32;
    let d = i & 3u32;
    assert(a < 16 && b < 4 && c < 8 && d < 4 && ((a << 7u32) | (b << 5u32) | (c << 2u32) | d)
        == i) by (bit_vector)
        requires
            i < 2048,
            a == i >> 7u32,
            b == (i >> 5u32) & 3u32,
            c == (i >> 2u32) & 7u32,
            d == i & 3u32,
    ;
    assert(consonant_index(consonant(a)) == a);
    assert(vowel_index(vowel(b)) == b);
    assert(consonant_index(consonant(c)) == c);
    assert(vowel_index(vowel(d)) == d);
}

/// A word that is looked up to `i` is word number `i`, and `i < 2048`.
pub proof fn lemma_word_of_word_index(w: Seq<u8>)
    requires
        word_index(w) is Some,
    ensures
        word_index(w)->Some_0 < 2048,
        word_of(word_index(w)->Some_0) == w,
{
    let a = consonant_index(w[0]);
    let b = vowel_index(w[1]);
    let c = consonant_index(w[2]);
    let d = vowel_index(w[3]);
    let i = (a << 7u32) | (b << 5u32) | (c << 2u32) | d;
    assert(i < 2048 && i >> 7u32 == a && (i >> 5u32) & 3u32 == b && (i >> 2u32) & 7u32 == c && i
        & 3u32 == d) by (bit_vector)
        requires
            a < 16,
            b < 4,
            c < 8,
            d < 4,
            i == (a << 7u32) | (b << 5u32) | (c << 2u32) | d,
    ;
    assert(consonant(a) == w[0]);
    assert(vowel(b) == w[1]);
    assert(consonant(c) == w[2]);
    assert(vowel(d) == w[3]);
    assert(word_of(i) =~= w);
}


// ----- the bit stream -----

/// Bit `p` of a byte string, most significant bit of each byte first.
pub open spec fn byte_bit(bytes: Seq<u8>, p: int) -> u32 {
    ((bytes[p / 8] as u32) >> ((7 - p % 8) as u32)) & 1u32
}

pub open spec fn byte_bits(bytes: Seq<u8>) -> spec_fn(int) -> u32 {
    |p: int| byte_bit(bytes, p)
}

/// Bit `p` of a sequence of 11-bit word numbers, most significant bit first.
pub open spec fn index_bit(idx: Seq<u32>, p: int) -> u32 {
    (idx[p / 11] >> ((10 - p % 11) as u32)) & 1u32
}

pub open spec fn index_bits(idx: Seq<u32>) -> spec_fn(int) -> u32 {
    |p: int| index_bit(idx, p)
}

/// The checksum byte of a key.
pub open spec fn checksum_of(key: Seq<u8>) -> u8 {
    sha256_of(key)[0]
}

/// A key followed by its checksum byte: 33 bytes, 264 bits.
pub open spec fn framed(key: Seq<u8>) -> Seq<u8> {
    key.push(checksum_of(key))
}

/// The 24 word numbers that carry 33 framed bytes.
pub open spec fn indices_of(full: Seq<u8>) -> Seq<u32> {
    Seq::new(24, |j: int| pack(byte_bits(full), 11 * j, 11))
}

/// The 33 bytes carried by 24 word numbers.
pub open spec fn bytes_of(idx: Seq<u32>) -> Seq<u8> {
    Seq::new(33, |i: int| pack(index_bits(idx), 8 * i, 8) as u8)
}

/// The mnemonic of a 32-byte key.
pub open spec fn mnemonic_of(key: Seq<u8>) -> Seq<Seq<u8>> {
    indices_of(framed(key)).map_values(|i: u32| word_of(i))
}

/// Position of the first word from `j` on that is not in the dictionary.
pub open spec fn first_unknown(w: Seq<Seq<u8>>, j: nat) -> Option<nat>
    decreases w.len() - j,
{
    if j >= w.len() {
        None
    } else if word_index(w[j as int]) is None {
        Some(j)
    } else {
        first_unknown(w, j + 1)
    }
}

/// The word numbers of words that are all in the dictionary.
pub open spec fn indices_of_words(w: Seq<Seq<u8>>) -> Seq<u32> {
    w.map_values(|x: Seq<u8>| word_index(x)->Some_0)
}

/// What decoding a mnemonic gives.
pub open spec fn decoded(w: Seq<Seq<u8>>) -> Result<Seq<u8>, CodecError> {
    if w.len() != 24 {
        Err(CodecError::WrongWordCount(w.len() as usize))
    } else {
        match first_unknown(w, 0) {
            Some(j) => Err(CodecError::UnknownWord(j as usize)),
            None => {
                let full = bytes_of(indices_of_words(w));
                if checksum_of(full.take(32)) == full[32] {
                    Ok(full.take(32))
                } else {
                    Err(CodecError::ChecksumMismatch)
                }
            },
        }
    }
}

pub open spec fn key_result_view(r: Result<Vec<u8>, CodecError>) -> Result<Seq<u8>, CodecError> {
    match r {
        Ok(v) => Ok(v@),
        Err(e) => Err(e),
    }
}

proof fn lemma_byte_bits_small(bytes: Seq<u8>)
    ensures
        forall|p: int| #[trigger] byte_bit(bytes, p) <= 1,
{
    assert forall|p: int| #[trigger] byte_bit(bytes, p) <= 1 by {
        let x = bytes[p / 8] as u32;
        let s = (7 - p % 8) as u32;
        assert((x >> s) & 1u32 <= 1) by (bit_vector);
    }
}

proof fn lemma_index_bits_small(idx: Seq<u32>)
    ensures
        forall|p: int| #[trigger] index_bit(idx, p) <= 1,
{
    assert forall|p: int| #[trigger] index_bit(idx, p) <= 1 by {
        let x = idx[p / 11];
        let s = (10 - p % 11) as u32;
        assert((x >> s) & 1u32 <= 1) by (bit_vector);
    }
}

/// The mnemonic of a key, as 24 words.
pub fn encode(key: &[u8]) -> (r: Result<Vec<Vec<u8>>, CodecError>)
    ensures
        key@.len() == 32 ==> r is Ok && r->Ok_0.deep_view() == mnemonic_of(key@),
        key@.len() != 32 ==> r == Err::<Vec<Vec<u8>>, CodecError>(CodecError::WrongKeyLength),
{
    if key.len() != KEY_LEN {
        return Err(CodecError::WrongKeyLength);
    }
    let mut digest = sha256(key);
    let mut full: Vec<u8> = Vec::new();
    let mut i: usize = 0;
    while i < KEY_LEN
        invariant
            i <= 32,
            key@.len() == 32,
            full@ == key@.take(i as int),
        decreases 32 - i,
    {
        full.push(key[i]);
        i += 1;
        assert(full@ =~= key@.take(i as int));
    }
    full.push(digest[0]);
    wipe(&mut digest);
    assert(full@ =~= framed(key@));
    let ghost f = byte_bits(full@);
    proof {
        lemma_byte_bits_small(full@);
    }
    let mut words: Vec<Vec<u8>> = Vec::new();
    let mut j: usize = 0;
    while j < WORD_COUNT
        invariant
            j <= 24,
            key@.len() == 32,
            full@ == framed(key@),
            f == byte_bits(full@),
            forall|p: int| #[trigger] byte_bit(full@, p) <= 1,
            words@.len() == j,
            words.deep_view() == mnemonic_of(key@).take(j as int),
        decreases 24 - j,
    {
        let mut acc: u32 = 0;
        let mut t: usize = 0;
        while t < 11
            invariant
                t <= 11,
                j < 24,
                key@.len() == 32,
                full@ == framed(key@),
                f == byte_bits(full@),
                acc == pack(f, 11 * j, t as nat),
            decreases 11 - t,
        {
            let p: usize = 11 * j + t;
            let b: u32 = ((full[p / 8] as u32) >> ((7 - p % 8) as u32)) & 1;
            assert(b == f(11 * j + t));
            acc = (acc << 1) | b;
            t += 1;
        }
        proof {
            lemma_pack_bits(f, 11 * j, 11);
            assert((1u32 << 11u32) == 2048) by (bit_vector);
        }
        let w = word(acc);
        let ghost wv = w@;
        let ghost before = words@;
        assert(w.deep_view() =~= w@);
        words.push(w);
        assert forall|k: int| 0 <= k <= j implies #[trigger] words.deep_view()[k] == mnemonic_of(
            key@,
        ).take(j + 1)[k] by {
            if k < j {
                assert(words@[k] == before[k]);
            } else {
                assert(words@[k]@ == wv);
                assert(words@[k].deep_view() =~= wv);
            }
        }
        assert(words.deep_view() =~= mnemonic_of(key@).take(j + 1));
        j += 1;
    }
    wipe(&mut full);
    assert(mnemonic_of(key@).take(24) =~= mnemonic_of(key@));
    Ok(words)
}

/// The key carried by a mnemonic of 24 words, once its checksum is checked.
pub fn decode(words: &Vec<Vec<u8>>) -> (r: Result<Vec<u8>, CodecError>)
    ensures
        key_result_view(r) == decoded(words.deep_view()),
{
    let ghost w = words.deep_view();
    if words.len() != WORD_COUNT {
        return Err(CodecError::WrongWordCount(words.len()));
    }
    let mut j: usize = 0;
    while j < WORD_COUNT
        invariant
            j <= 24,
            w == words.deep_view(),
            w.len() == 24,
            first_unknown(w, 0) == first_unknown(w, j as nat),
        decreases 24 - j,
    {
        assert(words[j as int]@ == w[j as int]);
        if lookup_word(words[j].as_slice()).is_none() {
            return Err(CodecError::UnknownWord(j));
        }
        j += 1;
    }
    // the word numbers are looked up again bit by bit rather than kept in a buffer
    let ghost idx = indices_of_words(w);
    proof {
        lemma_known_when_none(w, 0);
        assert forall|k: int| 0 <= k < 24 implies #[trigger] word_index(w[k]) == Some(idx[k]) by {}
        lemma_index_bits_small(idx);
    }
    let ghost f = index_bits(idx);
    let mut full: Vec<u8> = Vec::new();
    let mut i: usize = 0;
    while i < 33
        invariant
            i <= 33,
            w == words.deep_view(),
            w.len() == 24,
            idx == indices_of_words(w),
            idx.len() == 24,
            forall|k: int| 0 <= k < 24 ==> #[trigger] word_index(w[k]) == Some(idx[k]),
            f == index_bits(idx),
            forall|p: int| #[trigger] index_bit(idx, p) <= 1,
            full@ == bytes_of(idx).take(i as int),
        decreases 33 - i,
    {
        let mut acc: u32 = 0;
        let mut t: usize = 0;
        while t < 8
            invariant
                t <= 8,
                i < 33,
                w == words.deep_view(),
                w.len() == 24,
                idx.len() == 24,
                forall|k: int| 0 <= k < 24 ==> #[trigger] word_index(w[k]) == Some(idx[k]),
                f == index_bits(idx),
                acc == pack(f, 8 * i, t as nat),
            decreases 8 - t,
        {
            let p: usize = 8 * i + t;
            assert(words[(p / 11) as int]@ == w[(p / 11) as int]);
            let n: u32 = match lookup_word(words[p / 11].as_slice()) {
                Some(n) => n,
                None => 0,
            };
            let b: u32 = (n >> ((10 - p % 11) as u32)) & 1;
            assert(b == f(8 * i + t));
            acc = (acc << 1) | b;
            t += 1;
        }
        proof {
            lemma_pack_bits(f, 8 * i, 8);
            assert((1u32 << 8u32) == 256) by (bit_vector);
        }
        full.push(acc as u8);
        assert(full@ =~= bytes_of(idx).take(i + 1));
        i += 1;
    }
    assert(full@ =~= bytes_of(idx));
    let mut key: Vec<u8> = Vec::new();
    let mut k: usize = 0;
    while k < KEY_LEN
        invariant
            k <= 32,
            full@.len() == 33,
            key@ == full@.take(k as int),
        decreases 32 - k,
    {
        key.push(full[k]);
        k += 1;
        assert(key@ =~= full@.take(k as int));
    }
    let mut digest = sha256(key.as_slice());
    let matches = digest[0] == full[32];
    wipe(&mut digest);
    wipe(&mut full);
    if matches {
        Ok(key)
    } else {
        wipe(&mut key);
        Err(CodecError::ChecksumMismatch)
    }
}


// ----- laws -----

proof fn lemma_all_known(w: Seq<Seq<u8>>, j: nat)
    requires
        j <= w.len(),
        forall|k: int| j <= k < w.len() ==> #[trigger] word_index(w[k]) is Some,
    ensures
        first_unknown(w, j) is None,
    decreases w.len() - j,
{
    if j < w.len() {
        lemma_all_known(w, j + 1);
    }
}

proof fn lemma_known_when_none(w: Seq<Seq<u8>>, j: nat)
    requires
        j <= w.len(),
        first_unknown(w, j) is None,
    ensures
        forall|k: int| j <= k < w.len() ==> #[trigger] word_index(w[k]) is Some,
    decreases w.len() - j,
{
    if j < w.len() {
        lemma_known_when_none(w, j + 1);
    }
}

/// The bits of the word numbers of 33 bytes are the bits of those bytes.
proof fn lemma_bits_of_indices(full: Seq<u8>)
    requires
        full.len() == 33,
    ensures
        forall|j: int| 0 <= j < 24 ==> #[trigger] indices_of(full)[j] < 2048,
        forall|p: int| 0 <= p < 264 ==> #[trigger] index_bit(indices_of(full), p) == byte_bit(full, p),
{
    let idx = indices_of(full);
    let f = byte_bits(full);
    lemma_byte_bits_small(full);
    assert((1u32 << 11u32) == 2048) by (bit_vector);
    assert forall|j: int| 0 <= j < 24 implies #[trigger] idx[j] < 2048 by {
        lemma_pack_bits(f, 11 * j, 11);
    }
    assert forall|p: int| 0 <= p < 264 implies #[trigger] index_bit(idx, p) == byte_bit(full, p) by {
        let j = p / 11;
        let t = p % 11;
        lemma_pack_bits(f, 11 * j, 11);
        assert(bit_of(idx[j], 11, t) == f(11 * j + t));
        assert(11 * j + t == p);
    }
}

/// The bits of the bytes of 24 word numbers are the bits of those numbers.
proof fn lemma_bits_of_bytes(idx: Seq<u32>)
    requires
        idx.len() == 24,
    ensures
        forall|p: int| 0 <= p < 264 ==> #[trigger] byte_bit(bytes_of(idx), p) == index_bit(idx, p),
{
    let full = bytes_of(idx);
    let f = index_bits(idx);
    lemma_index_bits_small(idx);
    assert((1u32 << 8u32) == 256) by (bit_vector);
    assert forall|p: int| 0 <= p < 264 implies #[trigger] byte_bit(full, p) == index_bit(idx, p) by {
        let i = p / 8;
        let t = p % 8;
        lemma_pack_bits(f, 8 * i, 8);
        let v = pack(f, 8 * i, 8);
        assert(v < 256);
        assert((v as u8) as u32 == v);
        assert(bit_of(v, 8, t) == f(8 * i + t));
        assert(8 * i + t == p);
    }
}

/// Decoding the mnemonic of a key gives the key back.
pub proof fn lemma_decode_encode(key: Seq<u8>)
    requires
        key.len() == 32,
    ensures
        decoded(mnemonic_of(key)) == Ok::<Seq<u8>, CodecError>(key),
{
    let full = framed(key);
    let idx = indices_of(full);
    let w = mnemonic_of(key);
    lemma_bits_of_indices(full);
    assert forall|j: int| 0 <= j < 24 implies #[trigger] word_index(w[j]) == Some(idx[j]) by {
        lemma_word_index_of_word(idx[j]);
    }
    lemma_all_known(w, 0);
    assert(indices_of_words(w) =~= idx);
    assert((1u32 << 8u32) == 256) by (bit_vector);
    assert forall|i: int| 0 <= i < 33 implies #[trigger] bytes_of(idx)[i] == full[i] by {
        let v = full[i] as u32;
        assert forall|t: int| 0 <= t < 8 implies #[trigger] index_bits(idx)(8 * i + t) == bit_of(
            v,
            8,
            t,
        ) by {
            assert(index_bit(idx, 8 * i + t) == byte_bit(full, 8 * i + t));
            assert((8 * i + t) / 8 == i && (8 * i + t) % 8 == t);
        }
        assert(v < 256);
        lemma_pack_value(index_bits(idx), 8 * i, 8, v);
    }
    assert(bytes_of(idx) =~= full);
    assert(full.take(32) =~= key);
}

/// Encoding the key that a mnemonic decodes to gives that mnemonic back.
pub proof fn lemma_encode_decode(w: Seq<Seq<u8>>)
    requires
        decoded(w) is Ok,
    ensures
        mnemonic_of(decoded(w)->Ok_0) == w,
{
    let idx = indices_of_words(w);
    let full = bytes_of(idx);
    let key = full.take(32);
    lemma_known_when_none(w, 0);
    assert forall|j: int| 0 <= j < 24 implies #[trigger] idx[j] < 2048 && word_of(idx[j]) == w[j] by {
        lemma_word_of_word_index(w[j]);
    }
    assert(framed(key) =~= full);
    lemma_bits_of_bytes(idx);
    lemma_byte_bits_small(full);
    assert((1u32 << 11u32) == 2048) by (bit_vector);
    assert forall|j: int| 0 <= j < 24 implies #[trigger] indices_of(full)[j] == idx[j] by {
        assert forall|t: int| 0 <= t < 11 implies #[trigger] byte_bits(full)(11 * j + t) == bit_of(
            idx[j],
            11,
            t,
        ) by {
            assert(byte_bit(full, 11 * j + t) == index_bit(idx, 11 * j + t));
            assert((11 * j + t) / 11 == j && (11 * j + t) % 11 == t);
        }
        lemma_pack_value(byte_bits(full), 11 * j, 11, idx[j]);
    }
    assert(mnemonic_of(key) =~= w);
}

/// Two different mnemonics never decode to the same key: changing any word of
/// a valid mnemonic either makes it fail to decode or changes the key.
pub proof fn lemma_decode_injective(w1: Seq<Seq<u8>>, w2: Seq<Seq<u8>>)
    requires
        decoded(w1) is Ok,
        decoded(w2) is Ok,
        w1 != w2,
    ensures
        decoded(w1)->Ok_0 != decoded(w2)->Ok_0,
{
    lemma_encode_decode(w1);
    lemma_encode_decode(w2);
}

} // verus!
