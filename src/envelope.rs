//! The encryption envelope: XChaCha20-Poly1305 under a 32-byte key with a
//! fresh random 24-byte nonce, and its armor, the base64 text of the record
//! that holds the nonce and the ciphertext.
use crate::keyfile::ArmoredKey;
use crate::record::{read_record, record_of, write_record};
use chacha20poly1305::aead::Aead;
use chacha20poly1305::{AeadCore, Key, KeyInit, XChaCha20Poly1305, XNonce};
use vstd::prelude::*;

verus! {

/// Length of a nonce in bytes.
pub const NONCE_LEN: usize = 24;

/// Length of the authentication tag that ends every ciphertext.
pub const TAG_LEN: usize = 16;

/// Messages must be shorter than this, at most 2^32 - 2 blocks of 64 bytes:
/// the keystream starts at block 1 (block 0 keys the authenticator), and the
/// cipher's 32-bit block counter leaves no more.
pub const MAX_MESSAGE: u64 = 274877906817;

/// Why an envelope could not be opened.
#[derive(Debug, Clone, Copy, PartialEq, Eq, Structural)]
pub enum EnvelopeError {
    /// The armored text is not base64.
    ArmorDecodeFailed,
    /// The decoded bytes are not a record of a nonce and a ciphertext.
    StructuralDecodeFailed,
    /// The authentication tag does not verify under the key.
    AuthenticationFailed,
}

/// A nonce and the ciphertext, tag included, made with it.
pub struct Encrypted {
    pub nonce: Vec<u8>,
    pub bytes: Vec<u8>,
}

/// The XChaCha20-Poly1305 ciphertext, tag appended, of `msg` under `key` and `nonce`.
pub uninterp spec fn xchacha_seal(key: Seq<u8>, nonce: Seq<u8>, msg: Seq<u8>) -> Seq<u8>;

/// The standard, padded base64 text of `data`.
pub uninterp spec fn radix64_of(data: Seq<u8>) -> Seq<u8>;

/// What base64 decoding makes of `text`, if anything.
pub uninterp spec fn radix64_decoded(text: Seq<u8>) -> Option<Seq<u8>>;

/// Relies on `Aead::encrypt` of chacha20poly1305's `XChaCha20Poly1305`: it
/// succeeds below the length limit (longer messages make the keystream
/// panic or are refused), and appends the 16-byte tag to a ciphertext as long
/// as the message.
#[verifier::external_body]
fn aead_encrypt(key: &[u8], nonce: &[u8], msg: &[u8]) -> (r: Option<Vec<u8>>)
    requires
        key@.len() == 32,
        nonce@.len() == 24,
        msg@.len() < MAX_MESSAGE,
    ensures
        r is Some,
        r is Some ==> r->Some_0@ == xchacha_seal(key@, nonce@, msg@) && r->Some_0@.len()
            == msg@.len() + 16,
{
    let cipher = XChaCha20Poly1305::new(Key::from_slice(key));
    cipher.encrypt(XNonce::from_slice(nonce), msg).ok()
}

/// Relies on `Aead::decrypt` of chacha20poly1305's `XChaCha20Poly1305`: for
/// a ciphertext no longer than the tag plus the message limit (longer ones
/// can make the keystream panic), it returns a message only when the tag
/// verifies, that message is the ciphertext without its 16-byte tag, and
/// encrypting it again gives the ciphertext; the ciphertext of a message
/// below the limit decrypts to that message.
#[verifier::external_body]
fn aead_decrypt(key: &[u8], nonce: &[u8], ct: &[u8]) -> (r: Option<Vec<u8>>)
    requires
        key@.len() == 32,
        nonce@.len() == 24,
        ct@.len() < MAX_MESSAGE + 16,
    ensures
        r is Some ==> r->Some_0@.len() < MAX_MESSAGE && r->Some_0@.len() + 16 == ct@.len()
            && xchacha_seal(key@, nonce@, r->Some_0@) == ct@,
        forall|m: Seq<u8>|
            m.len() < MAX_MESSAGE && #[trigger] xchacha_seal(key@, nonce@, m) == ct@ ==> r is Some
                && r->Some_0@ == m,
{
    let cipher = XChaCha20Poly1305::new(Key::from_slice(key));
    cipher.decrypt(XNonce::from_slice(nonce), ct).ok()
}

/// Relies on `AeadCore::generate_nonce` with rand's `thread_rng`: 24 random bytes.
#[verifier::external_body]
fn random_nonce() -> (r: Vec<u8>)
    ensures
        r@.len() == 24,
{
    XChaCha20Poly1305::generate_nonce(&mut rand::thread_rng()).to_vec()
}

/// Relies on base64::encode: the standard padded base64 text of `data`, made
/// of letters, digits, '+', '/' and '='.
#[verifier::external_body]
fn radix64_encode(data: &[u8]) -> (r: Vec<u8>)
    ensures
        r@ == radix64_of(data@),
        forall|i: int| 0 <= i < r@.len() ==> #[trigger] r@[i] != 10u8,
{
    base64::encode(data).into_bytes()
}

/// Relies on base64::decode: the bytes that `text` encodes, or `None` where it
/// is not base64; the encoding of some bytes decodes to those bytes.
#[verifier::external_body]
fn radix64_decode(text: &[u8]) -> (r: Option<Vec<u8>>)
    ensures
        r is Some <==> radix64_decoded(text@) is Some,
        r is Some ==> radix64_decoded(text@) == Some(r->Some_0@),
        forall|d: Seq<u8>| #[trigger] radix64_of(d) == text@ ==> r is Some && r->Some_0@ == d,
{
    base64::decode(text).ok()
}

/// `m` under `key` and `nonce` encrypts to `ct`.
pub open spec fn seals(key: Seq<u8>, m: Seq<u8>, nonce: Seq<u8>, ct: Seq<u8>) -> bool {
    &&& nonce.len() == 24
    &&& m.len() < MAX_MESSAGE
    &&& ct.len() == m.len() + 16
    &&& ct == xchacha_seal(key, nonce, m)
}

/// What opening `ct` with `key` and `nonce` may give: a message that encrypts
/// to it, the message whenever one does, and otherwise an authentication failure.
pub open spec fn opened(key: Seq<u8>, nonce: Seq<u8>, ct: Seq<u8>, r: Result<Seq<u8>, EnvelopeError>) -> bool {
    &&& r is Ok ==> seals(key, r->Ok_0, nonce, ct)
    &&& r is Err ==> r->Err_0 == EnvelopeError::AuthenticationFailed
    &&& forall|m: Seq<u8>| #[trigger] seals(key, m, nonce, ct) ==> r == Ok::<Seq<u8>, EnvelopeError>(m)
}

pub open spec fn bytes_result_view(r: Result<Vec<u8>, EnvelopeError>) -> Result<Seq<u8>, EnvelopeError> {
    match r {
        Ok(v) => Ok(v@),
        Err(e) => Err(e),
    }
}

/// Encrypts `plaintext` under `key` with a fresh random nonce.
pub fn seal(key: &ArmoredKey, plaintext: &[u8]) -> (r: Encrypted)
    requires
        key.wf(),
        plaintext@.len() < MAX_MESSAGE,
    ensures
        seals(key@, plaintext@, r.nonce@, r.bytes@),
        r.bytes@.len() == plaintext@.len() + 16,
{
    let nonce = random_nonce();
    match aead_encrypt(key.bytes(), nonce.as_slice(), plaintext) {
        Some(bytes) => Encrypted { nonce, bytes },
        None => Encrypted { nonce, bytes: Vec::new() },
    }
}

/// Decrypts an envelope under `key`, checking its tag.
pub fn open(key: &ArmoredKey, enc: &Encrypted) -> (r: Result<Vec<u8>, EnvelopeError>)
    requires
        key.wf(),
    ensures
        opened(key@, enc.nonce@, enc.bytes@, bytes_result_view(r)),
{
    if enc.nonce.len() != NONCE_LEN || enc.bytes.len() as u64 >= MAX_MESSAGE + 16 {
        // no message below the limit seals to a ciphertext this long
        return Err(EnvelopeError::AuthenticationFailed);
    }
    match aead_decrypt(key.bytes(), enc.nonce.as_slice(), enc.bytes.as_slice()) {
        Some(m) => Ok(m),
        None => Err(EnvelopeError::AuthenticationFailed),
    }
}

/// `s` without the line feeds at its end.
pub open spec fn trimmed(s: Seq<u8>) -> Seq<u8>
    decreases s.len(),
{
    if s.len() > 0 && s.last() == 10u8 {
        trimmed(s.drop_last())
    } else {
        s
    }
}

/// The armored text of a nonce and a ciphertext.
pub open spec fn armored(nonce: Seq<u8>, bytes: Seq<u8>) -> Seq<u8> {
    radix64_of(record_of(nonce, bytes))
}

/// What reading armored text gives.
pub open spec fn unarmored(text: Seq<u8>) -> Result<(Seq<u8>, Seq<u8>), EnvelopeError> {
    match radix64_decoded(trimmed(text)) {
        None => Err(EnvelopeError::ArmorDecodeFailed),
        Some(d) => if exists|n: Seq<u8>, b: Seq<u8>| n.len() == 24 && d == #[trigger] record_of(n, b) {
            let (n, b) = choose|n: Seq<u8>, b: Seq<u8>| n.len() == 24 && d == #[trigger] record_of(n, b);
            Ok((n, b))
        } else {
            Err(EnvelopeError::StructuralDecodeFailed)
        },
    }
}

/// Reading `text` gives `r`, and armored text of a nonce and a ciphertext,
/// followed by line feeds or not, reads back as exactly them.
pub open spec fn unarmor_outcome(text: Seq<u8>, r: Result<(Seq<u8>, Seq<u8>), EnvelopeError>) -> bool {
    &&& r == unarmored(text)
    &&& forall|n: Seq<u8>, b: Seq<u8>| n.len() == 24 && trimmed(text) == #[trigger] armored(n, b)
        ==> r == Ok::<(Seq<u8>, Seq<u8>), EnvelopeError>((n, b))
}

pub open spec fn encrypted_result_view(r: Result<Encrypted, EnvelopeError>) -> Result<(Seq<u8>, Seq<u8>), EnvelopeError> {
    match r {
        Ok(e) => Ok((e.nonce@, e.bytes@)),
        Err(e) => Err(e),
    }
}

/// The slice without its trailing line feeds.
pub fn trim_newline(x: &[u8]) -> (r: &[u8])
    ensures
        r@ == trimmed(x@),
{
    let mut n: usize = x.len();
    assert(x@.take(n as int) =~= x@);
    while n > 0 && x[n - 1] == 10
        invariant
            n <= x@.len(),
            trimmed(x@) == trimmed(x@.take(n as int)),
        decreases n,
    {
        assert(x@.take(n as int).drop_last() =~= x@.take(n - 1));
        n -= 1;
    }
    assert(x@.take(n as int) =~= x@.subrange(0, n as int));
    &x[0..n]
}

proof fn lemma_trimmed_plain(s: Seq<u8>)
    requires
        forall|i: int| 0 <= i < s.len() ==> #[trigger] s[i] != 10u8,
    ensures
        trimmed(s) == s,
{
}

/// The armored text of an envelope, without a line feed at its end.
pub fn armor(enc: &Encrypted) -> (r: Vec<u8>)
    ensures
        r@ == armored(enc.nonce@, enc.bytes@),
        trimmed(r@) == r@,
{
    let rec = write_record(enc.nonce.as_slice(), enc.bytes.as_slice());
    let r = radix64_encode(rec.as_slice());
    proof {
        lemma_trimmed_plain(r@);
    }
    r
}

/// Reads an envelope back from its armored text.
pub fn unarmor(text: &[u8]) -> (r: Result<Encrypted, EnvelopeError>)
    ensures
        unarmor_outcome(text@, encrypted_result_view(r)),
        r is Ok ==> r->Ok_0.nonce@.len() == 24,
{
    let t = trim_newline(text);
    let data = match radix64_decode(t) {
        Some(d) => d,
        None => {
            return Err(EnvelopeError::ArmorDecodeFailed);
        },
    };
    match read_record(data.as_slice()) {
        Some((nonce, bytes)) => {
            proof {
                let d = data@;
                assert(exists|n: Seq<u8>, b: Seq<u8>| n.len() == 24 && d == #[trigger] record_of(n, b)) by {
                    assert(d == record_of(nonce@, bytes@));
                }
            }
            Ok(Encrypted { nonce, bytes })
        },
        None => Err(EnvelopeError::StructuralDecodeFailed),
    }
}

/// Opens the envelope whose armored text is `armored_text`.
pub fn decrypt(key: &ArmoredKey, armored_text: &[u8]) -> (r: Result<Vec<u8>, EnvelopeError>)
    requires
        key.wf(),
    ensures
        match unarmored(armored_text@) {
            Err(e) => r == Err::<Vec<u8>, EnvelopeError>(e),
            Ok((n, b)) => opened(key@, n, b, bytes_result_view(r)),
        },
        forall|n: Seq<u8>, b: Seq<u8>|
            n.len() == 24 && trimmed(armored_text@) == #[trigger] armored(n, b) ==> opened(
                key@,
                n,
                b,
                bytes_result_view(r),
            ),
{
    match unarmor(armored_text) {
        Ok(enc) => open(key, &enc),
        Err(e) => Err(e),
    }
}

// ----- laws -----

/// Opening what sealing a message made, with the same key, gives the message.
pub proof fn lemma_open_seal(
    key: Seq<u8>,
    m: Seq<u8>,
    nonce: Seq<u8>,
    ct: Seq<u8>,
    r: Result<Seq<u8>, EnvelopeError>,
)
    requires
        seals(key, m, nonce, ct),
        opened(key, nonce, ct, r),
    ensures
        r == Ok::<Seq<u8>, EnvelopeError>(m),
{
}

/// Opening never returns a message that the key and nonce do not encrypt to
/// the ciphertext: with another key, or another ciphertext, opening either
/// fails or gives a message that seals to exactly that ciphertext.
pub proof fn lemma_open_authentic(
    key: Seq<u8>,
    nonce: Seq<u8>,
    ct: Seq<u8>,
    r: Result<Seq<u8>, EnvelopeError>,
)
    requires
        opened(key, nonce, ct, r),
    ensures
        r is Ok ==> xchacha_seal(key, nonce, r->Ok_0) == ct,
        r is Err ==> r == Err::<Seq<u8>, EnvelopeError>(EnvelopeError::AuthenticationFailed),
        r is Err ==> forall|m: Seq<u8>| !#[trigger] seals(key, m, nonce, ct),
{
}

/// Reading the armored text of an envelope, with or without line feeds after
/// it, gives the envelope back.
pub proof fn lemma_unarmor_armor(
    nonce: Seq<u8>,
    bytes: Seq<u8>,
    text: Seq<u8>,
    r: Result<(Seq<u8>, Seq<u8>), EnvelopeError>,
)
    requires
        nonce.len() == 24,
        text == armored(nonce, bytes),
        trimmed(text) == text,
        unarmor_outcome(text, r),
    ensures
        r == Ok::<(Seq<u8>, Seq<u8>), EnvelopeError>((nonce, bytes)),
{
}

/// Decrypting the armored envelope that sealing a message made gives the message.
pub proof fn lemma_decrypt_sealed(
    key: Seq<u8>,
    m: Seq<u8>,
    nonce: Seq<u8>,
    ct: Seq<u8>,
    text: Seq<u8>,
    r: Result<Seq<u8>, EnvelopeError>,
)
    requires
        seals(key, m, nonce, ct),
        text == armored(nonce, ct),
        trimmed(text) == text,
        forall|n: Seq<u8>, b: Seq<u8>|
            n.len() == 24 && trimmed(text) == #[trigger] armored(n, b) ==> opened(key, n, b, r),
    ensures
        r == Ok::<Seq<u8>, EnvelopeError>(m),
{
    assert(opened(key, nonce, ct, r));
}

} // verus!
