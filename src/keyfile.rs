//! A key as it is stored in a key file: its 24 mnemonic words, separated by
//! whitespace. The file is read as characters and split at every Unicode
//! white space character; a character outside ASCII inside a word makes the
//! word unknown to the dictionary.
use crate::mnemonic::{decode, decoded, encode, lemma_decode_encode, mnemonic_of, wipe, CodecError};
use chacha20poly1305::{KeyInit, XChaCha20Poly1305};
use vstd::prelude::*;

verus! {

/// The characters with the Unicode White_Space property, those that
/// `char::is_whitespace` accepts.
pub open spec fn is_space(c: char) -> bool {
    let u = c as u32;
    (9 <= u <= 13) || u == 32 || u == 0x85 || u == 0xA0 || u == 0x1680 || (0x2000 <= u <= 0x200A)
        || u == 0x2028 || u == 0x2029 || u == 0x202F || u == 0x205F || u == 0x3000
}

/// The byte that stands for a character inside a word: itself for ASCII, and
/// 255, which no word holds, for any other.
pub open spec fn byte_of(c: char) -> u8 {
    if (c as u32) < 128 {
        (c as u32) as u8
    } else {
        255u8
    }
}

/// The characters of ASCII bytes.
pub open spec fn chars_of(s: Seq<u8>) -> Seq<char> {
    s.map_values(|b: u8| b as char)
}

/// The words finished so far and the word being read, after reading `text`.
pub open spec fn split_state(text: Seq<char>) -> (Seq<Seq<u8>>, Seq<u8>)
    decreases text.len(),
{
    if text.len() == 0 {
        (Seq::empty(), Seq::empty())
    } else {
        let (ws, cur) = split_state(text.drop_last());
        let c = text.last();
        if is_space(c) {
            if cur.len() > 0 {
                (ws.push(cur), Seq::empty())
            } else {
                (ws, cur)
            }
        } else {
            (ws, cur.push(byte_of(c)))
        }
    }
}

/// The maximal runs of non-whitespace characters of `text`, in order.
pub open spec fn words_of(text: Seq<char>) -> Seq<Seq<u8>> {
    let (ws, cur) = split_state(text);
    if cur.len() > 0 {
        ws.push(cur)
    } else {
        ws
    }
}

/// Words joined by single spaces.
pub open spec fn joined(ws: Seq<Seq<u8>>) -> Seq<u8>
    decreases ws.len(),
{
    if ws.len() == 0 {
        Seq::empty()
    } else if ws.len() == 1 {
        ws[0]
    } else {
        joined(ws.drop_last()).push(32u8) + ws.last()
    }
}

fn is_space_exec(c: char) -> (r: bool)
    ensures
        r == is_space(c),
{
    let u = c as u32;
    (9 <= u && u <= 13) || u == 32 || u == 0x85 || u == 0xA0 || u == 0x1680 || (0x2000 <= u && u
        <= 0x200A) || u == 0x2028 || u == 0x2029 || u == 0x202F || u == 0x205F || u == 0x3000
}

fn byte_of_exec(c: char) -> (r: u8)
    ensures
        r == byte_of(c),
{
    let u = c as u32;
    if u < 128 {
        u as u8
    } else {
        255
    }
}

/// Splits `text` at whitespace into its words.
pub fn split_words(text: &[char]) -> (r: Vec<Vec<u8>>)
    ensures
        r.deep_view() == words_of(text@),
{
    let mut ws: Vec<Vec<u8>> = Vec::new();
    let mut cur: Vec<u8> = Vec::new();
    let mut i: usize = 0;
    while i < text.len()
        invariant
            i <= text@.len(),
            (ws.deep_view(), cur@) == split_state(text@.take(i as int)),
        decreases text@.len() - i,
    {
        assert(text@.take(i + 1).drop_last() =~= text@.take(i as int));
        let c = text[i];
        if is_space_exec(c) {
            if cur.len() > 0 {
                let ghost before = ws.deep_view();
                let ghost cv = cur@;
                assert(cur.deep_view() =~= cur@);
                ws.push(cur);
                assert(ws.deep_view() =~= before.push(cv)) by {
                    assert(ws@.last().deep_view() =~= cv);
                }
                cur = Vec::new();
            }
        } else {
            cur.push(byte_of_exec(c));
        }
        i += 1;
    }
    assert(text@.take(text@.len() as int) =~= text@);
    if cur.len() > 0 {
        let ghost before = ws.deep_view();
        let ghost cv = cur@;
        assert(cur.deep_view() =~= cur@);
        ws.push(cur);
        assert(ws.deep_view() =~= before.push(cv)) by {
            assert(ws@.last().deep_view() =~= cv);
        }
    }
    ws
}

/// Joins words with single spaces.
pub fn join_words(ws: &Vec<Vec<u8>>) -> (r: Vec<u8>)
    ensures
        r@ == joined(ws.deep_view()),
{
    let ghost w = ws.deep_view();
    let mut out: Vec<u8> = Vec::new();
    let mut j: usize = 0;
    while j < ws.len()
        invariant
            j <= ws@.len(),
            w == ws.deep_view(),
            out@ == joined(w.take(j as int)),
        decreases ws@.len() - j,
    {
        assert(w.take(j + 1).drop_last() =~= w.take(j as int));
        assert(ws@[j as int]@ == w[j as int]);
        if j > 0 {
            out.push(32);
        }
        let mut k: usize = 0;
        let ghost start = out@;
        while k < ws[j].len()
            invariant
                j < ws@.len(),
                k <= ws@[j as int]@.len(),
                out@ == start + ws@[j as int]@.take(k as int),
            decreases ws@[j as int]@.len() - k,
        {
            out.push(ws[j][k]);
            k += 1;
            assert(out@ =~= start + ws@[j as int]@.take(k as int));
        }
        assert(ws@[j as int]@.take(k as int) =~= ws@[j as int]@);
        if j == 0 {
            assert(out@ =~= joined(w.take(1)));
        }
        j += 1;
    }
    assert(w.take(ws@.len() as int) =~= w);
    out
}

/// Relies on `KeyInit::generate_key` of chacha20poly1305's
/// `XChaCha20Poly1305` with rand's `thread_rng`: 32 random bytes.
#[verifier::external_body]
fn random_key() -> (r: Vec<u8>)
    ensures
        r@.len() == 32,
{
    XChaCha20Poly1305::generate_key(&mut rand::thread_rng()).to_vec()
}

/// Wipes every word of a list of words, and empties the list.
fn wipe_words(ws: &mut Vec<Vec<u8>>)
    ensures
        final(ws)@.len() == 0,
{
    while ws.len() > 0
        decreases ws@.len(),
    {
        match ws.pop() {
            Some(mut w) => wipe(&mut w),
            None => {},
        }
    }
}

/// A 32-byte key.
pub struct ArmoredKey {
    inner: Vec<u8>,
}

impl View for ArmoredKey {
    type V = Seq<u8>;

    closed spec fn view(&self) -> Seq<u8> {
        self.inner@
    }
}

impl Drop for ArmoredKey {
    /// The key bytes are overwritten with zeros when the key goes away.
    fn drop(&mut self)
        opens_invariants none
        no_unwind
    {
        wipe(&mut self.inner);
    }
}

impl ArmoredKey {
    pub open spec fn wf(&self) -> bool {
        self@.len() == 32
    }

    /// Wraps 32 key bytes.
    pub fn new(inner: Vec<u8>) -> (r: Self)
        requires
            inner@.len() == 32,
        ensures
            r@ == inner@,
            r.wf(),
    {
        ArmoredKey { inner }
    }

    /// A fresh random key.
    pub fn generate() -> (r: Self)
        ensures
            r.wf(),
    {
        ArmoredKey { inner: random_key() }
    }

    /// The key bytes.
    pub fn bytes(&self) -> (r: &[u8])
        ensures
            r@ == self@,
    {
        self.inner.as_slice()
    }

    /// Overwrites the key bytes with zeros and forgets them.
    pub fn release(&mut self)
        ensures
            final(self)@.len() == 0,
    {
        wipe(&mut self.inner);
    }

    /// Reads a key from the text of a key file: exactly 24 whitespace-separated
    /// dictionary words whose checksum matches.
    pub fn from_text(text: &[char]) -> (r: Result<Self, CodecError>)
        ensures
            r is Ok ==> r->Ok_0.wf() && decoded(words_of(text@)) == Ok::<Seq<u8>, CodecError>(
                r->Ok_0@,
            ),
            r is Err ==> decoded(words_of(text@)) == Err::<Seq<u8>, CodecError>(r->Err_0),
    {
        let mut words = split_words(text);
        let r = decode(&words);
        wipe_words(&mut words);
        match r {
            Ok(inner) => Ok(ArmoredKey { inner }),
            Err(e) => Err(e),
        }
    }

    /// The text of the key's file: its 24 mnemonic words separated by spaces.
    pub fn to_text(&self) -> (r: Vec<u8>)
        requires
            self.wf(),
        ensures
            r@ == joined(mnemonic_of(self@)),
    {
        match encode(self.inner.as_slice()) {
            Ok(mut words) => {
                let text = join_words(&words);
                wipe_words(&mut words);
                text
            },
            Err(_) => Vec::new(),
        }
    }
}


// ----- laws -----

/// A word: at least one byte, and only ASCII bytes that are not whitespace.
pub open spec fn is_word(w: Seq<u8>) -> bool {
    w.len() > 0 && forall|i: int| 0 <= i < w.len() ==> #[trigger] w[i] < 128 && !is_space(w[i] as char)
}

proof fn lemma_split_append_word(s: Seq<char>, w: Seq<u8>)
    requires
        forall|i: int| 0 <= i < w.len() ==> #[trigger] w[i] < 128 && !is_space(w[i] as char),
    ensures
        split_state(s + chars_of(w)) == (split_state(s).0, split_state(s).1 + w),
    decreases w.len(),
{
    if w.len() == 0 {
        assert(s + chars_of(w) =~= s);
        assert(split_state(s).1 + w =~= split_state(s).1);
    } else {
        let d = w.drop_last();
        lemma_split_append_word(s, d);
        let b = w.last();
        assert(w[w.len() - 1] < 128 && !is_space(w[w.len() - 1] as char));
        assert((s + chars_of(w)).drop_last() =~= s + chars_of(d));
        assert((s + chars_of(w)).last() == b as char);
        assert(byte_of(b as char) == b);
        assert(d.push(b) =~= w);
        assert((split_state(s).1 + d).push(b) =~= split_state(s).1 + w);
    }
}

proof fn lemma_split_joined(ws: Seq<Seq<u8>>)
    requires
        ws.len() > 0,
        forall|j: int| 0 <= j < ws.len() ==> #[trigger] is_word(ws[j]),
    ensures
        split_state(chars_of(joined(ws))) == (ws.drop_last(), ws.last()),
    decreases ws.len(),
{
    if ws.len() == 1 {
        assert(is_word(ws[0]));
        lemma_split_append_word(Seq::empty(), ws[0]);
        assert(Seq::<char>::empty() + chars_of(ws[0]) =~= chars_of(ws[0]));
        assert(Seq::<u8>::empty() + ws[0] =~= ws[0]);
        assert(ws.drop_last() =~= Seq::<Seq<u8>>::empty());
    } else {
        let d = ws.drop_last();
        assert forall|j: int| 0 <= j < d.len() implies #[trigger] is_word(d[j]) by {
            assert(d[j] == ws[j]);
        }
        lemma_split_joined(d);
        let pre = chars_of(joined(d)).push(32u8 as char);
        assert(chars_of(joined(ws)) =~= pre + chars_of(ws.last()));
        assert(pre.drop_last() =~= chars_of(joined(d)));
        assert(d.drop_last().push(d.last()) =~= d);
        assert(is_word(d[d.len() - 1]));
        assert(is_space(pre.last()));
        assert(split_state(pre) == (d, Seq::<u8>::empty()));
        assert(is_word(ws[ws.len() - 1]));
        lemma_split_append_word(pre, ws.last());
        assert(Seq::<u8>::empty() + ws.last() =~= ws.last());
    }
}

/// Splitting words joined by spaces gives the words back.
pub proof fn lemma_words_of_joined(ws: Seq<Seq<u8>>)
    requires
        forall|j: int| 0 <= j < ws.len() ==> #[trigger] is_word(ws[j]),
    ensures
        words_of(chars_of(joined(ws))) == ws,
{
    if ws.len() == 0 {
        assert(chars_of(joined(ws)) =~= Seq::<char>::empty());
        assert(split_state(Seq::<char>::empty()) == (Seq::<Seq<u8>>::empty(), Seq::<u8>::empty()));
    } else {
        lemma_split_joined(ws);
        assert(is_word(ws[ws.len() - 1]));
        assert(ws.drop_last().push(ws.last()) =~= ws);
    }
}

/// Reading back the text of a key's file gives the key.
pub proof fn lemma_key_text_round_trip(key: Seq<u8>)
    requires
        key.len() == 32,
    ensures
        decoded(words_of(chars_of(joined(mnemonic_of(key))))) == Ok::<Seq<u8>, CodecError>(key),
{
    let ws = mnemonic_of(key);
    assert forall|j: int| 0 <= j < ws.len() implies #[trigger] is_word(ws[j]) by {
        let w = ws[j];
        assert(w.len() == 4);
        assert forall|i: int| 0 <= i < w.len() implies #[trigger] w[i] < 128 && !is_space(w[i] as char) by {}
    }
    lemma_words_of_joined(ws);
    lemma_decode_encode(key);
}

} // verus!
