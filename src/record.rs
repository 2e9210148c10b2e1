//! The binary record that holds an envelope: a CBOR map of two entries,
//! `"nonce"`, an array of 24 unsigned integers, and `"bytes"`, an array of as
//! many unsigned integers as the ciphertext has bytes. Every integer and every
//! length is written in its shortest form.
//!
//! Reading accepts exactly what writing produces: the two entries in that
//! order, every integer and length in its shortest form, and nothing else in
//! the map or after it. A general CBOR reader would also take the entries in
//! the other order, longer integer forms and extra entries; those records are
//! refused here as malformed.
use vstd::prelude::*;

verus! {

/// `256^k`.
pub open spec fn pow256(k: nat) -> nat
    decreases k,
{
    if k == 0 {
        1
    } else {
        256 * pow256((k - 1) as nat)
    }
}

/// The last `w` base-256 digits of `n`, most significant first.
pub open spec fn be_bytes(n: nat, w: nat) -> Seq<u8>
    decreases w,
{
    if w == 0 {
        Seq::empty()
    } else {
        be_bytes(n / 256, (w - 1) as nat).push((n % 256) as u8)
    }
}

/// The number whose base-256 digits, most significant first, are `bs`.
pub open spec fn be_value(bs: Seq<u8>) -> nat
    decreases bs.len(),
{
    if bs.len() == 0 {
        0
    } else {
        be_value(bs.drop_last()) * 256 + (bs.last() as nat)
    }
}

/// The head of a CBOR array of `n` items, in its shortest form.
pub open spec fn array_head(n: nat) -> Seq<u8> {
    if n < 24 {
        seq![(128 + n) as u8]
    } else if n < 256 {
        seq![152u8] + be_bytes(n, 1)
    } else if n < 65536 {
        seq![153u8] + be_bytes(n, 2)
    } else if n < 0x1_0000_0000 {
        seq![154u8] + be_bytes(n, 4)
    } else {
        seq![155u8] + be_bytes(n, 8)
    }
}

/// One unsigned integer below 256, in its shortest CBOR form.
pub open spec fn item(x: u8) -> Seq<u8> {
    if x < 24 {
        seq![x]
    } else {
        seq![24u8, x]
    }
}

/// The items of an array, one after the other.
pub open spec fn items(xs: Seq<u8>) -> Seq<u8>
    decreases xs.len(),
{
    if xs.len() == 0 {
        Seq::empty()
    } else {
        items(xs.drop_last()) + item(xs.last())
    }
}

/// The map head and the text key `"nonce"`.
pub open spec fn nonce_key() -> Seq<u8> {
    seq![162u8, 101u8, 110u8, 111u8, 110u8, 99u8, 101u8]
}

/// The text key `"bytes"`.
pub open spec fn bytes_key() -> Seq<u8> {
    seq![101u8, 98u8, 121u8, 116u8, 101u8, 115u8]
}

/// The record of a nonce and a ciphertext.
pub open spec fn record_of(nonce: Seq<u8>, bytes: Seq<u8>) -> Seq<u8> {
    nonce_key() + array_head(nonce.len()) + items(nonce) + bytes_key() + array_head(bytes.len())
        + items(bytes)
}

proof fn lemma_pow256_facts()
    ensures
        pow256(1) == 256,
        pow256(2) == 65536,
        pow256(4) == 0x1_0000_0000,
        pow256(7) == 0x100_0000_0000_0000,
        pow256(8) == 0x1_0000_0000_0000_0000,
{
    assert(pow256(0) == 1);
    assert(pow256(1) == 256);
    assert(pow256(2) == 65536);
    assert(pow256(3) == 0x100_0000);
    assert(pow256(4) == 0x1_0000_0000);
    assert(pow256(5) == 0x100_0000_0000);
    assert(pow256(6) == 0x1_0000_0000_0000);
    assert(pow256(7) == 0x100_0000_0000_0000);
    assert(pow256(8) == 0x1_0000_0000_0000_0000);
}

proof fn lemma_be_value_bound(bs: Seq<u8>)
    ensures
        be_value(bs) < pow256(bs.len()),
    decreases bs.len(),
{
    if bs.len() > 0 {
        lemma_be_value_bound(bs.drop_last());
        let v = be_value(bs.drop_last());
        let p = pow256(bs.drop_last().len());
        let l = bs.last() as nat;
        assert(v * 256 + l < 256 * p) by (nonlinear_arith)
            requires v < p, l < 256;
    }
}

proof fn lemma_be_len(n: nat, w: nat)
    ensures
        be_bytes(n, w).len() == w,
    decreases w,
{
    if w > 0 {
        lemma_be_len(n / 256, (w - 1) as nat);
    }
}

/// Reading back the digits of a number that fits gives the number.
proof fn lemma_be_value_of_bytes(n: nat, w: nat)
    requires
        n < pow256(w),
    ensures
        be_value(be_bytes(n, w)) == n,
        be_bytes(n, w).len() == w,
    decreases w,
{
    lemma_be_len(n, w);
    if w > 0 {
        let m = (w - 1) as nat;
        assert(n / 256 < pow256(m)) by (nonlinear_arith)
            requires n < 256 * pow256(m);
        lemma_be_value_of_bytes(n / 256, m);
        assert(be_bytes(n, w).drop_last() =~= be_bytes(n / 256, m));
        assert((n / 256) * 256 + n % 256 == n) by (nonlinear_arith);
    }
}

/// Writing the digits of a value read from digits gives those digits.
proof fn lemma_be_bytes_of_value(bs: Seq<u8>)
    ensures
        be_bytes(be_value(bs), bs.len()) == bs,
    decreases bs.len(),
{
    if bs.len() > 0 {
        let v = be_value(bs.drop_last());
        let l = bs.last() as nat;
        lemma_be_bytes_of_value(bs.drop_last());
        assert((v * 256 + l) / 256 == v && (v * 256 + l) % 256 == l) by (nonlinear_arith)
            requires l < 256;
        assert(be_bytes(be_value(bs), bs.len()) =~= bs);
    }
}

/// Appends the last `w` base-256 digits of `n`.
fn push_be(out: &mut Vec<u8>, n: u64, w: usize)
    requires
        w <= 8,
    ensures
        final(out)@ == old(out)@ + be_bytes(n as nat, w as nat),
    decreases w,
{
    if w == 0 {
        assert(old(out)@ + be_bytes(n as nat, 0) =~= old(out)@);
        return;
    }
    push_be(out, n / 256, w - 1);
    out.push((n % 256) as u8);
    assert(out@ =~= old(out)@ + be_bytes(n as nat, w as nat));
}

/// Appends the head of an array of `n` items.
fn push_array_head(out: &mut Vec<u8>, n: u64)
    ensures
        final(out)@ == old(out)@ + array_head(n as nat),
{
    if n < 24 {
        out.push((128 + n) as u8);
    } else if n < 256 {
        out.push(152);
        push_be(out, n, 1);
    } else if n < 65536 {
        out.push(153);
        push_be(out, n, 2);
    } else if n < 0x1_0000_0000 {
        out.push(154);
        push_be(out, n, 4);
    } else {
        out.push(155);
        push_be(out, n, 8);
    }
    assert(final(out)@ =~= old(out)@ + array_head(n as nat));
}

/// Appends the items of an array.
fn push_items(out: &mut Vec<u8>, xs: &[u8])
    ensures
        final(out)@ == old(out)@ + items(xs@),
{
    let mut i: usize = 0;
    while i < xs.len()
        invariant
            i <= xs@.len(),
            out@ == old(out)@ + items(xs@.take(i as int)),
        decreases xs@.len() - i,
    {
        assert(xs@.take(i + 1).drop_last() =~= xs@.take(i as int));
        let x = xs[i];
        if x < 24 {
            out.push(x);
        } else {
            out.push(24);
            out.push(x);
        }
        i += 1;
        assert(out@ =~= old(out)@ + items(xs@.take(i as int)));
    }
    assert(xs@.take(xs@.len() as int) =~= xs@);
}

/// Appends the bytes of a fixed string.
fn push_all(out: &mut Vec<u8>, xs: &[u8])
    ensures
        final(out)@ == old(out)@ + xs@,
{
    let mut i: usize = 0;
    while i < xs.len()
        invariant
            i <= xs@.len(),
            out@ == old(out)@ + xs@.take(i as int),
        decreases xs@.len() - i,
    {
        out.push(xs[i]);
        i += 1;
        assert(out@ =~= old(out)@ + xs@.take(i as int));
    }
    assert(xs@.take(xs@.len() as int) =~= xs@);
}

fn nonce_key_bytes() -> (r: Vec<u8>)
    ensures
        r@ == nonce_key(),
{
    let mut out: Vec<u8> = Vec::new();
    out.push(162);
    out.push(101);
    out.push(110);
    out.push(111);
    out.push(110);
    out.push(99);
    out.push(101);
    assert(out@ =~= nonce_key());
    out
}

fn bytes_key_bytes() -> (r: Vec<u8>)
    ensures
        r@ == bytes_key(),
{
    let mut out: Vec<u8> = Vec::new();
    out.push(101);
    out.push(98);
    out.push(121);
    out.push(116);
    out.push(101);
    out.push(115);
    assert(out@ =~= bytes_key());
    out
}

/// The record of a nonce and a ciphertext.
pub fn write_record(nonce: &[u8], bytes: &[u8]) -> (r: Vec<u8>)
    ensures
        r@ == record_of(nonce@, bytes@),
{
    let mut out = nonce_key_bytes();
    push_array_head(&mut out, nonce.len() as u64);
    push_items(&mut out, nonce);
    push_all(&mut out, bytes_key_bytes().as_slice());
    push_array_head(&mut out, bytes.len() as u64);
    push_items(&mut out, bytes);
    assert(out@ =~= record_of(nonce@, bytes@));
    out
}

// ----- reading -----

/// `s` holds the items of `xs` from `pos` on.
pub open spec fn holds_items(s: Seq<u8>, pos: int, xs: Seq<u8>) -> bool {
    0 <= pos && pos + items(xs).len() <= s.len() && s.subrange(pos, pos + items(xs).len())
        == items(xs)
}

/// `s` holds the head of an array of `n` items from `pos` on.
pub open spec fn holds_head(s: Seq<u8>, pos: int, n: nat) -> bool {
    0 <= pos && pos + array_head(n).len() <= s.len() && s.subrange(pos, pos + array_head(n).len())
        == array_head(n)
}

/// The item `x` stands at `at` in `s`.
pub open spec fn item_at(s: Seq<u8>, at: int, x: u8) -> bool {
    (x < 24 && 0 <= at < s.len() && s[at] == x) || (x >= 24 && 0 <= at && at + 1 < s.len() && s[at]
        == 24 && s[at + 1] == x)
}

proof fn lemma_items_len(xs: Seq<u8>)
    ensures
        items(xs).len() >= xs.len(),
    decreases xs.len(),
{
    if xs.len() > 0 {
        lemma_items_len(xs.drop_last());
    }
}

proof fn lemma_items_prefix(xs: Seq<u8>, i: int)
    requires
        0 <= i <= xs.len(),
    ensures
        items(xs.take(i)).len() <= items(xs).len(),
        items(xs).subrange(0, items(xs.take(i)).len() as int) == items(xs.take(i)),
    decreases xs.len(),
{
    if i == xs.len() {
        assert(xs.take(i) =~= xs);
        assert(items(xs).subrange(0, items(xs).len() as int) =~= items(xs));
    } else {
        let d = xs.drop_last();
        assert(d.take(i) =~= xs.take(i));
        lemma_items_prefix(d, i);
        let a = items(xs.take(i)).len() as int;
        assert(items(xs).subrange(0, a) =~= items(d).subrange(0, a));
    }
}

proof fn lemma_item_at(s: Seq<u8>, pos: int, xs: Seq<u8>, k: int)
    requires
        holds_items(s, pos, xs),
        0 <= k < xs.len(),
    ensures
        item_at(s, pos + items(xs.take(k)).len(), xs[k]),
        items(xs.take(k + 1)).len() == items(xs.take(k)).len() + item(xs[k]).len(),
        xs.take(k + 1) == xs.take(k).push(xs[k]),
{
    assert(xs.take(k + 1).drop_last() =~= xs.take(k));
    assert(xs.take(k + 1) =~= xs.take(k).push(xs[k]));
    lemma_items_prefix(xs, k + 1);
    let a = items(xs.take(k)).len() as int;
    let whole = items(xs);
    let pre = items(xs.take(k + 1));
    assert(pre == items(xs.take(k)) + item(xs[k]));
    assert(whole.subrange(0, pre.len() as int)[a] == whole[a]);
    assert(pre[a] == item(xs[k])[0]);
    assert(s[pos + a] == whole[a]);
    if xs[k] >= 24 {
        assert(whole.subrange(0, pre.len() as int)[a + 1] == whole[a + 1]);
        assert(pre[a + 1] == item(xs[k])[1]);
        assert(s[pos + a + 1] == whole[a + 1]);
    }
}

/// Reads the items of an array of `count` items from `pos` on.
fn read_items(s: &[u8], pos: usize, count: u64) -> (r: Option<(Vec<u8>, usize)>)
    requires
        pos <= s@.len(),
    ensures
        r is Some ==> {
            let (xs, end) = r->Some_0;
            &&& xs@.len() == count
            &&& pos <= end <= s@.len()
            &&& s@.subrange(pos as int, end as int) == items(xs@)
        },
        forall|xs: Seq<u8>|
            xs.len() == count && #[trigger] holds_items(s@, pos as int, xs) ==> r is Some
                && r->Some_0.0@ == xs && r->Some_0.1 == pos + items(xs).len(),
{
    let mut out: Vec<u8> = Vec::new();
    let mut at: usize = pos;
    let mut k: u64 = 0;
    while k < count
        invariant
            pos <= at <= s@.len(),
            out@.len() == k,
            k <= count,
            s@.subrange(pos as int, at as int) == items(out@),
            forall|xs: Seq<u8>|
                xs.len() == count && #[trigger] holds_items(s@, pos as int, xs) ==> out@ == xs.take(
                    k as int,
                ) && at == pos + items(xs.take(k as int)).len(),
        decreases count - k,
    {
        proof {
            assert forall|xs: Seq<u8>| xs.len() == count && #[trigger] holds_items(
                s@,
                pos as int,
                xs,
            ) implies item_at(s@, at as int, xs[k as int]) && items(xs.take(k + 1)).len() == items(
                xs.take(k as int),
            ).len() + item(xs[k as int]).len() && xs.take(k + 1) == xs.take(k as int).push(
                xs[k as int],
            ) by {
                lemma_item_at(s@, pos as int, xs, k as int);
            }
        }
        if at >= s.len() {
            return None;
        }
        let h = s[at];
        let ghost before = out@;
        if h < 24 {
            out.push(h);
            assert(s@.subrange(pos as int, at + 1) =~= s@.subrange(pos as int, at as int) + item(h));
            at += 1;
        } else if h == 24 {
            if at + 1 >= s.len() {
                return None;
            }
            let x = s[at + 1];
            if x < 24 {
                return None;
            }
            out.push(x);
            assert(s@.subrange(pos as int, at + 2) =~= s@.subrange(pos as int, at as int) + item(x));
            at += 2;
        } else {
            return None;
        }
        assert(out@.drop_last() =~= before);
        k += 1;
    }
    proof {
        assert forall|xs: Seq<u8>| xs.len() == count && #[trigger] holds_items(
            s@,
            pos as int,
            xs,
        ) implies out@ == xs by {
            assert(xs.take(k as int) =~= xs);
        }
    }
    Some((out, at))
}

proof fn lemma_pow256_step(i: nat)
    requires
        i < 8,
    ensures
        256 * pow256(i) <= pow256(8),
    decreases 8 - i,
{
    lemma_pow256_facts();
    if i < 7 {
        lemma_pow256_step(i + 1);
        assert(pow256(i + 1) == 256 * pow256(i));
        assert(pow256(i) <= 256 * pow256(i));
    }
}

/// The number written in the `w` bytes from `pos` on, most significant first.
fn read_be(s: &[u8], pos: usize, w: usize) -> (r: u64)
    requires
        w <= 8,
        pos + w <= s@.len(),
    ensures
        r as nat == be_value(s@.subrange(pos as int, pos + w)),
{
    let len: usize = s.len();
    let mut acc: u64 = 0;
    let mut i: usize = 0;
    while i < w
        invariant
            len == s@.len(),
            i <= w <= 8,
            pos + w <= s@.len(),
            acc as nat == be_value(s@.subrange(pos as int, pos + i)),
        decreases w - i,
    {
        proof {
            lemma_be_value_bound(s@.subrange(pos as int, pos + i));
            lemma_pow256_step(i as nat);
            lemma_pow256_facts();
            assert(s@.subrange(pos as int, pos + i + 1).drop_last() =~= s@.subrange(
                pos as int,
                pos + i,
            ));
            let a = acc as nat;
            let p = pow256(i as nat);
            assert(a * 256 + 255 < 0x1_0000_0000_0000_0000) by (nonlinear_arith)
                requires a < p, 256 * p <= 0x1_0000_0000_0000_0000;
        }
        assert(pos + i < s@.len());
        acc = acc * 256 + s[pos + i] as u64;
        i += 1;
    }
    acc
}

proof fn lemma_head_parts(n: nat)
    requires
        n < 0x1_0000_0000_0000_0000,
    ensures
        n < 24 ==> array_head(n) == seq![(128 + n) as u8],
        24 <= n < 256 ==> array_head(n).len() == 2 && array_head(n)[0] == 152
            && array_head(n).subrange(1, 2) == be_bytes(n, 1) && be_value(be_bytes(n, 1)) == n,
        256 <= n < 65536 ==> array_head(n).len() == 3 && array_head(n)[0] == 153
            && array_head(n).subrange(1, 3) == be_bytes(n, 2) && be_value(be_bytes(n, 2)) == n,
        65536 <= n < 0x1_0000_0000 ==> array_head(n).len() == 5 && array_head(n)[0] == 154
            && array_head(n).subrange(1, 5) == be_bytes(n, 4) && be_value(be_bytes(n, 4)) == n,
        0x1_0000_0000 <= n ==> array_head(n).len() == 9 && array_head(n)[0] == 155
            && array_head(n).subrange(1, 9) == be_bytes(n, 8) && be_value(be_bytes(n, 8)) == n,
{
    lemma_pow256_facts();
    if 24 <= n < 256 {
        lemma_be_value_of_bytes(n, 1);
        assert(array_head(n).subrange(1, 2) =~= be_bytes(n, 1));
    } else if 256 <= n < 65536 {
        lemma_be_value_of_bytes(n, 2);
        assert(array_head(n).subrange(1, 3) =~= be_bytes(n, 2));
    } else if 65536 <= n < 0x1_0000_0000 {
        lemma_be_value_of_bytes(n, 4);
        assert(array_head(n).subrange(1, 5) =~= be_bytes(n, 4));
    } else if 0x1_0000_0000 <= n {
        lemma_be_value_of_bytes(n, 8);
        assert(array_head(n).subrange(1, 9) =~= be_bytes(n, 8));
    }
}

/// Reads the head of an array from `pos` on: the number of items, and where they start.
fn read_array_head(s: &[u8], pos: usize) -> (r: Option<(u64, usize)>)
    requires
        pos <= s@.len(),
    ensures
        r is Some ==> pos < r->Some_0.1 <= s@.len() && s@.subrange(pos as int, r->Some_0.1 as int)
            == array_head(r->Some_0.0 as nat),
        forall|n: nat|
            n < 0x1_0000_0000_0000_0000 && #[trigger] holds_head(s@, pos as int, n) ==> r == Some(
                (n as u64, (pos + array_head(n).len()) as usize),
            ),
{
    if pos >= s.len() {
        proof {
            assert forall|n: nat| n < 0x1_0000_0000_0000_0000 && #[trigger] holds_head(
                s@,
                pos as int,
                n,
            ) implies false by {
                lemma_head_parts(n);
            }
        }
        return None;
    }
    let h = s[pos];
    let w: usize;
    let least: u64;
    if 128 <= h && h < 152 {
        let n = (h - 128) as u64;
        proof {
            assert(s@.subrange(pos as int, pos + 1) =~= array_head(n as nat));
            assert forall|m: nat| m < 0x1_0000_0000_0000_0000 && #[trigger] holds_head(
                s@,
                pos as int,
                m,
            ) implies m == n by {
                lemma_head_parts(m);
                assert(s@.subrange(pos as int, pos + array_head(m).len())[0] == s@[pos as int]);
            }
        }
        return Some((n, pos + 1));
    } else if h == 152 {
        w = 1;
        least = 24;
    } else if h == 153 {
        w = 2;
        least = 256;
    } else if h == 154 {
        w = 4;
        least = 65536;
    } else if h == 155 {
        w = 8;
        least = 0x1_0000_0000;
    } else {
        proof {
            assert forall|m: nat| m < 0x1_0000_0000_0000_0000 && #[trigger] holds_head(
                s@,
                pos as int,
                m,
            ) implies false by {
                lemma_head_parts(m);
                assert(s@.subrange(pos as int, pos + array_head(m).len())[0] == s@[pos as int]);
            }
        }
        return None;
    }
    proof {
        assert forall|m: nat| m < 0x1_0000_0000_0000_0000 && #[trigger] holds_head(
            s@,
            pos as int,
            m,
        ) implies array_head(m).len() == w + 1 && least <= m && pos + 1 + w <= s@.len() && be_value(
            s@.subrange(pos + 1, pos + 1 + w),
        ) == m by {
            lemma_head_parts(m);
            let hd = array_head(m);
            assert(s@.subrange(pos as int, pos + hd.len())[0] == s@[pos as int]);
            if m >= 24 {
                assert(s@.subrange(pos + 1, pos + hd.len()) =~= s@.subrange(
                    pos as int,
                    pos + hd.len(),
                ).subrange(1, hd.len() as int));
            }
        }
    }
    if w > s.len() - pos - 1 {
        return None;
    }
    let n = read_be(s, pos + 1, w);
    if n < least {
        return None;
    }
    proof {
        lemma_pow256_facts();
        lemma_be_value_bound(s@.subrange(pos + 1, pos + 1 + w));
        lemma_be_bytes_of_value(s@.subrange(pos + 1, pos + 1 + w));
        assert(s@.subrange(pos as int, pos + 1 + w) =~= seq![h] + s@.subrange(pos + 1, pos + 1 + w));
    }
    Some((n, pos + 1 + w))
}


/// Whether `s` holds `lit` from `pos` on.
fn holds_at(s: &[u8], pos: usize, lit: &[u8]) -> (r: bool)
    requires
        pos <= s@.len(),
    ensures
        r == (pos + lit@.len() <= s@.len() && s@.subrange(pos as int, pos + lit@.len()) == lit@),
{
    if lit.len() > s.len() - pos {
        return false;
    }
    let len: usize = s.len();
    let mut i: usize = 0;
    while i < lit.len()
        invariant
            len == s@.len(),
            pos + lit@.len() <= s@.len(),
            i <= lit@.len(),
            s@.subrange(pos as int, pos + i) == lit@.take(i as int),
        decreases lit@.len() - i,
    {
        if s[pos + i] != lit[i] {
            assert(s@.subrange(pos as int, pos + lit@.len())[i as int] == s@[pos + i]);
            return false;
        }
        i += 1;
        assert(s@.subrange(pos as int, pos + i) =~= lit@.take(i as int));
    }
    assert(lit@.take(i as int) =~= lit@);
    true
}

proof fn lemma_record_parts(s: Seq<u8>, n: Seq<u8>, b: Seq<u8>)
    requires
        n.len() == 24,
        s == record_of(n, b),
    ensures
        s.len() >= 9,
        s.subrange(0, 7) == nonce_key(),
        holds_head(s, 7, 24),
        array_head(24).len() == 2,
        holds_items(s, 9, n),
        s.len() >= 15 + items(n).len(),
        s.subrange(9 + items(n).len() as int, 15 + items(n).len() as int) == bytes_key(),
        holds_head(s, 15 + items(n).len() as int, b.len()),
        holds_items(s, 15 + items(n).len() as int + array_head(b.len()).len() as int, b),
        s.len() == 15 + items(n).len() + array_head(b.len()).len() + items(b).len(),
        b.len() <= s.len(),
{
    let h = array_head(24);
    let bh = array_head(b.len());
    let a = items(n).len() as int;
    let c = bh.len() as int;
    assert(be_bytes(0, 0) =~= Seq::<u8>::empty());
    assert(be_bytes(24, 1) =~= seq![24u8]);
    assert(h =~= seq![152u8, 24u8]);
    lemma_items_len(b);
    assert(s.subrange(0, 7) =~= nonce_key());
    assert(s.subrange(7, 9) =~= h);
    assert(s.subrange(9, 9 + a) =~= items(n));
    assert(s.subrange(9 + a, 15 + a) =~= bytes_key());
    assert(s.subrange(15 + a, 15 + a + c) =~= bh);
    assert(s.subrange(15 + a + c, s.len() as int) =~= items(b));
}

/// Reads a record back into its nonce and its ciphertext.
pub fn read_record(s: &[u8]) -> (r: Option<(Vec<u8>, Vec<u8>)>)
    ensures
        r is Some ==> r->Some_0.0@.len() == 24 && s@ == record_of(r->Some_0.0@, r->Some_0.1@),
        forall|n: Seq<u8>, b: Seq<u8>|
            n.len() == 24 && s@ == #[trigger] record_of(n, b) ==> r is Some && r->Some_0.0@ == n
                && r->Some_0.1@ == b,
{
    let len: usize = s.len();
    let head = nonce_key_bytes();
    if !holds_at(s, 0, head.as_slice()) {
        proof {
            assert forall|n: Seq<u8>, b: Seq<u8>| n.len() == 24 && s@ == #[trigger] record_of(
                n,
                b,
            ) implies false by {
                lemma_record_parts(s@, n, b);
            }
        }
        return None;
    }
    let (count, nonce_at) = match read_array_head(s, 7) {
        Some(x) => x,
        None => {
            proof {
                assert forall|n: Seq<u8>, b: Seq<u8>| n.len() == 24 && s@ == #[trigger] record_of(
                    n,
                    b,
                ) implies false by {
                    lemma_record_parts(s@, n, b);
                }
            }
            return None;
        },
    };
    if count != 24 {
        proof {
            assert forall|n: Seq<u8>, b: Seq<u8>| n.len() == 24 && s@ == #[trigger] record_of(
                n,
                b,
            ) implies false by {
                lemma_record_parts(s@, n, b);
            }
        }
        return None;
    }
    let (nonce, key_at) = match read_items(s, nonce_at, 24) {
        Some(x) => x,
        None => {
            proof {
                assert forall|n: Seq<u8>, b: Seq<u8>| n.len() == 24 && s@ == #[trigger] record_of(
                    n,
                    b,
                ) implies false by {
                    lemma_record_parts(s@, n, b);
                }
            }
            return None;
        },
    };
    let key = bytes_key_bytes();
    if !holds_at(s, key_at, key.as_slice()) {
        proof {
            assert forall|n: Seq<u8>, b: Seq<u8>| n.len() == 24 && s@ == #[trigger] record_of(
                n,
                b,
            ) implies false by {
                lemma_record_parts(s@, n, b);
            }
        }
        return None;
    }
    let (size, bytes_at) = match read_array_head(s, key_at + 6) {
        Some(x) => x,
        None => {
            proof {
                assert forall|n: Seq<u8>, b: Seq<u8>| n.len() == 24 && s@ == #[trigger] record_of(
                    n,
                    b,
                ) implies false by {
                    lemma_record_parts(s@, n, b);
                }
            }
            return None;
        },
    };
    let (bytes, end) = match read_items(s, bytes_at, size) {
        Some(x) => x,
        None => {
            proof {
                assert forall|n: Seq<u8>, b: Seq<u8>| n.len() == 24 && s@ == #[trigger] record_of(
                    n,
                    b,
                ) implies false by {
                    lemma_record_parts(s@, n, b);
                }
            }
            return None;
        },
    };
    if end != len {
        proof {
            assert forall|n: Seq<u8>, b: Seq<u8>| n.len() == 24 && s@ == #[trigger] record_of(
                n,
                b,
            ) implies false by {
                lemma_record_parts(s@, n, b);
            }
        }
        return None;
    }
    proof {
        assert(s@ =~= s@.subrange(0, 7) + s@.subrange(7, nonce_at as int) + s@.subrange(
            nonce_at as int,
            key_at as int,
        ) + s@.subrange(key_at as int, key_at + 6) + s@.subrange(key_at + 6, bytes_at as int) + s@.subrange(
            bytes_at as int,
            end as int,
        ));
        assert(s@ =~= record_of(nonce@, bytes@));
        assert forall|n: Seq<u8>, b: Seq<u8>| n.len() == 24 && s@ == #[trigger] record_of(
            n,
            b,
        ) implies nonce@ == n && bytes@ == b by {
            lemma_record_parts(s@, n, b);
        }
    }
    Some((nonce, bytes))
}

} // verus!
