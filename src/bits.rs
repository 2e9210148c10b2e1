//! Packing a stream of single bits, most significant first, into integers.
use vstd::prelude::*;

verus! {

/// The value of `n` bits `f(base)`, `f(base + 1)`, ..., most significant first.
pub open spec fn pack(f: spec_fn(int) -> u32, base: int, n: nat) -> u32
    decreases n,
{
    if n == 0 {
        0
    } else {
        (pack(f, base, (n - 1) as nat) << 1u32) | f(base + n - 1)
    }
}

/// Bit `t` (counting from the most significant of `width` bits) of `v`.
pub open spec fn bit_of(v: u32, width: nat, t: int) -> u32 {
    (v >> ((width - 1 - t) as u32)) & 1u32
}

proof fn lemma_step_bounds(g: u32, b: u32, s: u32)
    requires
        g < (1u32 << s),
        b <= 1,
        s < 16,
    ensures
        ((g << 1u32) | b) < (1u32 << (s + 1)),
        ((g << 1u32) | b) & 1u32 == b,
        ((g << 1u32) | b) >> 0u32 == (g << 1u32) | b,
{
    assert(((g << 1u32) | b) < (1u32 << (s + 1))) by (bit_vector)
        requires g < (1u32 << s), b <= 1, s < 16;
    assert(((g << 1u32) | b) & 1u32 == b) by (bit_vector)
        requires b <= 1;
    assert(((g << 1u32) | b) >> 0u32 == (g << 1u32) | b) by (bit_vector);
}

proof fn lemma_step_shift(g: u32, b: u32, u: u32)
    requires
        b <= 1,
        u < 16,
    ensures
        (((g << 1u32) | b) >> (u + 1)) & 1u32 == (g >> u) & 1u32,
{
    assert((((g << 1u32) | b) >> (u + 1)) & 1u32 == (g >> u) & 1u32) by (bit_vector)
        requires b <= 1, u < 16;
}

/// Packing `n <= 16` bits gives a value below `2^n` whose bits are the packed ones.
pub proof fn lemma_pack_bits(f: spec_fn(int) -> u32, base: int, n: nat)
    requires
        n <= 16,
        forall|q: int| base <= q < base + n ==> #[trigger] f(q) <= 1,
    ensures
        pack(f, base, n) < (1u32 << (n as u32)),
        forall|t: int| 0 <= t < n ==> #[trigger] bit_of(pack(f, base, n), n, t) == f(base + t),
    decreases n,
{
    if n == 0 {
        assert(0u32 < (1u32 << 0u32)) by (bit_vector);
    } else {
        let m = (n - 1) as nat;
        lemma_pack_bits(f, base, m);
        let g = pack(f, base, m);
        let b = f(base + m);
        lemma_step_bounds(g, b, m as u32);
        assert forall|t: int| 0 <= t < n implies #[trigger] bit_of(pack(f, base, n), n, t) == f(
            base + t,
        ) by {
            if t < m {
                lemma_step_shift(g, b, (m - 1 - t) as u32);
                assert(bit_of(g, m, t) == f(base + t));
                assert(((m - 1 - t) as u32) + 1 == ((n - 1 - t) as u32));
            } else {
                assert(((n - 1 - t) as u32) == 0u32);
            }
        }
    }
}

proof fn lemma_shift_step(v: u32, s: u32)
    requires
        s < 16,
    ensures
        ((v >> (s + 1)) << 1u32) | ((v >> s) & 1u32) == v >> s,
{
    assert(((v >> (s + 1)) << 1u32) | ((v >> s) & 1u32) == v >> s) by (bit_vector)
        requires s < 16;
}

/// Packing the `n` bits of a value below `2^n` gives that value back.
pub proof fn lemma_pack_value(f: spec_fn(int) -> u32, base: int, n: nat, v: u32)
    requires
        n <= 16,
        v < (1u32 << (n as u32)),
        forall|t: int| 0 <= t < n ==> #[trigger] f(base + t) == bit_of(v, n, t),
    ensures
        pack(f, base, n) == v,
{
    lemma_pack_prefix(f, base, n, v, n);
    assert(v >> 0u32 == v) by (bit_vector);
}

proof fn lemma_pack_prefix(f: spec_fn(int) -> u32, base: int, n: nat, v: u32, k: nat)
    requires
        n <= 16,
        k <= n,
        v < (1u32 << (n as u32)),
        forall|t: int| 0 <= t < n ==> #[trigger] f(base + t) == bit_of(v, n, t),
    ensures
        pack(f, base, k) == v >> ((n - k) as u32),
    decreases k,
{
    if k == 0 {
        let s = n as u32;
        assert(v >> s == 0u32) by (bit_vector)
            requires v < (1u32 << s), s <= 16;
    } else {
        let m = (k - 1) as nat;
        lemma_pack_prefix(f, base, n, v, m);
        let s = (n - k) as u32;
        lemma_shift_step(v, s);
        assert(f(base + m) == bit_of(v, n, m as int));
        assert((n - m) as u32 == s + 1);
    }
}

} // verus!
