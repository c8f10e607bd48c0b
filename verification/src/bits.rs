//! Bit reversal of indices: its mathematical definition, its facts, and
//! the executable version used by the transforms.

use vstd::prelude::*;
use vstd::arithmetic::power2::{pow2, lemma_pow2_pos, lemma_pow2_unfold, lemma_pow2_adds, lemma2_to64};
use vstd::arithmetic::div_mod::{
    lemma_div_denominator, lemma_div_multiples_vanish_fancy, lemma_hoist_over_denominator,
    lemma_mod_breakdown, lemma_mod_multiples_vanish, lemma_small_mod,
};
use vstd::arithmetic::mul::{lemma_mul_is_associative, lemma_mul_is_commutative};

verus! {

/// Bit `k` of `x` (bit 0 is the least significant).
pub open spec fn bit(x: nat, k: nat) -> bool {
    (x / pow2(k)) % 2 == 1
}

/// The low `width` bits of `x`, least significant first.
pub open spec fn bits(x: nat, width: nat) -> Seq<bool> {
    Seq::new(width, |k: int| bit(x, k as nat))
}

/// The number whose bits, least significant first, are `s`.
pub open spec fn from_bits(s: Seq<bool>) -> nat
    decreases s.len(),
{
    if s.len() == 0 {
        0
    } else {
        from_bits(s.drop_last()) + (if s.last() { pow2((s.len() - 1) as nat) } else { 0 })
    }
}

/// The low `width` bits of `x` read in reverse order.
pub open spec fn bit_reversed(x: nat, width: nat) -> nat {
    from_bits(bits(x, width).reverse())
}

/// A number made of `s.len()` bits is below `2^s.len()`.
pub proof fn lemma_from_bits_bound(s: Seq<bool>)
    ensures
        from_bits(s) < pow2(s.len()),
    decreases s.len(),
{
    if s.len() == 0 {
        lemma2_to64();
    } else {
        lemma_from_bits_bound(s.drop_last());
        lemma_pow2_unfold(s.len());
    }
}

/// Putting a bit in front shifts the rest up by one place.
pub proof fn lemma_from_bits_prepend(b: bool, s: Seq<bool>)
    ensures
        from_bits(seq![b] + s) == (if b { 1nat } else { 0nat }) + 2 * from_bits(s),
    decreases s.len(),
{
    let t = seq![b] + s;
    if s.len() == 0 {
        assert(t.drop_last() =~= Seq::<bool>::empty());
        lemma2_to64();
        assert(from_bits(t) == from_bits(t.drop_last()) + (if t.last() { pow2(0) } else { 0 }));
    } else {
        assert(t.drop_last() =~= seq![b] + s.drop_last());
        assert(t.last() == s.last());
        lemma_from_bits_prepend(b, s.drop_last());
        lemma_pow2_unfold(s.len());
        assert(from_bits(t) == from_bits(t.drop_last()) + (if t.last() { pow2(s.len()) } else { 0 }));
        assert(from_bits(s) == from_bits(s.drop_last()) + (if s.last() { pow2((s.len() - 1) as nat) } else { 0 }));
    }
}

/// Reading back the low bits of `x` gives `x` modulo `2^width`.
pub proof fn lemma_from_bits_of_bits(x: nat, width: nat)
    ensures
        from_bits(bits(x, width)) == x % pow2(width),
    decreases width,
{
    if width == 0 {
        lemma2_to64();
    } else {
        let w1 = (width - 1) as nat;
        assert(bits(x, width).drop_last() =~= bits(x, w1));
        lemma_from_bits_of_bits(x, w1);
        lemma_pow2_unfold(width);
        lemma_pow2_pos(w1);
        lemma_mod_breakdown(x as int, pow2(w1) as int, 2);
        lemma_mul_is_commutative(pow2(w1) as int, 2);
        let q = (x / pow2(w1)) % 2;
        assert(q == 0 || q == 1);
        if q == 1 {
            assert(pow2(w1) * q == pow2(w1));
        } else {
            assert(pow2(w1) * q == 0);
        }
    }
}

/// Adding a multiple of `2^m` leaves the bits below `m` unchanged.
pub proof fn lemma_bit_above_unchanged(f: nat, c: nat, m: nat, k: nat)
    requires
        k < m,
    ensures
        bit(f + c * pow2(m), k) == bit(f, k),
{
    let d = (m - k) as nat;
    lemma_pow2_adds(k, d);
    assert(k + d == m);
    lemma_pow2_pos(k);
    lemma_pow2_unfold(d);
    let j = c * pow2(d);
    assert(c * pow2(m) == j * pow2(k)) by {
        lemma_mul_is_associative(c as int, pow2(d) as int, pow2(k) as int);
        lemma_mul_is_commutative(pow2(d) as int, pow2(k) as int);
    }
    lemma_hoist_over_denominator(f as int, j as int, pow2(k));
    let q = c * pow2((d - 1) as nat);
    assert(j == 2 * q) by {
        lemma_mul_is_associative(c as int, 2, pow2((d - 1) as nat) as int);
        lemma_mul_is_commutative(c as int, 2);
        lemma_mul_is_associative(2, c as int, pow2((d - 1) as nat) as int);
    }
    lemma_mod_multiples_vanish(q as int, (f / pow2(k)) as int, 2);
}

/// The bits of the number built from `s` are `s`.
pub proof fn lemma_bits_of_from_bits(s: Seq<bool>)
    ensures
        bits(from_bits(s), s.len()) =~= s,
    decreases s.len(),
{
    if s.len() > 0 {
        let n1 = (s.len() - 1) as nat;
        let s1 = s.drop_last();
        let f1 = from_bits(s1);
        let c: nat = if s.last() { 1 } else { 0 };
        lemma_bits_of_from_bits(s1);
        lemma_from_bits_bound(s1);
        lemma_pow2_pos(n1);
        assert(from_bits(s) == f1 + c * pow2(n1));
        assert forall|k: int| 0 <= k < s.len() implies bit(from_bits(s), k as nat) == s[k] by {
            if k < n1 {
                lemma_bit_above_unchanged(f1, c, n1, k as nat);
                assert(bits(f1, n1)[k] == s1[k]);
            } else {
                lemma_div_multiples_vanish_fancy(c as int, f1 as int, pow2(n1) as int);
                lemma_mul_is_commutative(c as int, pow2(n1) as int);
                lemma_small_mod(c, 2);
            }
        }
    }
}

/// Bit reversal stays within `width` bits.
pub proof fn lemma_bit_reversed_bound(x: nat, width: nat)
    ensures
        bit_reversed(x, width) < pow2(width),
{
    lemma_from_bits_bound(bits(x, width).reverse());
}

/// Reversing twice gives back any index below `2^width`.
pub proof fn lemma_bit_reversed_involution(x: nat, width: nat)
    requires
        x < pow2(width),
    ensures
        bit_reversed(bit_reversed(x, width), width) == x,
{
    let r = bits(x, width).reverse();
    lemma_bits_of_from_bits(r);
    assert(bits(bit_reversed(x, width), width).reverse() =~= bits(x, width));
    lemma_from_bits_of_bits(x, width);
    lemma_small_mod(x, pow2(width));
}

/// Bit reversal of `2b` and `2b + 1` over `width` bits, in terms of `b` over
/// one bit less.
pub proof fn lemma_bit_reversed_split(b: nat, width: nat)
    requires
        width >= 1,
    ensures
        bit_reversed(2 * b, width) == bit_reversed(b, (width - 1) as nat),
        bit_reversed(2 * b + 1, width) == bit_reversed(b, (width - 1) as nat) + pow2((width - 1) as nat),
{
    let w1 = (width - 1) as nat;
    assert forall|x: nat| x == 2 * b || x == 2 * b + 1 implies #[trigger] bits(x, width).drop_first() =~= bits(b, w1) by {
        assert forall|k: int| 0 <= k < w1 implies bit(x, (k + 1) as nat) == #[trigger] bit(b, k as nat) by {
            lemma_pow2_unfold((k + 1) as nat);
            lemma_pow2_pos(k as nat);
            lemma_div_denominator(x as int, 2, pow2(k as nat) as int);
        }
    }
    assert(bits(2 * b, width).drop_first() =~= bits(b, w1));
    assert(bits(2 * b + 1, width).drop_first() =~= bits(b, w1));
    assert(bits(2 * b, width).reverse().drop_last() =~= bits(b, w1).reverse());
    assert(bits(2 * b + 1, width).reverse().drop_last() =~= bits(b, w1).reverse());
    lemma2_to64();
    assert(!bit(2 * b, 0));
    assert(bit(2 * b + 1, 0));
}

/// Bit reversal, bit by bit: the reversal of the low `width` bits of `x` is
/// below `2^width`, and its bit `k` is bit `width - 1 - k` of `x`.
pub proof fn law_bit_reversed_bits(x: nat, width: nat)
    ensures
        bit_reversed(x, width) < pow2(width),
        forall|k: nat| k < width ==> #[trigger] bit(bit_reversed(x, width), k) == bit(x, (width - 1 - k) as nat),
{
    let s = bits(x, width).reverse();
    lemma_from_bits_bound(s);
    lemma_bits_of_from_bits(s);
    assert forall|k: nat| k < width implies #[trigger] bit(bit_reversed(x, width), k) == bit(x, (width - 1 - k) as nat) by {
        assert(bits(from_bits(s), s.len())[k as int] == s[k as int]);
    }
}

/// Dropping the `a` least significant bits of a number built from bits:
/// `from_bits(s) / 2^a` is the number built from `s` without its first `a`.
pub proof fn lemma_from_bits_shift(s: Seq<bool>, a: nat)
    requires
        a <= s.len(),
    ensures
        from_bits(s) / pow2(a) == from_bits(s.subrange(a as int, s.len() as int)),
    decreases a,
{
    if a == 0 {
        lemma2_to64();
        assert(s.subrange(0, s.len() as int) =~= s);
    } else {
        let b = s[0];
        let rest = s.drop_first();
        assert(s =~= seq![b] + rest);
        lemma_from_bits_prepend(b, rest);
        lemma_from_bits_shift(rest, (a - 1) as nat);
        assert(rest.subrange((a - 1) as int, rest.len() as int) =~= s.subrange(a as int, s.len() as int));
        let c: nat = if b { 1 } else { 0 };
        let f = from_bits(rest);
        assert(from_bits(s) == c + 2 * f);
        lemma_pow2_unfold(a);
        lemma_pow2_pos((a - 1) as nat);
        lemma_div_denominator((c + 2 * f) as int, 2, pow2((a - 1) as nat) as int);
        assert((c + 2 * f) / 2 == f);
    }
}

/// Reversing all `wide` bits and then dropping the low `wide - width`
/// gives the reversal of the low `width` bits.
pub proof fn lemma_bit_reversed_narrow(x: nat, wide: nat, width: nat)
    requires
        width <= wide,
    ensures
        bit_reversed(x, wide) / pow2((wide - width) as nat) == bit_reversed(x, width),
{
    let s = bits(x, wide).reverse();
    lemma_from_bits_shift(s, (wide - width) as nat);
    assert(s.subrange((wide - width) as int, wide as int) =~= bits(x, width).reverse());
}

/// Bit `k` of the 64-bit reversal network's output is bit `63 - k` of its
/// input.
proof fn lemma_swap_network(x: u64, v1: u64, v2: u64, v3: u64, v4: u64, v5: u64, r: u64, k: u64, j: u64)
    by (bit_vector)
    requires
        k < 64,
        j + k == 63,
        v1 == ((x >> 1u64) & 0x5555555555555555u64) | ((x & 0x5555555555555555u64) << 1u64),
        v2 == ((v1 >> 2u64) & 0x3333333333333333u64) | ((v1 & 0x3333333333333333u64) << 2u64),
        v3 == ((v2 >> 4u64) & 0x0F0F0F0F0F0F0F0Fu64) | ((v2 & 0x0F0F0F0F0F0F0F0Fu64) << 4u64),
        v4 == ((v3 >> 8u64) & 0x00FF00FF00FF00FFu64) | ((v3 & 0x00FF00FF00FF00FFu64) << 8u64),
        v5 == ((v4 >> 16u64) & 0x0000FFFF0000FFFFu64) | ((v4 & 0x0000FFFF0000FFFFu64) << 16u64),
        r == (v5 >> 32u64) | (v5 << 32u64),
    ensures
        (r >> k) & 1u64 == (x >> j) & 1u64,
{
}

/// Bit `k` of a 64-bit word, read through a shift and a mask.
proof fn lemma_u64_bit(x: u64, k: u64)
    requires
        k < 64,
    ensures
        ((x >> k) & 1u64 == 1u64) == bit(x as nat, k as nat),
{
    vstd::bits::lemma_u64_shr_is_div(x, k);
    let y = x >> k;
    assert(y & 1u64 == y % 2) by (bit_vector);
}

/// Reverses all 64 bits of `x` by swapping ever larger groups of bits.
fn reverse_u64(x: u64) -> (r: u64)
    ensures
        r == bit_reversed(x as nat, 64),
{
    let v1 = ((x >> 1u64) & 0x5555555555555555u64) | ((x & 0x5555555555555555u64) << 1u64);
    let v2 = ((v1 >> 2u64) & 0x3333333333333333u64) | ((v1 & 0x3333333333333333u64) << 2u64);
    let v3 = ((v2 >> 4u64) & 0x0F0F0F0F0F0F0F0Fu64) | ((v2 & 0x0F0F0F0F0F0F0F0Fu64) << 4u64);
    let v4 = ((v3 >> 8u64) & 0x00FF00FF00FF00FFu64) | ((v3 & 0x00FF00FF00FF00FFu64) << 8u64);
    let v5 = ((v4 >> 16u64) & 0x0000FFFF0000FFFFu64) | ((v4 & 0x0000FFFF0000FFFFu64) << 16u64);
    let r = (v5 >> 32u64) | (v5 << 32u64);
    proof {
        assert forall|k: int| 0 <= k < 64 implies #[trigger] bits(r as nat, 64)[k] == bits(x as nat, 64).reverse()[k] by {
            lemma_swap_network(x, v1, v2, v3, v4, v5, r, k as u64, (63 - k) as u64);
            lemma_u64_bit(r, k as u64);
            lemma_u64_bit(x, (63 - k) as u64);
        }
        assert(bits(r as nat, 64) =~= bits(x as nat, 64).reverse());
        lemma_from_bits_of_bits(r as nat, 64);
        lemma2_to64();
        lemma_small_mod(r as nat, pow2(64));
    }
    r
}

/// Reverses all `usize::BITS` bits of `x`.
fn reverse_all_bits(x: usize) -> (r: usize)
    ensures
        r == bit_reversed(x as nat, usize::BITS as nat),
{
    let r64 = reverse_u64(x as u64);
    let shift: u64 = 64 - usize::BITS as u64;
    proof {
        assert(usize::BITS == 32 || usize::BITS == 64);
        vstd::bits::lemma_u64_shr_is_div(r64, shift);
        lemma_bit_reversed_narrow(x as nat, 64, usize::BITS as nat);
        lemma_bit_reversed_bound(x as nat, usize::BITS as nat);
        vstd::layout::unsigned_int_max_values();
    }
    (r64 >> shift) as usize
}

/// Reverses the low `log2n` bits of `x`: all bits are reversed with one
/// instruction, then shifted down into place.
pub fn bit_reverse(x: usize, log2n: usize) -> (r: usize)
    requires
        1 <= log2n <= usize::BITS,
    ensures
        r == bit_reversed(x as nat, log2n as nat),
{
    let full = reverse_all_bits(x);
    let shift = usize::BITS as usize - log2n;
    proof {
        vstd::bits::lemma_usize_shr_is_div(full, shift);
        lemma_bit_reversed_narrow(x as nat, usize::BITS as nat, log2n as nat);
    }
    full >> shift
}

} // verus!
