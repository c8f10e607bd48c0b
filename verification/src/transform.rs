//! What the transforms compute: the radix-2 decimation-in-time recursion,
//! and the facts linking it to the in-place iterative passes.

use vstd::prelude::*;
use vstd::arithmetic::power2::{pow2, lemma_pow2_pos, lemma_pow2_unfold, lemma2_to64};
use vstd::arithmetic::div_mod::{lemma_fundamental_div_mod_converse, lemma_small_mod};
use vstd::arithmetic::mul::{lemma_mul_is_associative, lemma_mul_is_commutative};
use crate::sample::ComplexSample;
use crate::bits::{bit_reversed, lemma_bit_reversed_split, bits, from_bits};

verus! {

/// The twiddle factor of the chosen direction.
pub open spec fn twiddle_of<C: ComplexSample>(inverse: bool, n: nat, k: nat) -> C {
    if inverse {
        C::spec_twiddle_inverse(n, k)
    } else {
        C::spec_twiddle(n, k)
    }
}

/// The samples at even positions.
pub open spec fn evens<C>(x: Seq<C>) -> Seq<C> {
    Seq::new(x.len() / 2, |i: int| x[2 * i])
}

/// The samples at odd positions.
pub open spec fn odds<C>(x: Seq<C>) -> Seq<C> {
    Seq::new(x.len() / 2, |i: int| x[2 * i + 1])
}

/// The radix-2 transform of `x` (whose length is a power of two):
/// a single sample is its own transform; otherwise, with `E` and `O` the
/// transforms of the even and odd samples and `h` half the length,
/// output `k < h` is `E[k] + w(n,k)·O[k]` and output `k + h` is
/// `E[k] - w(n,k)·O[k]`, where `w` is the forward twiddle (or the inverse
/// twiddle when `inverse` holds).
pub open spec fn radix2<C: ComplexSample>(x: Seq<C>, inverse: bool) -> Seq<C>
    decreases x.len(),
{
    if x.len() <= 1 {
        x
    } else {
        let h = x.len() / 2;
        let e = radix2(evens(x), inverse);
        let o = radix2(odds(x), inverse);
        Seq::new(
            x.len(),
            |k: int|
                {
                    let j = if k < h { k } else { k - h };
                    let t = twiddle_of::<C>(inverse, x.len(), j as nat).spec_mul(o[j]);
                    if k < h {
                        e[j].spec_add(t)
                    } else {
                        e[j].spec_sub(t)
                    }
                },
        )
    }
}

/// The forward transform.
pub open spec fn fft_spec<C: ComplexSample>(x: Seq<C>) -> Seq<C> {
    radix2(x, false)
}

/// Every sample divided by the length `n` (as a scalar of `C`).
pub open spec fn scaled<C: ComplexSample>(y: Seq<C>, n: nat) -> Seq<C> {
    Seq::new(y.len(), |i: int| y[i].spec_div_scalar(C::spec_scalar_from_usize(n)))
}

/// The inverse transform: the radix-2 recursion with inverse twiddles,
/// normalised by the length; a single sample is returned as it is.
pub open spec fn ifft_spec<C: ComplexSample>(x: Seq<C>) -> Seq<C> {
    if x.len() <= 1 {
        x
    } else {
        scaled(radix2(x, true), x.len())
    }
}

/// The butterfly network of depth `width` over `x` (of length `2^width`),
/// pass `s` combining blocks of `2^(s+1)` samples with the twiddle factors
/// `tw(s, k)`, `k < 2^s`: a single sample is left as it is; otherwise, with
/// `E` and `O` the networks of depth `width - 1` over the even and odd
/// samples and `h` half the length, output `k < h` is `E[k] + tw(width-1, k)·O[k]`
/// and output `k + h` is `E[k] - tw(width-1, k)·O[k]`.
pub open spec fn butterflies<C: ComplexSample>(x: Seq<C>, tw: spec_fn(nat, nat) -> C, width: nat) -> Seq<C>
    decreases width,
{
    if width == 0 {
        x
    } else {
        let h = x.len() / 2;
        let e = butterflies(evens(x), tw, (width - 1) as nat);
        let o = butterflies(odds(x), tw, (width - 1) as nat);
        Seq::new(
            x.len(),
            |k: int|
                {
                    let j = if k < h { k } else { k - h };
                    let t = tw((width - 1) as nat, j as nat).spec_mul(o[j]);
                    if k < h {
                        e[j].spec_add(t)
                    } else {
                        e[j].spec_sub(t)
                    }
                },
        )
    }
}

/// The sample type's own twiddle factors, by pass: pass `s` uses
/// `w(2^(s+1), k)` of the chosen direction.
pub open spec fn own_twiddles<C: ComplexSample>(inverse: bool) -> spec_fn(nat, nat) -> C {
    |s: nat, k: nat| twiddle_of::<C>(inverse, pow2(s + 1), k)
}

/// Twiddle factors read from a table: pass `s` uses entry `k` of row `s`.
pub open spec fn table_twiddles<C>(t: Seq<Vec<C>>) -> spec_fn(nat, nat) -> C {
    |s: nat, k: nat| t[s as int]@[k as int]
}

/// `t` has a row for each of the `log2n` passes, row `s` holding at least
/// the `2^s` factors that pass `s` reads.
pub open spec fn table_fits<C>(t: Seq<Vec<C>>, log2n: nat) -> bool {
    &&& t.len() >= log2n
    &&& forall|s: int| 0 <= s < log2n ==> #[trigger] t[s]@.len() >= pow2(s as nat)
}

/// The samples `x[r], x[r + stride], x[r + 2·stride], …` (`m` of them).
pub open spec fn decimate<C>(x: Seq<C>, r: nat, stride: nat, m: nat) -> Seq<C> {
    Seq::new(m, |q: int| x[r + q * stride])
}

/// What position `i` holds after `s` of the `width` butterfly passes over
/// the bit-reversed `x`: blocks of `2^s` positions, block `b` holding the
/// depth-`s` network over the samples of `x` whose index is
/// `bit_reversed(b, width - s)` modulo `2^(width - s)`.
pub open spec fn after_passes<C: ComplexSample>(
    x: Seq<C>,
    width: nat,
    s: nat,
    i: nat,
    tw: spec_fn(nat, nat) -> C,
) -> C {
    let m = pow2(s);
    let rest = (width - s) as nat;
    butterflies(decimate(x, bit_reversed(i / m, rest), pow2(rest), m), tw, s)[(i % m) as int]
}

/// Before any pass, position `i` holds the sample at the bit-reversed index.
pub proof fn lemma_after_no_pass<C: ComplexSample>(x: Seq<C>, width: nat, i: nat, tw: spec_fn(nat, nat) -> C)
    ensures
        after_passes(x, width, 0, i, tw) == x[bit_reversed(i, width) as int],
{
    lemma2_to64();
    let d = decimate(x, bit_reversed(i, width), pow2(width), 1);
    assert(d[0] == x[bit_reversed(i, width) as int]);
}

/// After all passes, the positions hold the whole network over `x`.
pub proof fn lemma_after_all_passes<C: ComplexSample>(x: Seq<C>, width: nat, i: nat, tw: spec_fn(nat, nat) -> C)
    requires
        x.len() == pow2(width),
        i < x.len(),
    ensures
        after_passes(x, width, width, i, tw) == butterflies(x, tw, width)[i as int],
{
    lemma2_to64();
    lemma_small_mod(i, pow2(width));
    assert(i / pow2(width) == 0) by {
        lemma_fundamental_div_mod_converse(i as int, pow2(width) as int, 0, i as int);
    }
    assert(bits(0, 0).reverse() =~= Seq::<bool>::empty());
    assert(bit_reversed(0, 0) == 0) by {
        assert(from_bits(Seq::<bool>::empty()) == 0);
    }
    assert(decimate(x, 0, 1, pow2(width)) =~= x);
}

/// The even and odd samples of a decimated sequence are decimated sequences
/// with twice the stride.
pub proof fn lemma_decimate_halves<C>(x: Seq<C>, r: nat, stride: nat, m: nat)
    ensures
        evens(decimate(x, r, stride, 2 * m)) =~= decimate(x, r, 2 * stride, m),
        odds(decimate(x, r, stride, 2 * m)) =~= decimate(x, r + stride, 2 * stride, m),
{
    let d = decimate(x, r, stride, 2 * m);
    let de = decimate(x, r, 2 * stride, m);
    let dd = decimate(x, r + stride, 2 * stride, m);
    assert forall|q: int| 0 <= q < m implies #[trigger] evens(d)[q] == de[q] by {
        assert(2 * q * stride == q * (2 * stride)) by (nonlinear_arith);
        assert(evens(d)[q] == d[2 * q]);
        assert(d[2 * q] == x[r + (2 * q) * stride]);
    }
    assert forall|q: int| 0 <= q < m implies #[trigger] odds(d)[q] == dd[q] by {
        assert((2 * q + 1) * stride == (r + stride) + q * (2 * stride) - r) by (nonlinear_arith);
        assert(odds(d)[q] == d[2 * q + 1]);
        assert(d[2 * q + 1] == x[r + (2 * q + 1) * stride]);
    }
    assert(evens(d) =~= de);
    assert(odds(d) =~= dd);
}

/// One butterfly of pass `s + 1`: the two outputs at offsets `k` and
/// `k + 2^s` of block `b` come from the two inputs at the same positions.
pub proof fn lemma_butterfly<C: ComplexSample>(
    x: Seq<C>,
    width: nat,
    s: nat,
    b: nat,
    k: nat,
    tw: spec_fn(nat, nat) -> C,
)
    requires
        s < width,
        k < pow2(s),
    ensures
        ({
            let m = pow2(s);
            let i = b * (2 * m) + k;
            let e = after_passes(x, width, s, i, tw);
            let o = after_passes(x, width, s, i + m, tw);
            let t = tw(s, k).spec_mul(o);
            &&& after_passes(x, width, s + 1, i, tw) == e.spec_add(t)
            &&& after_passes(x, width, s + 1, i + m, tw) == e.spec_sub(t)
        }),
{
    let m = pow2(s);
    let big = pow2(s + 1);
    let i = b * (2 * m) + k;
    let rest = (width - s) as nat;
    let rest1 = (width - s - 1) as nat;
    lemma_pow2_unfold(s + 1);
    lemma_pow2_unfold(rest);
    lemma_pow2_pos(s);
    assert(big == 2 * m);
    // positions after pass s + 1
    assert(i == b * big + k);
    lemma_fundamental_div_mod_converse(i as int, big as int, b as int, k as int);
    assert(i + m == b * big + (k + m));
    lemma_fundamental_div_mod_converse((i + m) as int, big as int, b as int, (k + m) as int);
    // positions after pass s
    assert(i == (2 * b) * m + k) by {
        lemma_mul_is_associative(b as int, 2, m as int);
        lemma_mul_is_commutative(b as int, 2);
    }
    lemma_fundamental_div_mod_converse(i as int, m as int, (2 * b) as int, k as int);
    assert(i + m == (2 * b + 1) * m + k) by (nonlinear_arith)
        requires i == (2 * b) * m + k;
    lemma_fundamental_div_mod_converse((i + m) as int, m as int, (2 * b + 1) as int, k as int);
    // which samples each block holds
    lemma_bit_reversed_split(b, rest);
    assert(rest - 1 == rest1);
    let r1 = bit_reversed(b, rest1);
    let d = decimate(x, r1, pow2(rest1), big);
    lemma_decimate_halves(x, r1, pow2(rest1), m);
    assert(pow2(rest) == 2 * pow2(rest1));
    let e_seq = butterflies(evens(d), tw, s);
    let o_seq = butterflies(odds(d), tw, s);
    assert(e_seq == butterflies(decimate(x, bit_reversed(2 * b, rest), pow2(rest), m), tw, s));
    assert(o_seq == butterflies(decimate(x, bit_reversed(2 * b + 1, rest), pow2(rest), m), tw, s));
    assert(d.len() == big);
    assert(d.len() / 2 == m);
}

/// The network has as many outputs as inputs.
pub proof fn lemma_butterflies_len<C: ComplexSample>(x: Seq<C>, tw: spec_fn(nat, nat) -> C, width: nat)
    ensures
        butterflies(x, tw, width).len() == x.len(),
{
}

/// Networks whose twiddle factors agree on every pass give the same outputs.
pub proof fn lemma_butterflies_congruent<C: ComplexSample>(
    x: Seq<C>,
    tw1: spec_fn(nat, nat) -> C,
    tw2: spec_fn(nat, nat) -> C,
    width: nat,
)
    requires
        forall|s: nat, k: nat| s < width && k < pow2(s) ==> #[trigger] tw1(s, k) == tw2(s, k),
        x.len() == pow2(width),
    ensures
        butterflies(x, tw1, width) == butterflies(x, tw2, width),
    decreases width,
{
    if width > 0 {
        let w1 = (width - 1) as nat;
        lemma_pow2_unfold(width);
        lemma_butterflies_congruent(evens(x), tw1, tw2, w1);
        lemma_butterflies_congruent(odds(x), tw1, tw2, w1);
        let h = x.len() / 2;
        assert(h == pow2(w1));
        assert(butterflies(x, tw1, width) =~= butterflies(x, tw2, width));
    }
}

/// With the sample type's own twiddle factors, the network is the radix-2
/// transform.
pub proof fn lemma_radix2_is_butterflies<C: ComplexSample>(x: Seq<C>, inverse: bool, width: nat)
    requires
        x.len() == pow2(width),
    ensures
        radix2(x, inverse) == butterflies(x, own_twiddles::<C>(inverse), width),
    decreases width,
{
    if width == 0 {
        lemma2_to64();
    } else {
        let w1 = (width - 1) as nat;
        lemma_pow2_unfold(width);
        lemma_pow2_pos(w1);
        lemma_radix2_is_butterflies(evens(x), inverse, w1);
        lemma_radix2_is_butterflies(odds(x), inverse, w1);
        assert(w1 + 1 == width);
        assert(radix2(x, inverse) =~= butterflies(x, own_twiddles::<C>(inverse), width));
    }
}

/// The transform has as many outputs as inputs.
pub proof fn lemma_radix2_len<C: ComplexSample>(x: Seq<C>, inverse: bool)
    ensures
        radix2(x, inverse).len() == x.len(),
{
}

} // verus!
