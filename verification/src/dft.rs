//! The transforms compute the discrete Fourier transform whenever the
//! sample arithmetic is exact.
//!
//! The public transforms are proved to return `radix2` of their input for any
//! deterministic sample arithmetic (floating point included). This module
//! proves that `radix2` equals the DFT sum
//! `X[k] = Σ_m w(n, k·m)·x[m]` for every arithmetic that obeys the algebraic
//! laws of exact complex numbers listed in `exact_arithmetic`.

use vstd::prelude::*;
use vstd::arithmetic::power2::{pow2, lemma_pow2_unfold, lemma_pow2_pos, lemma2_to64};
use vstd::arithmetic::div_mod::lemma_mod_multiples_vanish;
use crate::sample::ComplexSample;
use crate::error::{valid_length, MAX_FFT_SIZE, lemma_valid_power};
use crate::transform::{twiddle_of, radix2, evens, odds, fft_spec, ifft_spec, scaled};

verus! {

/// The laws of exact complex arithmetic that the DFT identity rests on,
/// for the twiddle factors `w` of one direction and every legal transform
/// size `n` (a power of two up to `MAX_FFT_SIZE`): addition is associative and
/// commutative, multiplication is associative and distributes over addition,
/// `w(n, 0)` is a unit, `w(n, i)·w(n, j) = w(n, i + j)`, `w` depends on its
/// exponent modulo `n`, `w(2m, 2i) = w(m, i)`, and `w(n, k + n/2) = -w(n, k)`
/// (stated as `e - w(n,k)·o = e + w(n, k + n/2)·o`).
#[verifier::opaque]
pub open spec fn exact_arithmetic<C: ComplexSample>(inverse: bool) -> bool {
    &&& forall|a: C, b: C| #[trigger] a.spec_add(b) == b.spec_add(a)
    &&& forall|a: C, b: C, c: C| #[trigger] a.spec_add(b).spec_add(c) == a.spec_add(b.spec_add(c))
    &&& forall|a: C, b: C, c: C| #[trigger] a.spec_mul(b.spec_add(c)) == a.spec_mul(b).spec_add(a.spec_mul(c))
    &&& forall|a: C, b: C, c: C| #[trigger] a.spec_mul(b).spec_mul(c) == a.spec_mul(b.spec_mul(c))
    &&& forall|n: nat, a: C| valid_length(n) ==> #[trigger] twiddle_of::<C>(inverse, n, 0).spec_mul(a) == a
    &&& forall|n: nat, i: nat, j: nat|
        valid_length(n) ==> #[trigger] twiddle_of::<C>(inverse, n, i).spec_mul(twiddle_of::<C>(inverse, n, j))
            == twiddle_of::<C>(inverse, n, i + j)
    &&& forall|n: nat, i: nat|
        valid_length(n) ==> #[trigger] twiddle_of::<C>(inverse, n, i) == twiddle_of::<C>(inverse, n, i % n)
    &&& forall|m: nat, i: nat|
        valid_length(2 * m) ==> #[trigger] twiddle_of::<C>(inverse, 2 * m, 2 * i) == twiddle_of::<C>(inverse, m, i)
    &&& forall|n: nat, k: nat, e: C, o: C|
        valid_length(n) && n >= 2 ==> #[trigger] e.spec_sub(twiddle_of::<C>(inverse, n, k).spec_mul(o))
            == e.spec_add(twiddle_of::<C>(inverse, n, k + n / 2).spec_mul(o))
}

/// `f(0) + f(1) + … + f(count - 1)`, summed left to right (`count ≥ 1`).
pub open spec fn sum<C: ComplexSample>(f: spec_fn(nat) -> C, count: nat) -> C
    decreases count,
{
    if count <= 1 {
        f(0)
    } else {
        sum(f, (count - 1) as nat).spec_add(f((count - 1) as nat))
    }
}

/// Output `k` of the discrete Fourier transform of `x`:
/// `Σ_m w(n, k·m)·x[m]` with `n = x.len()`.
pub open spec fn dft_bin<C: ComplexSample>(x: Seq<C>, k: nat, inverse: bool) -> C {
    sum(|m: nat| twiddle_of::<C>(inverse, x.len(), k * m).spec_mul(x[m as int]), x.len())
}

/// The discrete Fourier transform of `x`.
pub open spec fn dft<C: ComplexSample>(x: Seq<C>, inverse: bool) -> Seq<C> {
    Seq::new(x.len(), |k: int| dft_bin(x, k as nat, inverse))
}

pub(crate) proof fn use_add_comm<C: ComplexSample>(inverse: bool, a: C, b: C)
    requires
        exact_arithmetic::<C>(inverse),
    ensures
        a.spec_add(b) == b.spec_add(a),
{
    reveal(exact_arithmetic);
}

pub(crate) proof fn use_add_assoc<C: ComplexSample>(inverse: bool, a: C, b: C, c: C)
    requires
        exact_arithmetic::<C>(inverse),
    ensures
        a.spec_add(b).spec_add(c) == a.spec_add(b.spec_add(c)),
{
    reveal(exact_arithmetic);
}

pub(crate) proof fn use_distrib<C: ComplexSample>(inverse: bool, a: C, b: C, c: C)
    requires
        exact_arithmetic::<C>(inverse),
    ensures
        a.spec_mul(b.spec_add(c)) == a.spec_mul(b).spec_add(a.spec_mul(c)),
{
    reveal(exact_arithmetic);
}

pub(crate) proof fn use_mul_assoc<C: ComplexSample>(inverse: bool, a: C, b: C, c: C)
    requires
        exact_arithmetic::<C>(inverse),
    ensures
        a.spec_mul(b).spec_mul(c) == a.spec_mul(b.spec_mul(c)),
{
    reveal(exact_arithmetic);
}

pub(crate) proof fn use_unit<C: ComplexSample>(inverse: bool, n: nat, a: C)
    requires
        exact_arithmetic::<C>(inverse),
        valid_length(n),
    ensures
        twiddle_of::<C>(inverse, n, 0).spec_mul(a) == a,
{
    reveal(exact_arithmetic);
}

pub(crate) proof fn use_twiddle_mul<C: ComplexSample>(inverse: bool, n: nat, i: nat, j: nat)
    requires
        exact_arithmetic::<C>(inverse),
        valid_length(n),
    ensures
        twiddle_of::<C>(inverse, n, i).spec_mul(twiddle_of::<C>(inverse, n, j)) == twiddle_of::<C>(inverse, n, i + j),
{
    reveal(exact_arithmetic);
}

pub(crate) proof fn use_period<C: ComplexSample>(inverse: bool, n: nat, i: nat)
    requires
        exact_arithmetic::<C>(inverse),
        valid_length(n),
    ensures
        twiddle_of::<C>(inverse, n, i) == twiddle_of::<C>(inverse, n, i % n),
{
    reveal(exact_arithmetic);
}

pub(crate) proof fn use_half<C: ComplexSample>(inverse: bool, m: nat, i: nat)
    requires
        exact_arithmetic::<C>(inverse),
        valid_length(2 * m),
    ensures
        twiddle_of::<C>(inverse, 2 * m, 2 * i) == twiddle_of::<C>(inverse, m, i),
{
    reveal(exact_arithmetic);
}

pub(crate) proof fn use_antipode<C: ComplexSample>(inverse: bool, n: nat, k: nat, e: C, o: C)
    requires
        exact_arithmetic::<C>(inverse),
        valid_length(n),
        n >= 2,
    ensures
        e.spec_sub(twiddle_of::<C>(inverse, n, k).spec_mul(o)) == e.spec_add(
            twiddle_of::<C>(inverse, n, k + n / 2).spec_mul(o),
        ),
{
    reveal(exact_arithmetic);
}

/// Sums of terms that agree are equal.
pub proof fn lemma_sum_congruent<C: ComplexSample>(f: spec_fn(nat) -> C, g: spec_fn(nat) -> C, count: nat)
    requires
        forall|m: nat| m < count ==> #[trigger] f(m) == g(m),
        count >= 1 || f(0) == g(0),
    ensures
        sum(f, count) == sum(g, count),
    decreases count,
{
    if count > 1 {
        lemma_sum_congruent(f, g, (count - 1) as nat);
    }
}

/// A sum over `2h` terms is the sum over the even terms plus the sum over
/// the odd terms.
pub proof fn lemma_sum_split<C: ComplexSample>(inverse: bool, f: spec_fn(nat) -> C, h: nat)
    requires
        exact_arithmetic::<C>(inverse),
        h >= 1,
    ensures
        sum(f, 2 * h) == sum(|m: nat| f(2 * m), h).spec_add(sum(|m: nat| f(2 * m + 1), h)),
    decreases h,
{
    let fe = |m: nat| f(2 * m);
    let fo = |m: nat| f(2 * m + 1);
    if h == 1 {
        assert(sum(f, 1) == f(0));
        assert(sum(f, 2) == f(0).spec_add(f(1)));
        assert(sum(fe, 1) == f(0));
        assert(sum(fo, 1) == f(1));
    } else {
        let h1 = (h - 1) as nat;
        lemma_sum_split(inverse, f, h1);
        let a = sum(fe, h1);
        let b = sum(fo, h1);
        let p = f((2 * h1) as nat);
        let q = f((2 * h1 + 1) as nat);
        assert(sum(f, 2 * h) == sum(f, (2 * h - 1) as nat).spec_add(q));
        assert(sum(f, (2 * h - 1) as nat) == sum(f, 2 * h1).spec_add(p));
        assert(sum(fe, h) == a.spec_add(fe(h1)));
        assert(sum(fo, h) == b.spec_add(fo(h1)));
        assert(fe(h1) == p);
        assert(fo(h1) == q);
        // ((a + b) + p) + q == (a + p) + (b + q)
        use_add_assoc(inverse, a, b, p);
        use_add_comm(inverse, b, p);
        use_add_assoc(inverse, a, p, b);
        use_add_assoc(inverse, a.spec_add(p), b, q);
    }
}

/// Multiplication distributes over a sum.
pub proof fn lemma_sum_scale<C: ComplexSample>(inverse: bool, c: C, f: spec_fn(nat) -> C, count: nat)
    requires
        exact_arithmetic::<C>(inverse),
    ensures
        c.spec_mul(sum(f, count)) == sum(|m: nat| c.spec_mul(f(m)), count),
    decreases count,
{
    if count > 1 {
        lemma_sum_scale(inverse, c, f, (count - 1) as nat);
        use_distrib(inverse, c, sum(f, (count - 1) as nat), f((count - 1) as nat));
    }
}

/// The radix-2 recursion computes the discrete Fourier transform.
pub proof fn lemma_radix2_is_dft<C: ComplexSample>(x: Seq<C>, width: nat, k: nat, inverse: bool)
    requires
        exact_arithmetic::<C>(inverse),
        x.len() == pow2(width),
        x.len() <= MAX_FFT_SIZE,
        k < x.len(),
    ensures
        radix2(x, inverse)[k as int] == dft_bin(x, k, inverse),
    decreases width,
{
    let n = x.len();
    lemma_pow2_pos(width);
    lemma_valid_power(width);
    if width == 0 {
        lemma2_to64();
        assert(k == 0);
        use_unit(inverse, 1, x[0]);
        assert(dft_bin(x, 0, inverse) == twiddle_of::<C>(inverse, 1, 0).spec_mul(x[0]));
    } else {
        let w1 = (width - 1) as nat;
        lemma_pow2_unfold(width);
        let h = pow2(w1);
        assert(n == 2 * h);
        lemma_pow2_pos(w1);
        lemma_valid_power(w1);
        let xe = evens(x);
        let xo = odds(x);
        let j: nat = if k < h { k } else { (k - h) as nat };
        lemma_radix2_is_dft(xe, w1, j, inverse);
        lemma_radix2_is_dft(xo, w1, j, inverse);
        let e = radix2(xe, inverse);
        let o = radix2(xo, inverse);
        let wk = twiddle_of::<C>(inverse, n, k);
        // The output in terms of the half transforms.
        assert(radix2(x, inverse)[k as int] == e[j as int].spec_add(wk.spec_mul(o[j as int]))) by {
            if k >= h {
                use_antipode(inverse, n, j, e[j as int], o[j as int]);
                assert(j + n / 2 == k);
            }
        }
        // Terms of the full sum.
        let f = |m: nat| twiddle_of::<C>(inverse, n, k * m).spec_mul(x[m as int]);
        let fe = |m: nat| f(2 * m);
        let fo = |m: nat| f(2 * m + 1);
        lemma_sum_split(inverse, f, h);
        assert(dft_bin(x, k, inverse) == sum(f, n));
        // Even half.
        let ge = |m: nat| twiddle_of::<C>(inverse, h, j * m).spec_mul(xe[m as int]);
        assert forall|m: nat| m < h implies #[trigger] fe(m) == ge(m) by {
            assert(k * (2 * m) == 2 * (k * m)) by (nonlinear_arith);
            use_half::<C>(inverse, h, k * m);
            lemma_same_phase(h, k, j, m);
            use_period::<C>(inverse, h, k * m);
            use_period::<C>(inverse, h, j * m);
        }
        lemma_sum_congruent(fe, ge, h);
        assert(e[j as int] == sum(ge, h));
        // Odd half.
        let go = |m: nat| twiddle_of::<C>(inverse, h, j * m).spec_mul(xo[m as int]);
        let gs = |m: nat| wk.spec_mul(go(m));
        assert(o[j as int] == sum(go, h));
        lemma_sum_scale(inverse, wk, go, h);
        assert forall|m: nat| m < h implies #[trigger] fo(m) == gs(m) by {
            assert(k * (2 * m + 1) == k + 2 * (k * m)) by (nonlinear_arith);
            use_twiddle_mul::<C>(inverse, n, k, 2 * (k * m));
            use_half::<C>(inverse, h, k * m);
            lemma_same_phase(h, k, j, m);
            use_period::<C>(inverse, h, k * m);
            use_period::<C>(inverse, h, j * m);
            use_mul_assoc(inverse, wk, twiddle_of::<C>(inverse, n, 2 * (k * m)), x[(2 * m + 1) as int]);
        }
        lemma_sum_congruent(fo, gs, h);
    }
}

/// `k·m` and `j·m` agree modulo `h` when `k` is `j` or `j + h`.
proof fn lemma_same_phase(h: nat, k: nat, j: nat, m: nat)
    requires
        h > 0,
        k == j || k == j + h,
    ensures
        (k * m) % h == (j * m) % h,
{
    if k == j + h {
        assert(k * m == h * m + j * m) by (nonlinear_arith)
            requires k == j + h;
        lemma_mod_multiples_vanish(m as int, (j * m) as int, h as int);
    }
}

/// The forward transform is the discrete Fourier transform, for exact
/// arithmetic: output `k` is `Σ_m w(n, k·m)·x[m]`.
pub proof fn law_fft_is_dft<C: ComplexSample>(x: Seq<C>, width: nat)
    requires
        exact_arithmetic::<C>(false),
        x.len() == pow2(width),
        x.len() <= MAX_FFT_SIZE,
    ensures
        fft_spec(x) == dft(x, false),
        fft_spec(x).len() == x.len(),
        forall|k: nat| k < x.len() ==> #[trigger] fft_spec(x)[k as int] == sum(
            |m: nat| C::spec_twiddle(x.len(), k * m).spec_mul(x[m as int]),
            x.len(),
        ),
{
    crate::transform::lemma_radix2_len(x, false);
    assert forall|k: int| 0 <= k < x.len() implies #[trigger] fft_spec(x)[k] == dft(x, false)[k] by {
        lemma_radix2_is_dft(x, width, k as nat, false);
    }
    assert(fft_spec(x) =~= dft(x, false));
    assert forall|k: nat| k < x.len() implies #[trigger] fft_spec(x)[k as int] == sum(
        |m: nat| C::spec_twiddle(x.len(), k * m).spec_mul(x[m as int]),
        x.len(),
    ) by {
        let f = |m: nat| twiddle_of::<C>(false, x.len(), k * m).spec_mul(x[m as int]);
        let g = |m: nat| C::spec_twiddle(x.len(), k * m).spec_mul(x[m as int]);
        assert(f =~= g);
    }
}

/// The inverse transform is the inverse discrete Fourier transform divided
/// by the length, for exact arithmetic: output `j` is
/// `(Σ_k w⁻¹(n, j·k)·X[k]) / n` when `n ≥ 2`.
pub proof fn law_ifft_is_inverse_dft<C: ComplexSample>(x: Seq<C>, width: nat)
    requires
        exact_arithmetic::<C>(true),
        x.len() == pow2(width),
        x.len() <= MAX_FFT_SIZE,
        x.len() >= 2,
    ensures
        ifft_spec(x) == scaled(dft(x, true), x.len()),
        ifft_spec(x).len() == x.len(),
        forall|j: nat| j < x.len() ==> #[trigger] ifft_spec(x)[j as int] == sum(
            |k: nat| C::spec_twiddle_inverse(x.len(), j * k).spec_mul(x[k as int]),
            x.len(),
        ).spec_div_scalar(C::spec_scalar_from_usize(x.len())),
{
    crate::transform::lemma_radix2_len(x, true);
    assert forall|k: int| 0 <= k < x.len() implies #[trigger] radix2(x, true)[k] == dft(x, true)[k] by {
        lemma_radix2_is_dft(x, width, k as nat, true);
    }
    assert(radix2(x, true) =~= dft(x, true));
    assert forall|j: nat| j < x.len() implies #[trigger] ifft_spec(x)[j as int] == sum(
        |k: nat| C::spec_twiddle_inverse(x.len(), j * k).spec_mul(x[k as int]),
        x.len(),
    ).spec_div_scalar(C::spec_scalar_from_usize(x.len())) by {
        let f = |k: nat| twiddle_of::<C>(true, x.len(), j * k).spec_mul(x[k as int]);
        let g = |k: nat| C::spec_twiddle_inverse(x.len(), j * k).spec_mul(x[k as int]);
        assert(f =~= g);
    }
}

} // verus!
