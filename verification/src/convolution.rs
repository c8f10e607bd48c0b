//! With exact complex arithmetic, the forward transform turns circular
//! convolution into pointwise multiplication.

use vstd::prelude::*;
use vstd::arithmetic::power2::{pow2, lemma_pow2_pos};
use vstd::arithmetic::div_mod::lemma_small_mod;
use crate::sample::ComplexSample;
use crate::error::{MAX_FFT_SIZE, lemma_valid_power};
use crate::transform::{twiddle_of, fft_spec, ifft_spec};
use crate::dft::{
    sum, dft, dft_bin, lemma_sum_congruent, lemma_sum_scale, law_fft_is_dft, use_add_comm,
    use_mul_assoc, use_twiddle_mul, use_period,
};
use crate::inversion::{
    exact_complex_field, law_ifft_inverts_fft, use_field_arith, use_mul_comm, lemma_sum_concat,
    lemma_sum_scale_right, lemma_sum_swap, lemma_mod_congruent,
};

verus! {

/// The circular convolution of `a` and `b` (of equal length `n`):
/// output `i` is `Σ_j a[j]·b[(i - j) mod n]`.
pub open spec fn circular_convolution<C: ComplexSample>(a: Seq<C>, b: Seq<C>) -> Seq<C> {
    let n = a.len();
    Seq::new(
        n,
        |i: int| sum(|j: nat| a[j as int].spec_mul(b[((i + n - j) % n as int)]), n),
    )
}

/// The pointwise product of two spectra.
pub open spec fn pointwise<C: ComplexSample>(x: Seq<C>, y: Seq<C>) -> Seq<C> {
    Seq::new(x.len(), |k: int| x[k].spec_mul(y[k]))
}

/// Rotating the terms of a sum does not change it:
/// `Σ_{t<n} g((t + s) mod n) = Σ_{i<n} g(i)`.
proof fn lemma_sum_rotate<C: ComplexSample>(g: spec_fn(nat) -> C, n: nat, s: nat)
    requires
        exact_complex_field::<C>(),
        s < n,
    ensures
        sum(|t: nat| g((t + s) % n), n) == sum(g, n),
{
    use_field_arith::<C>();
    let rot = |t: nat| g((t + s) % n);
    if s == 0 {
        assert forall|t: nat| t < n implies #[trigger] rot(t) == g(t) by {
            lemma_small_mod(t, n);
        }
        lemma_sum_congruent(rot, g, n);
    } else {
        let a = (n - s) as nat;
        lemma_sum_concat(rot, a, s);
        lemma_sum_concat(g, s, a);
        let tail = |t: nat| g(s + t);
        let head = |u: nat| rot(a + u);
        assert forall|t: nat| t < a implies #[trigger] rot(t) == tail(t) by {
            lemma_small_mod(t + s, n);
        }
        lemma_sum_congruent(rot, tail, a);
        assert forall|u: nat| u < s implies #[trigger] head(u) == g(u) by {
            lemma_mod_congruent((a + u + s) as int, u as int, n as int, 1);
            lemma_small_mod(u, n);
        }
        lemma_sum_congruent(head, g, s);
        use_add_comm(false, sum(tail, a), sum(g, s));
    }
}

/// Output `k` of the transform of a circular convolution.
proof fn lemma_convolution_bin<C: ComplexSample>(a: Seq<C>, b: Seq<C>, width: nat, k: nat)
    requires
        exact_complex_field::<C>(),
        a.len() == pow2(width),
        a.len() <= MAX_FFT_SIZE,
        b.len() == a.len(),
        k < a.len(),
    ensures
        dft_bin(circular_convolution(a, b), k, false) == dft_bin(a, k, false).spec_mul(dft_bin(b, k, false)),
{
    use_field_arith::<C>();
    let n = a.len();
    lemma_pow2_pos(width);
    lemma_valid_power(width);
    let c = circular_convolution(a, b);
    let w = |e: nat| C::spec_twiddle(n, e);
    let bb = |i: nat, j: nat| b[((i + n - j) % n as int)];
    let big = |i: nat, j: nat| w(k * i).spec_mul(a[j as int].spec_mul(bb(i, j)));
    // Σ_i w(k·i)·c[i] = Σ_i Σ_j w(k·i)·(a[j]·b[i - j])
    let outer = |i: nat| twiddle_of::<C>(false, n, k * i).spec_mul(c[i as int]);
    let rows = |i: nat| sum(|j: nat| big(i, j), n);
    assert forall|i: nat| i < n implies #[trigger] outer(i) == rows(i) by {
        let ci = |j: nat| a[j as int].spec_mul(b[((i + n - j) % n as int)]);
        assert(c[i as int] == sum(ci, n));
        lemma_sum_scale(false, w(k * i), ci, n);
        assert((|j: nat| w(k * i).spec_mul(ci(j))) =~= (|j: nat| big(i, j)));
    }
    lemma_sum_congruent(outer, rows, n);
    lemma_sum_swap(big, n, n);
    let cols = |j: nat| sum(|i: nat| big(i, j), n);
    let yk = dft_bin(b, k, false);
    let fb = |t: nat| twiddle_of::<C>(false, n, k * t).spec_mul(b[t as int]);
    let fa = |j: nat| twiddle_of::<C>(false, n, k * j).spec_mul(a[j as int]);
    // Each column is w(k·j)·a[j]·Y[k].
    assert forall|j: nat| j < n implies #[trigger] cols(j) == fa(j).spec_mul(yk) by {
        let g = |i: nat| big(i, j);
        lemma_sum_rotate(g, n, j);
        let rot = |t: nat| g((t + j) % n);
        let nice = |t: nat| fa(j).spec_mul(fb(t));
        assert forall|t: nat| t < n implies #[trigger] rot(t) == nice(t) by {
            let i = (t + j) % n;
            // the shifted index brings b back to position t
            assert(((i + n - j) % n as int) == t) by {
                if t + j < n {
                    lemma_small_mod(t + j, n);
                    lemma_mod_congruent((t + n) as int, t as int, n as int, 1);
                    lemma_small_mod(t, n);
                } else {
                    lemma_mod_congruent((t + j) as int, (t + j - n) as int, n as int, 1);
                    lemma_small_mod((t + j - n) as nat, n);
                    lemma_small_mod(t, n);
                }
            }
            // the twiddle of the shifted index
            assert(w(k * i) == w(k * j + k * t)) by {
                assert(k * (t + j) == k * j + k * t) by (nonlinear_arith);
                lemma_mod_mul_congruent(k, t + j, n);
                use_period::<C>(false, n, k * i);
                use_period::<C>(false, n, k * (t + j));
            }
            use_twiddle_mul::<C>(false, n, k * j, k * t);
            let p = w(k * j);
            let q = w(k * t);
            let r = a[j as int];
            let s2 = b[t as int];
            use_mul_assoc(false, p, q, r.spec_mul(s2));
            use_mul_assoc(false, q, r, s2);
            use_mul_comm(q, r);
            use_mul_assoc(false, r, q, s2);
            use_mul_assoc(false, p, r, q.spec_mul(s2));
        }
        lemma_sum_congruent(rot, nice, n);
        lemma_sum_scale(false, fa(j), fb, n);
        assert(yk == sum(fb, n));
    }
    lemma_sum_congruent(cols, |j: nat| fa(j).spec_mul(yk), n);
    lemma_sum_scale_right(fa, yk, n);
    assert(dft_bin(a, k, false) == sum(fa, n));
}

/// `k·i` and `k·(i mod n)` agree modulo `n`.
proof fn lemma_mod_mul_congruent(k: nat, i: nat, n: nat)
    requires
        n > 0,
    ensures
        (k * (i % n)) % n == (k * i) % n,
{
    vstd::arithmetic::div_mod::lemma_fundamental_div_mod(i as int, n as int);
    let q = i / n;
    let r = i % n;
    assert(k * i == k * r + (k * q) * n) by (nonlinear_arith)
        requires i == n * q + r;
    lemma_mod_congruent((k * i) as int, (k * (i % n)) as int, n as int, (k * q) as int);
}

/// Convolution theorem: with exact arithmetic, the transform of the circular
/// convolution of `a` and `b` is the pointwise product of their transforms.
pub proof fn law_convolution<C: ComplexSample>(a: Seq<C>, b: Seq<C>, width: nat)
    requires
        exact_complex_field::<C>(),
        a.len() == pow2(width),
        a.len() <= MAX_FFT_SIZE,
        b.len() == a.len(),
    ensures
        fft_spec(circular_convolution(a, b)) == pointwise(fft_spec(a), fft_spec(b)),
{
    use_field_arith::<C>();
    let c = circular_convolution(a, b);
    law_fft_is_dft(a, width);
    law_fft_is_dft(b, width);
    law_fft_is_dft(c, width);
    assert forall|k: int| 0 <= k < a.len() implies #[trigger] dft(c, false)[k] == pointwise(
        dft(a, false),
        dft(b, false),
    )[k] by {
        lemma_convolution_bin(a, b, width, k as nat);
    }
    assert(dft(c, false) =~= pointwise(dft(a, false), dft(b, false)));
}

/// With exact arithmetic, the inverse transform of the product of two spectra
/// is the circular convolution of the signals.
pub proof fn law_convolution_by_transforms<C: ComplexSample>(a: Seq<C>, b: Seq<C>, width: nat)
    requires
        exact_complex_field::<C>(),
        a.len() == pow2(width),
        a.len() <= MAX_FFT_SIZE,
        b.len() == a.len(),
    ensures
        ifft_spec(pointwise(fft_spec(a), fft_spec(b))) == circular_convolution(a, b),
{
    law_convolution(a, b, width);
    law_ifft_inverts_fft(circular_convolution(a, b), width);
}

} // verus!
