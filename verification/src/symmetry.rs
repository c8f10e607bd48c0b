//! With exact complex arithmetic and a conjugation: Hermitian symmetry of
//! the spectrum of a real signal, and Parseval's theorem.

use vstd::prelude::*;
use vstd::arithmetic::power2::{pow2, lemma_pow2_pos};
use vstd::arithmetic::mul::lemma_mul_is_commutative;
use crate::sample::ComplexSample;
use crate::error::{valid_length, MAX_FFT_SIZE, lemma_valid_power};
use crate::transform::{twiddle_of, fft_spec, lemma_radix2_len};
use crate::dft::{
    sum, dft, dft_bin, lemma_sum_congruent, lemma_sum_scale, law_fft_is_dft, use_mul_assoc, use_period,
};
use crate::inversion::{
    exact_complex_field, n_times, use_field_arith, use_mul_comm, use_conjugate, use_divide,
    lemma_sum_scale_right, lemma_sum_swap, lemma_phase, lemma_inversion_bin,
};

verus! {

/// `cj` behaves as complex conjugation: it preserves sums and products and
/// takes each forward twiddle factor `w(n, i)` to the inverse one `w⁻(n, i)`
/// (for every legal size `n`).
pub open spec fn conjugation<C: ComplexSample>(cj: spec_fn(C) -> C) -> bool {
    &&& forall|a: C, b: C| #[trigger] cj(a.spec_add(b)) == cj(a).spec_add(cj(b))
    &&& forall|a: C, b: C| #[trigger] cj(a.spec_mul(b)) == cj(a).spec_mul(cj(b))
    &&& forall|n: nat, i: nat| valid_length(n) ==> #[trigger] cj(C::spec_twiddle(n, i)) == C::spec_twiddle_inverse(n, i)
}

/// Conjugation of a sum is the sum of the conjugates.
proof fn lemma_conj_sum<C: ComplexSample>(cj: spec_fn(C) -> C, f: spec_fn(nat) -> C, count: nat)
    requires
        conjugation(cj),
    ensures
        cj(sum(f, count)) == sum(|m: nat| cj(f(m)), count),
    decreases count,
{
    if count > 1 {
        lemma_conj_sum(cj, f, (count - 1) as nat);
        assert(cj(sum(f, (count - 1) as nat).spec_add(f((count - 1) as nat))) == cj(sum(f, (count - 1) as nat)).spec_add(
            cj(f((count - 1) as nat)),
        ));
    }
}

/// The conjugate of output `k` of the DFT is the inverse-direction sum of
/// the conjugated samples: `cj(X[k]) = Σ_j w⁻(n, k·j)·cj(x[j])`.
proof fn lemma_conj_bin<C: ComplexSample>(cj: spec_fn(C) -> C, x: Seq<C>, k: nat)
    requires
        conjugation(cj),
        valid_length(x.len()),
    ensures
        cj(dft_bin(x, k, false)) == sum(
            |j: nat| twiddle_of::<C>(true, x.len(), k * j).spec_mul(cj(x[j as int])),
            x.len(),
        ),
{
    let n = x.len();
    let f = |j: nat| twiddle_of::<C>(false, n, k * j).spec_mul(x[j as int]);
    lemma_conj_sum(cj, f, n);
    let g = |j: nat| twiddle_of::<C>(true, n, k * j).spec_mul(cj(x[j as int]));
    let cf = |m: nat| cj(f(m));
    assert forall|j: nat| j < n implies #[trigger] cf(j) == g(j) by {
        assert(cj(C::spec_twiddle(n, k * j)) == C::spec_twiddle_inverse(n, k * j));
    }
    lemma_sum_congruent(cf, g, n);
}

/// Hermitian symmetry: with exact arithmetic, when every sample equals its
/// own conjugate (a real signal), output `(n - k) mod n` of the forward
/// transform is the conjugate of output `k`.
pub proof fn law_hermitian_symmetry<C: ComplexSample>(cj: spec_fn(C) -> C, x: Seq<C>, width: nat)
    requires
        exact_complex_field::<C>(),
        conjugation(cj),
        x.len() == pow2(width),
        x.len() <= MAX_FFT_SIZE,
        forall|m: int| 0 <= m < x.len() ==> #[trigger] cj(x[m]) == x[m],
    ensures
        forall|k: int|
            0 <= k < x.len() ==> #[trigger] fft_spec(x)[((x.len() - k) % x.len() as int)] == cj(fft_spec(x)[k]),
{
    use_field_arith::<C>();
    let n = x.len();
    lemma_pow2_pos(width);
    lemma_valid_power(width);
    law_fft_is_dft(x, width);
    assert forall|k: int| 0 <= k < n implies #[trigger] fft_spec(x)[((n - k) % n as int)] == cj(fft_spec(x)[k]) by {
        let kk = k as nat;
        let k2 = ((n - k) % n as int) as nat;
        lemma_conj_bin(cj, x, kk);
        let g = |j: nat| twiddle_of::<C>(true, n, kk * j).spec_mul(cj(x[j as int]));
        let h = |j: nat| twiddle_of::<C>(false, n, k2 * j).spec_mul(x[j as int]);
        assert forall|j: nat| j < n implies #[trigger] g(j) == h(j) by {
            let e1 = ((n - (kk * j) % n) % n as int) as nat;
            use_conjugate::<C>(n, kk * j);
            lemma_phase(n, kk, j, 0);
            assert(j * 0 == 0);
            assert(0 + n - kk == n - k);
            lemma_mul_is_commutative(j as int, k2 as int);
            use_period::<C>(false, n, e1);
            use_period::<C>(false, n, k2 * j);
        }
        lemma_sum_congruent(g, h, n);
        assert(k2 < n) by {
            assert((n - k) % n as int >= 0);
        }
    }
}

/// Parseval's theorem: with exact arithmetic, the energy of the signal is
/// the energy of its spectrum divided by the length:
/// `Σ_m x[m]·cj(x[m]) = (Σ_k X[k]·cj(X[k])) / n`.
pub proof fn law_parseval<C: ComplexSample>(cj: spec_fn(C) -> C, x: Seq<C>, width: nat)
    requires
        exact_complex_field::<C>(),
        conjugation(cj),
        x.len() == pow2(width),
        x.len() <= MAX_FFT_SIZE,
    ensures
        sum(|m: nat| x[m as int].spec_mul(cj(x[m as int])), x.len()) == sum(
            |k: nat| fft_spec(x)[k as int].spec_mul(cj(fft_spec(x)[k as int])),
            x.len(),
        ).spec_div_scalar(C::spec_scalar_from_usize(x.len())),
{
    use_field_arith::<C>();
    let n = x.len();
    lemma_pow2_pos(width);
    lemma_valid_power(width);
    law_fft_is_dft(x, width);
    lemma_radix2_len(x, false);
    let xs = fft_spec(x);
    let y = |m: nat| x[m as int].spec_mul(cj(x[m as int]));
    let energy = |k: nat| xs[k as int].spec_mul(cj(xs[k as int]));
    // each spectral energy term as a sum over the signal
    let big = |k: nat, j: nat| twiddle_of::<C>(true, n, j * k).spec_mul(xs[k as int]).spec_mul(cj(x[j as int]));
    let rows = |k: nat| sum(|j: nat| big(k, j), n);
    assert forall|k: nat| k < n implies #[trigger] energy(k) == rows(k) by {
        lemma_conj_bin(cj, x, k);
        assert(xs[k as int] == dft_bin(x, k, false));
        let g = |j: nat| twiddle_of::<C>(true, n, k * j).spec_mul(cj(x[j as int]));
        lemma_sum_scale(false, xs[k as int], g, n);
        let sg = |jj: nat| xs[k as int].spec_mul(g(jj));
        let bk = |j: nat| big(k, j);
        assert forall|j: nat| j < n implies #[trigger] sg(j) == bk(j) by {
            let w = twiddle_of::<C>(true, n, k * j);
            assert(k * j == j * k) by {
                lemma_mul_is_commutative(k as int, j as int);
            }
            use_mul_assoc(false, xs[k as int], w, cj(x[j as int]));
            use_mul_comm(xs[k as int], w);
        }
        lemma_sum_congruent(sg, bk, n);
    }
    lemma_sum_congruent(energy, rows, n);
    lemma_sum_swap(big, n, n);
    let cols = |j: nat| sum(|k: nat| big(k, j), n);
    // each column is n copies of y(j)
    let copies = |j: nat| n_times(y(j), n);
    assert forall|j: nat| j < n implies #[trigger] cols(j) == copies(j) by {
        let inner = |k: nat| twiddle_of::<C>(true, n, j * k).spec_mul(xs[k as int]);
        lemma_sum_scale_right(inner, cj(x[j as int]), n);
        assert((|k: nat| inner(k).spec_mul(cj(x[j as int]))) =~= (|k: nat| big(k, j)));
        assert(sum(inner, n) == dft_bin(xs, j, true));
        lemma_inversion_bin(x, width, j);
        let xj = |m: nat| x[j as int];
        lemma_sum_scale_right(xj, cj(x[j as int]), n);
        let prod = |m: nat| xj(m).spec_mul(cj(x[j as int]));
        let yj = |m: nat| y(j);
        assert forall|m: nat| m < n implies #[trigger] prod(m) == yj(m) by {}
        lemma_sum_congruent(prod, yj, n);
    }
    lemma_sum_congruent(cols, copies, n);
    // Σ_j Σ_k y(j) = Σ_k Σ_j y(j) = n copies of Σ_j y(j)
    let grid = |j: nat, k: nat| y(j);
    lemma_sum_swap(grid, n, n);
    let grid_rows = |jj: nat| sum(|k: nat| grid(jj, k), n);
    assert forall|j: nat| j < n implies #[trigger] copies(j) == grid_rows(j) by {
        assert((|m: nat| y(j)) =~= (|k: nat| grid(j, k)));
    }
    lemma_sum_congruent(copies, grid_rows, n);
    let total = sum(y, n);
    let grid_cols = |kk: nat| sum(|j: nat| grid(j, kk), n);
    let totals = |m: nat| total;
    assert forall|k: nat| k < n implies #[trigger] grid_cols(k) == totals(k) by {
        assert((|j: nat| grid(j, k)) =~= y);
    }
    lemma_sum_congruent(grid_cols, totals, n);
    assert(sum(energy, n) == n_times(total, n));
    use_divide::<C>(n, total);
}

} // verus!
