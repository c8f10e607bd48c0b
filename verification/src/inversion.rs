//! With exact complex arithmetic, the inverse transform undoes the forward
//! transform.

use vstd::prelude::*;
use vstd::arithmetic::power2::{pow2, lemma_pow2_unfold, lemma_pow2_pos, lemma2_to64};
use vstd::arithmetic::div_mod::{lemma_mod_multiples_vanish, lemma_small_mod, lemma_fundamental_div_mod};
use crate::sample::ComplexSample;
use crate::error::{valid_length, MAX_FFT_SIZE, lemma_valid_power};
use crate::transform::{twiddle_of, fft_spec, ifft_spec, lemma_radix2_len};
use crate::dft::{
    exact_arithmetic, sum, dft, dft_bin, lemma_sum_congruent, lemma_sum_scale, law_fft_is_dft,
    lemma_radix2_is_dft, use_add_comm, use_add_assoc, use_mul_assoc, use_unit, use_twiddle_mul,
    use_period, use_half,
};

verus! {

/// `a + a + … + a` (`n` terms, `n ≥ 1`).
pub open spec fn n_times<C: ComplexSample>(a: C, n: nat) -> C {
    sum(|m: nat| a, n)
}

/// The laws of exact complex arithmetic under which inversion holds, for
/// every legal transform size `n` (a power of two up to `MAX_FFT_SIZE`): those
/// of `exact_arithmetic` for both directions; `zero` is an additive identity
/// that absorbs products; multiplication commutes and distributes from the
/// right; the
/// inverse twiddle `w⁻(n, i)` is `w(n, -i)`; `w(n, a) + w(n, a + n/2) = 0`;
/// and dividing `n` copies of `a` by `n` gives `a`.
#[verifier::opaque]
pub open spec fn exact_complex_field<C: ComplexSample>() -> bool {
    &&& exact_arithmetic::<C>(false)
    &&& exact_arithmetic::<C>(true)
    &&& forall|a: C| #[trigger] a.spec_add(C::spec_zero()) == a
    &&& forall|a: C| #[trigger] C::spec_zero().spec_mul(a) == C::spec_zero()
    &&& forall|a: C, b: C| #[trigger] a.spec_mul(b) == b.spec_mul(a)
    &&& forall|a: C, b: C, c: C| #[trigger] a.spec_add(b).spec_mul(c) == a.spec_mul(c).spec_add(b.spec_mul(c))
    &&& forall|n: nat, i: nat|
        valid_length(n) ==> #[trigger] C::spec_twiddle_inverse(n, i) == C::spec_twiddle(n, ((n - i % n) % n as int) as nat)
    &&& forall|n: nat, a: nat|
        valid_length(n) && n >= 2 ==> #[trigger] C::spec_twiddle(n, a).spec_add(C::spec_twiddle(n, a + n / 2))
            == C::spec_zero()
    &&& forall|n: nat, a: C| valid_length(n) ==> #[trigger] n_times(a, n).spec_div_scalar(C::spec_scalar_from_usize(n)) == a
}

pub(crate) proof fn use_field_arith<C: ComplexSample>()
    requires
        exact_complex_field::<C>(),
    ensures
        exact_arithmetic::<C>(false),
        exact_arithmetic::<C>(true),
{
    reveal(exact_complex_field);
}

pub(crate) proof fn use_zero_right<C: ComplexSample>(a: C)
    requires
        exact_complex_field::<C>(),
    ensures
        a.spec_add(C::spec_zero()) == a,
        C::spec_zero().spec_add(a) == a,
{
    reveal(exact_complex_field);
    use_field_arith::<C>();
    use_add_comm(false, a, C::spec_zero());
}

proof fn use_zero_mul<C: ComplexSample>(a: C)
    requires
        exact_complex_field::<C>(),
    ensures
        C::spec_zero().spec_mul(a) == C::spec_zero(),
{
    reveal(exact_complex_field);
}

pub(crate) proof fn use_mul_comm<C: ComplexSample>(a: C, b: C)
    requires
        exact_complex_field::<C>(),
    ensures
        a.spec_mul(b) == b.spec_mul(a),
{
    reveal(exact_complex_field);
}

pub(crate) proof fn use_right_distrib<C: ComplexSample>(a: C, b: C, c: C)
    requires
        exact_complex_field::<C>(),
    ensures
        a.spec_add(b).spec_mul(c) == a.spec_mul(c).spec_add(b.spec_mul(c)),
{
    reveal(exact_complex_field);
}

pub(crate) proof fn use_conjugate<C: ComplexSample>(n: nat, i: nat)
    requires
        exact_complex_field::<C>(),
        valid_length(n),
    ensures
        C::spec_twiddle_inverse(n, i) == C::spec_twiddle(n, ((n - i % n) % n as int) as nat),
{
    reveal(exact_complex_field);
}

proof fn use_cancel<C: ComplexSample>(n: nat, a: nat)
    requires
        exact_complex_field::<C>(),
        valid_length(n),
        n >= 2,
    ensures
        C::spec_twiddle(n, a).spec_add(C::spec_twiddle(n, a + n / 2)) == C::spec_zero(),
{
    reveal(exact_complex_field);
}

pub(crate) proof fn use_divide<C: ComplexSample>(n: nat, a: C)
    requires
        exact_complex_field::<C>(),
        valid_length(n),
    ensures
        n_times(a, n).spec_div_scalar(C::spec_scalar_from_usize(n)) == a,
{
    reveal(exact_complex_field);
}

/// A sum of zeros is zero.
proof fn lemma_sum_of_zeros<C: ComplexSample>(f: spec_fn(nat) -> C, count: nat)
    requires
        exact_complex_field::<C>(),
        forall|m: nat| m < count ==> #[trigger] f(m) == C::spec_zero(),
        count >= 1,
    ensures
        sum(f, count) == C::spec_zero(),
    decreases count,
{
    if count > 1 {
        lemma_sum_of_zeros(f, (count - 1) as nat);
        use_zero_right(C::spec_zero());
    }
}

/// A sum whose terms are zero except the one at `j` equals that term.
proof fn lemma_sum_single<C: ComplexSample>(f: spec_fn(nat) -> C, count: nat, j: nat)
    requires
        exact_complex_field::<C>(),
        j < count,
        forall|m: nat| m < count && m != j ==> #[trigger] f(m) == C::spec_zero(),
    ensures
        sum(f, count) == f(j),
    decreases count,
{
    if count > 1 {
        let c1 = (count - 1) as nat;
        if j == c1 {
            lemma_sum_of_zeros(f, c1);
            use_zero_right(f(j));
        } else {
            lemma_sum_single(f, c1, j);
            use_zero_right(f(j));
        }
    }
}

/// Adding two sums term by term.
pub(crate) proof fn lemma_sum_add<C: ComplexSample>(f: spec_fn(nat) -> C, g: spec_fn(nat) -> C, count: nat)
    requires
        exact_complex_field::<C>(),
        count >= 1,
    ensures
        sum(f, count).spec_add(sum(g, count)) == sum(|m: nat| f(m).spec_add(g(m)), count),
    decreases count,
{
    use_field_arith::<C>();
    let fg = |m: nat| f(m).spec_add(g(m));
    if count > 1 {
        let c1 = (count - 1) as nat;
        lemma_sum_add(f, g, c1);
        let a = sum(f, c1);
        let b = sum(g, c1);
        let p = f(c1);
        let q = g(c1);
        // (a + p) + (b + q) == (a + b) + (p + q)
        use_add_assoc(false, a, p, b.spec_add(q));
        use_add_assoc(false, p, b, q);
        use_add_comm(false, p, b);
        use_add_assoc(false, b, p, q);
        use_add_assoc(false, a, b, p.spec_add(q));
        assert(sum(fg, count) == sum(fg, c1).spec_add(fg(c1)));
    }
}

/// A sum over `a + b` terms splits into the first `a` and the next `b`.
pub(crate) proof fn lemma_sum_concat<C: ComplexSample>(f: spec_fn(nat) -> C, a: nat, b: nat)
    requires
        exact_complex_field::<C>(),
        a >= 1,
        b >= 1,
    ensures
        sum(f, a + b) == sum(f, a).spec_add(sum(|m: nat| f(a + m), b)),
    decreases b,
{
    use_field_arith::<C>();
    let g = |m: nat| f(a + m);
    if b > 1 {
        let b1 = (b - 1) as nat;
        lemma_sum_concat(f, a, b1);
        use_add_assoc(false, sum(f, a), sum(g, b1), g(b1));
        assert(sum(f, a + b) == sum(f, (a + b1) as nat).spec_add(f((a + b1) as nat)));
        assert(sum(g, b) == sum(g, b1).spec_add(g(b1)));
    } else {
        assert(sum(g, 1) == f(a));
    }
}

/// Multiplying a sum by `c` from the right.
pub(crate) proof fn lemma_sum_scale_right<C: ComplexSample>(f: spec_fn(nat) -> C, c: C, count: nat)
    requires
        exact_complex_field::<C>(),
    ensures
        sum(f, count).spec_mul(c) == sum(|m: nat| f(m).spec_mul(c), count),
    decreases count,
{
    if count > 1 {
        lemma_sum_scale_right(f, c, (count - 1) as nat);
        use_right_distrib(sum(f, (count - 1) as nat), f((count - 1) as nat), c);
    }
}

/// The order of a double sum does not matter.
pub(crate) proof fn lemma_sum_swap<C: ComplexSample>(f: spec_fn(nat, nat) -> C, p: nat, q: nat)
    requires
        exact_complex_field::<C>(),
        p >= 1,
        q >= 1,
    ensures
        sum(|k: nat| sum(|m: nat| f(k, m), q), p) == sum(|m: nat| sum(|k: nat| f(k, m), p), q),
    decreases p,
{
    let rows = |k: nat| sum(|m: nat| f(k, m), q);
    let cols = |m: nat| sum(|k: nat| f(k, m), p);
    if p == 1 {
        let first = |m: nat| f(0, m);
        assert forall|m: nat| m < q implies #[trigger] cols(m) == first(m) by {
            assert(sum(|k: nat| f(k, m), 1) == f(0, m));
        }
        lemma_sum_congruent(cols, first, q);
        assert(sum(rows, 1) == rows(0));
        assert(rows(0) == sum(first, q)) by {
            assert((|m: nat| f(0, m)) =~= first);
        }
    } else {
        let p1 = (p - 1) as nat;
        let rows1 = |k: nat| sum(|m: nat| f(k, m), q);
        let cols1 = |m: nat| sum(|k: nat| f(k, m), p1);
        let last = |m: nat| f(p1, m);
        lemma_sum_swap(f, p1, q);
        assert(sum(rows1, p1) == sum(cols1, q));
        lemma_sum_add(cols1, last, q);
        let both = |m: nat| cols1(m).spec_add(last(m));
        assert forall|m: nat| m < q implies #[trigger] cols(m) == both(m) by {
            assert(sum(|k: nat| f(k, m), p) == sum(|k: nat| f(k, m), p1).spec_add(f(p1, m)));
        }
        lemma_sum_congruent(cols, both, q);
        assert(sum(rows, p) == sum(rows, p1).spec_add(rows(p1)));
        assert(rows =~= rows1);
        assert(rows(p1) == sum(last, q)) by {
            assert((|m: nat| f(p1, m)) =~= last);
        }
    }
}

/// Two numbers whose difference is a multiple of `n` agree modulo `n`.
pub(crate) proof fn lemma_mod_congruent(a: int, b: int, n: int, q: int)
    requires
        n > 0,
        a == b + q * n,
    ensures
        a % n == b % n,
{
    vstd::arithmetic::mul::lemma_mul_is_commutative(q, n);
    lemma_mod_multiples_vanish(q, b, n);
}

/// Powers of a root of unity other than one sum to zero:
/// `Σ_{k<n} w(n, k·d) = 0` when `n` is a power of two and `d ≢ 0 (mod n)`.
proof fn lemma_geometric_zero<C: ComplexSample>(width: nat, d: nat)
    requires
        exact_complex_field::<C>(),
        d % pow2(width) != 0,
        pow2(width) <= MAX_FFT_SIZE,
    ensures
        sum(|k: nat| C::spec_twiddle(pow2(width), k * d), pow2(width)) == C::spec_zero(),
    decreases width,
{
    use_field_arith::<C>();
    let n = pow2(width);
    lemma_pow2_pos(width);
    lemma_valid_power(width);
    if width == 0 {
        lemma2_to64();
        assert(d % 1 == 0);
    } else {
        let w1 = (width - 1) as nat;
        lemma_pow2_unfold(width);
        let h = pow2(w1);
        lemma_pow2_pos(w1);
        assert(n == 2 * h);
        lemma_valid_power(w1);
        let f = |k: nat| C::spec_twiddle(n, k * d);
        lemma_sum_concat(f, h, h);
        assert(h + h == n);
        let g = |m: nat| f(h + m);
        if d % 2 == 1 {
            // pair k with k + h: the two terms cancel
            assert forall|m: nat| m < h implies #[trigger] g(m) == C::spec_twiddle(n, m * d + h) by {
                let t = (d - 1) / 2;
                assert((h + m) * d == (m * d + h) + t * n) by (nonlinear_arith)
                    requires d == 2 * t + 1, n == 2 * h;
                lemma_mod_congruent(((h + m) * d) as int, (m * d + h) as int, n as int, t as int);
                use_period::<C>(false, n, (h + m) * d);
                use_period::<C>(false, n, m * d + h);
            }
            let gg = |m: nat| C::spec_twiddle(n, m * d + h);
            lemma_sum_congruent(g, gg, h);
            lemma_sum_add(f, gg, h);
            let pairs = |m: nat| f(m).spec_add(gg(m));
            assert((|m: nat| f(m).spec_add(gg(m))) =~= pairs);
            assert forall|m: nat| m < h implies #[trigger] pairs(m) == C::spec_zero() by {
                use_cancel::<C>(n, m * d);
            }
            lemma_sum_of_zeros(pairs, h);
            assert(sum(f, n) == C::spec_zero());
        } else {
            // d = 2e: both halves are the sum for n/2 and e
            let e = d / 2;
            assert(e % h != 0) by {
                if e % h == 0 {
                    lemma_fundamental_div_mod(e as int, h as int);
                    let q = e / h;
                    assert(d == q * n) by (nonlinear_arith)
                        requires d == 2 * e, e == h * q, n == 2 * h;
                    lemma_mod_congruent(d as int, 0, n as int, q as int);
                }
            }
            lemma_geometric_zero::<C>(w1, e);
            let s = |k: nat| C::spec_twiddle(h, k * e);
            assert forall|m: nat| m < h implies #[trigger] f(m) == s(m) by {
                assert(m * d == 2 * (m * e)) by (nonlinear_arith)
                    requires d == 2 * e;
                use_half::<C>(false, h, m * e);
            }
            assert forall|m: nat| m < h implies #[trigger] g(m) == s(m) by {
                assert((h + m) * d == 2 * (m * e + h * e)) by (nonlinear_arith)
                    requires d == 2 * e;
                use_half::<C>(false, h, m * e + h * e);
                lemma_mod_congruent((m * e + h * e) as int, (m * e) as int, h as int, e as int);
                use_period::<C>(false, h, m * e + h * e);
                use_period::<C>(false, h, m * e);
            }
            lemma_sum_congruent(f, s, h);
            lemma_sum_congruent(g, s, h);
            use_zero_right(C::spec_zero());
            assert(sum(s, h) == C::spec_zero());
            assert(sum(f, n) == C::spec_zero());
        }
    }
}

/// The exponent of `w⁻(n, j·k)·w(n, k·m)` is `k·(m - j)` modulo `n`.
pub(crate) proof fn lemma_phase(n: nat, j: nat, k: nat, m: nat)
    requires
        n > 0,
        j < n,
        m < n,
    ensures
        ((((n - (j * k) % n) % n as int) as nat) + k * m) % n == (k * ((m + n - j) % n as int) as nat) % n,
{
    let r = (j * k) % n;
    let t = (j * k) / n;
    lemma_fundamental_div_mod((j * k) as int, n as int);
    assert(j * k == n * t + r);
    let e1 = ((n - r) % n as int) as nat;
    let base = k * m - j * k;
    if r == 0 {
        assert(e1 == 0) by {
            vstd::arithmetic::div_mod::lemma_mod_self_0(n as int);
        }
        assert(e1 + k * m == base + t * n) by (nonlinear_arith)
            requires e1 == 0, j * k == n * t + r, r == 0, base == k * m - j * k;
        lemma_mod_congruent((e1 + k * m) as int, base, n as int, t as int);
    } else {
        assert(e1 == n - r) by {
            lemma_small_mod((n - r) as nat, n);
        }
        assert(e1 + k * m == base + (t + 1) * n) by (nonlinear_arith)
            requires e1 == n - r, j * k == n * t + r, base == k * m - j * k;
        lemma_mod_congruent((e1 + k * m) as int, base, n as int, (t + 1) as int);
    }
    let d = ((m + n - j) % n as int) as nat;
    if m >= j {
        assert(d == m - j) by {
            lemma_mod_congruent((m + n - j) as int, (m - j) as int, n as int, 1);
            lemma_small_mod((m - j) as nat, n);
        }
        assert(k * d == base) by (nonlinear_arith)
            requires d == m - j, base == k * m - j * k;
        lemma_mod_congruent((k * d) as int, base, n as int, 0);
    } else {
        assert(d == m + n - j) by {
            lemma_small_mod((m + n - j) as nat, n);
        }
        assert(k * d == base + k * n) by (nonlinear_arith)
            requires d == m + n - j, base == k * m - j * k;
        lemma_mod_congruent((k * d) as int, base, n as int, k as int);
    }
}

/// Output `j` of the inverse DFT of the DFT of `x` is `n` copies of `x[j]`.
pub(crate) proof fn lemma_inversion_bin<C: ComplexSample>(x: Seq<C>, width: nat, j: nat)
    requires
        exact_complex_field::<C>(),
        x.len() == pow2(width),
        x.len() <= MAX_FFT_SIZE,
        j < x.len(),
    ensures
        dft_bin(dft(x, false), j, true) == n_times(x[j as int], x.len()),
{
    use_field_arith::<C>();
    let n = x.len();
    lemma_pow2_pos(width);
    lemma_valid_power(width);
    let y = dft(x, false);
    let d = |m: nat| ((m + n - j) % n as int) as nat;
    let big = |k: nat, m: nat| C::spec_twiddle(n, k * d(m)).spec_mul(x[m as int]);
    // Each output of the forward transform, weighted, is a sum over the input.
    let outer = |k: nat| twiddle_of::<C>(true, n, j * k).spec_mul(y[k as int]);
    let rows = |k: nat| sum(|m: nat| big(k, m), n);
    assert forall|k: nat| k < n implies #[trigger] outer(k) == rows(k) by {
        let c = C::spec_twiddle_inverse(n, j * k);
        let fk = |m: nat| twiddle_of::<C>(false, n, k * m).spec_mul(x[m as int]);
        assert(y[k as int] == sum(fk, n));
        lemma_sum_scale(false, c, fk, n);
        let scaled_k = |m: nat| c.spec_mul(fk(m));
        assert forall|m: nat| m < n implies #[trigger] scaled_k(m) == big(k, m) by {
            let e1 = ((n - (j * k) % n) % n as int) as nat;
            use_mul_assoc(false, c, C::spec_twiddle(n, k * m), x[m as int]);
            use_conjugate::<C>(n, j * k);
            use_twiddle_mul::<C>(false, n, e1, k * m);
            lemma_phase(n, j, k, m);
            use_period::<C>(false, n, e1 + k * m);
            use_period::<C>(false, n, k * d(m));
        }
        lemma_sum_congruent(scaled_k, |m: nat| big(k, m), n);
    }
    lemma_sum_congruent(outer, rows, n);
    assert(dft_bin(y, j, true) == sum(outer, n));
    // Exchange the two sums.
    lemma_sum_swap(big, n, n);
    let cols = |m: nat| sum(|k: nat| big(k, m), n);
    assert(sum(rows, n) == sum(cols, n));
    // Only the column m == j survives.
    let ones = |k: nat| C::spec_twiddle(n, 0);
    assert forall|m: nat| m < n && m != j implies #[trigger] cols(m) == C::spec_zero() by {
        let geo = |k: nat| C::spec_twiddle(n, k * d(m));
        lemma_sum_scale_right(geo, x[m as int], n);
        assert((|k: nat| geo(k).spec_mul(x[m as int])) =~= (|k: nat| big(k, m)));
        assert(d(m) % n != 0) by {
            lemma_small_mod(d(m), n);
            if m >= j {
                lemma_mod_congruent((m + n - j) as int, (m - j) as int, n as int, 1);
                lemma_small_mod((m - j) as nat, n);
            } else {
                lemma_small_mod((m + n - j) as nat, n);
            }
        }
        lemma_geometric_zero::<C>(width, d(m));
        use_zero_mul(x[m as int]);
    }
    assert(cols(j) == n_times(x[j as int], n)) by {
        assert(d(j) == 0) by {
            vstd::arithmetic::div_mod::lemma_mod_self_0(n as int);
        }
        let geo = |k: nat| C::spec_twiddle(n, k * d(j));
        assert forall|k: nat| k < n implies #[trigger] geo(k) == ones(k) by {
            assert(k * 0 == 0);
        }
        lemma_sum_congruent(geo, ones, n);
        lemma_sum_scale_right(ones, x[j as int], n);
        lemma_sum_scale_right(geo, x[j as int], n);
        let each = |k: nat| ones(k).spec_mul(x[j as int]);
        assert forall|k: nat| k < n implies #[trigger] each(k) == (|m: nat| x[j as int])(k) by {
            use_unit::<C>(false, n, x[j as int]);
        }
        lemma_sum_congruent(each, |m: nat| x[j as int], n);
        lemma_sum_congruent(|k: nat| geo(k).spec_mul(x[j as int]), |k: nat| big(k, j), n);
    }
    lemma_sum_single(cols, n, j);
}

/// With exact complex arithmetic, the inverse transform undoes the forward
/// transform: `ifft(fft(x)) == x` for every `x` whose length is a power of two.
pub proof fn law_ifft_inverts_fft<C: ComplexSample>(x: Seq<C>, width: nat)
    requires
        exact_complex_field::<C>(),
        x.len() == pow2(width),
        x.len() <= MAX_FFT_SIZE,
    ensures
        ifft_spec(fft_spec(x)) == x,
{
    use_field_arith::<C>();
    let n = x.len();
    lemma_valid_power(width);
    lemma_radix2_len(x, false);
    if n == 1 {
        assert(fft_spec(x) == x);
    } else {
        law_fft_is_dft(x, width);
        let y = fft_spec(x);
        lemma_radix2_len(y, true);
        assert forall|jj: int| 0 <= jj < n implies #[trigger] ifft_spec(y)[jj] == x[jj] by {
            let j = jj as nat;
            lemma_radix2_is_dft(y, width, j, true);
            lemma_inversion_bin(x, width, j);
            use_divide::<C>(n, x[jj]);
        }
        assert(ifft_spec(y) =~= x);
    }
}

} // verus!
