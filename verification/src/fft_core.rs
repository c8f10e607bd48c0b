//! The in-place radix-2 passes and the one-shot transform handle `FFT`.

use vstd::prelude::*;
use vstd::arithmetic::power2::{
    pow2, is_pow2, lemma_pow2_pos, lemma_pow2_unfold, lemma_pow2_adds, lemma_pow2_strictly_increases,
    lemma2_to64,
};
use crate::bits::{bit_reverse, bit_reversed, lemma_bit_reversed_bound, lemma_bit_reversed_involution};
use crate::error::{
    validate_length, length_check, valid_length, power_of_two, lemma_power_of_two_agrees, FftResult,
    MAX_FFT_SIZE,
};
use crate::sample::{ComplexSample, IntoSample};
use crate::transform::{
    twiddle_of, radix2, fft_spec, ifft_spec, scaled, after_passes, butterflies, own_twiddles,
    table_twiddles, table_fits, lemma_after_no_pass, lemma_after_all_passes, lemma_butterfly,
    lemma_butterflies_len, lemma_butterflies_congruent, lemma_radix2_is_butterflies,
};

verus! {

/// The samples of `s` converted to complex numbers.
pub open spec fn to_complex<T: IntoSample<C>, C>(s: Seq<T>) -> Seq<C> {
    Seq::new(s.len(), |i: int| s[i].spec_into_complex())
}

/// Converting keeps the number and the order of the samples: entry `i` of
/// the converted sequence is sample `i` converted.
pub proof fn law_to_complex<T: IntoSample<C>, C>(s: Seq<T>)
    ensures
        to_complex::<T, C>(s).len() == s.len(),
        forall|i: int| 0 <= i < s.len() ==> #[trigger] to_complex::<T, C>(s)[i] == s[i].spec_into_complex(),
{
}

/// `t` holds, for each of the `log2n` passes, the twiddle factors of that
/// pass: entry `k` of table `s` is the twiddle `w(2^(s+1), k)`, `k < 2^s`.
pub open spec fn twiddle_table<C: ComplexSample>(t: Seq<Vec<C>>, log2n: nat, inverse: bool) -> bool {
    &&& t.len() == log2n
    &&& forall|s: int| 0 <= s < log2n ==> #[trigger] t[s]@.len() == pow2(s as nat)
    &&& forall|s: int, k: int|
        0 <= s < log2n && 0 <= k < pow2(s as nat) ==> #[trigger] t[s]@[k] == twiddle_of::<C>(
            inverse,
            pow2((s + 1) as nat),
            k as nat,
        )
}

/// A power of two that fits the size limit has an exponent of at most 24.
pub proof fn lemma_exponent_bound(log2n: nat)
    requires
        pow2(log2n) <= MAX_FFT_SIZE,
    ensures
        log2n <= 24,
{
    lemma2_to64();
    if log2n > 24 {
        lemma_pow2_strictly_increases(24, log2n);
    }
}

/// The exponent of a power of two.
pub(crate) fn exponent_of(n: usize) -> (k: usize)
    requires
        power_of_two(n as nat),
    ensures
        pow2(k as nat) == n,
{
    proof {
        lemma_power_of_two_agrees(n as nat);
        reveal(is_pow2);
        lemma2_to64();
    }
    let mut m: usize = n;
    let mut k: usize = 0;
    while m > 1
        invariant
            is_pow2(m as int),
            m * pow2(k as nat) == n,
            m >= 1,
        decreases m,
    {
        proof {
            reveal(is_pow2);
            lemma_pow2_unfold((k + 1) as nat);
            lemma_pow2_pos(k as nat);
            assert((m / 2) * pow2((k + 1) as nat) == n) by (nonlinear_arith)
                requires
                    m % 2 == 0,
                    pow2((k + 1) as nat) == 2 * pow2(k as nat),
                    m * pow2(k as nat) == n,
            ;
            assert(m * pow2(k as nat) >= pow2(k as nat)) by (nonlinear_arith)
                requires m >= 1, pow2(k as nat) > 0;
            lemma2_to64();
            if k >= 64 {
                if k > 64 {
                    lemma_pow2_strictly_increases(64, k as nat);
                }
                assert(false);
            }
        }
        m = m / 2;
        k = k + 1;
    }
    proof {
        reveal(is_pow2);
    }
    k
}

/// Moves each of the first `n` samples to the bit-reversed position of its
/// index; the samples from `n` on are left as they are.
pub(crate) fn bit_reverse_permute<C: ComplexSample>(data: &mut [C], n: usize, log2n: usize)
    requires
        n <= old(data)@.len(),
        n == pow2(log2n as nat),
        1 <= log2n <= usize::BITS,
    ensures
        final(data)@.len() == old(data)@.len(),
        forall|i: int|
            0 <= i < n ==> #[trigger] final(data)@[i] == old(data)@[bit_reversed(
                i as nat,
                log2n as nat,
            ) as int],
        forall|i: int|
            0 <= i < n ==> final(data)@[bit_reversed(i as nat, log2n as nat) as int] == #[trigger] old(
                data,
            )@[i],
        forall|i: int| n <= i < old(data)@.len() ==> #[trigger] final(data)@[i] == old(data)@[i],
{
    let ghost orig = data@;
    let mut i: usize = 0;
    while i < n
        invariant
            data@.len() == orig.len(),
            n <= orig.len(),
            n == pow2(log2n as nat),
            1 <= log2n <= usize::BITS,
            i <= n,
            forall|k: int|
                0 <= k < n ==> #[trigger] data@[k] == if k < i || bit_reversed(
                    k as nat,
                    log2n as nat,
                ) < i {
                    orig[bit_reversed(k as nat, log2n as nat) as int]
                } else {
                    orig[k]
                },
            forall|k: int| n <= k < orig.len() ==> #[trigger] data@[k] == orig[k],
        decreases n - i,
    {
        let j = bit_reverse(i, log2n);
        proof {
            lemma_bit_reversed_bound(i as nat, log2n as nat);
            lemma_bit_reversed_involution(i as nat, log2n as nat);
        }
        let ghost prev = data@;
        if i < j {
            let a = data[i];
            let b = data[j];
            data[i] = b;
            data[j] = a;
        }
        proof {
            assert forall|k: int| 0 <= k < n implies #[trigger] data@[k] == if k < i + 1
                || bit_reversed(k as nat, log2n as nat) < i + 1 {
                orig[bit_reversed(k as nat, log2n as nat) as int]
            } else {
                orig[k]
            } by {
                lemma_bit_reversed_bound(k as nat, log2n as nat);
                lemma_bit_reversed_involution(k as nat, log2n as nat);
                assert(prev[k] == if k < i || bit_reversed(k as nat, log2n as nat) < i {
                    orig[bit_reversed(k as nat, log2n as nat) as int]
                } else {
                    orig[k]
                });
            }
        }
        i = i + 1;
    }
    proof {
        assert forall|k: int| 0 <= k < n implies #[trigger] data@[k] == orig[bit_reversed(
            k as nat,
            log2n as nat,
        ) as int] by {
            lemma_bit_reversed_bound(k as nat, log2n as nat);
        }
        assert forall|k: int| 0 <= k < n implies data@[bit_reversed(k as nat, log2n as nat) as int]
            == #[trigger] orig[k] by {
            let r = bit_reversed(k as nat, log2n as nat);
            lemma_bit_reversed_bound(k as nat, log2n as nat);
            lemma_bit_reversed_involution(k as nat, log2n as nat);
            assert(data@[r as int] == orig[bit_reversed(r, log2n as nat) as int]);
        }
    }
}

/// The twiddle factors the passes use: those of `table` when one is given,
/// the sample type's own otherwise.
pub open spec fn pass_twiddles<C: ComplexSample>(table: Option<&[Vec<C>]>, inverse: bool) -> spec_fn(
    nat,
    nat,
) -> C {
    match table {
        Some(t) => table_twiddles(t@),
        None => own_twiddles::<C>(inverse),
    }
}

/// The twiddle factor of butterfly `k` in pass `stage` (blocks of `len`
/// samples): read from `table` when one is given, computed otherwise.
fn stage_twiddle<C: ComplexSample>(
    table: Option<&[Vec<C>]>,
    inverse: bool,
    log2n: usize,
    stage: usize,
    len: usize,
    k: usize,
) -> (w: C)
    requires
        stage < log2n,
        len == pow2((stage + 1) as nat),
        k < pow2(stage as nat),
        table matches Some(t) ==> table_fits(t@, log2n as nat),
    ensures
        w == pass_twiddles(table, inverse)(stage as nat, k as nat),
{
    match table {
        Some(t) => {
            proof {
                assert(t@[stage as int]@.len() >= pow2(stage as nat));
            }
            t[stage][k]
        },
        None => {
            if inverse {
                C::twiddle_inverse(len, k)
            } else {
                C::twiddle(len, k)
            }
        },
    }
}

/// The `log2n` butterfly passes over the first `n` samples, already in
/// bit-reversed order: pass `s` combines, in each block of `2^(s+1)`
/// samples, the sample at offset `k` with the one at offset `k + 2^s` using
/// twiddle `k` of pass `s`. Afterwards the first `n` samples hold the
/// butterfly network over `x`; the rest are untouched.
fn butterfly_passes<C: ComplexSample>(
    data: &mut [C],
    n: usize,
    log2n: usize,
    inverse: bool,
    table: Option<&[Vec<C>]>,
    Ghost(x): Ghost<Seq<C>>,
)
    requires
        n <= old(data)@.len(),
        x.len() == n,
        n == pow2(log2n as nat),
        forall|i: int| 0 <= i < n ==> #[trigger] old(data)@[i] == x[bit_reversed(i as nat, log2n as nat) as int],
        table matches Some(t) ==> table_fits(t@, log2n as nat),
    ensures
        final(data)@.len() == old(data)@.len(),
        forall|i: int| 0 <= i < n ==> #[trigger] final(data)@[i] == butterflies(
            x,
            pass_twiddles(table, inverse),
            log2n as nat,
        )[i],
        forall|i: int| n <= i < old(data)@.len() ==> #[trigger] final(data)@[i] == old(data)@[i],
{
    let ghost tw = pass_twiddles(table, inverse);
    let ghost orig = data@;
    proof {
        assert forall|i: int| 0 <= i < n implies #[trigger] data@[i] == after_passes(x, log2n as nat, 0, i as nat, tw) by {
            lemma_after_no_pass(x, log2n as nat, i as nat, tw);
        }
        lemma2_to64();
    }
    let mut half: usize = 1;
    let mut stage: usize = 0;
    while stage < log2n
        invariant
            data@.len() == orig.len(),
            n <= orig.len(),
            x.len() == n,
            n == pow2(log2n as nat),
            stage <= log2n,
            half == pow2(stage as nat),
            tw == pass_twiddles(table, inverse),
            table matches Some(t) ==> table_fits(t@, log2n as nat),
            forall|i: int| 0 <= i < n ==> #[trigger] data@[i] == after_passes(x, log2n as nat, stage as nat, i as nat, tw),
            forall|i: int| n <= i < orig.len() ==> #[trigger] data@[i] == orig[i],
        decreases log2n - stage,
    {
        let ghost nb = pow2((log2n - stage - 1) as nat);
        proof {
            lemma_pow2_unfold((stage + 1) as nat);
            lemma_pow2_adds((log2n - stage - 1) as nat, (stage + 1) as nat);
            lemma_pow2_pos(stage as nat);
            lemma_pow2_pos((log2n - stage - 1) as nat);
            assert(n == nb * (2 * half));
            assert(2 * half <= n) by (nonlinear_arith)
                requires n == nb * (2 * half), nb >= 1, half >= 1;
        }
        let len = 2 * half;
        let mut start: usize = 0;
        let ghost mut blk: nat = 0;
        while start < n
            invariant
                data@.len() == orig.len(),
                n <= orig.len(),
                x.len() == n,
                n == pow2(log2n as nat),
                n == nb * len,
                stage < log2n,
                len == pow2((stage + 1) as nat),
                half == pow2(stage as nat),
                half >= 1,
                len == 2 * half,
                start == blk * len,
                blk <= nb,
                tw == pass_twiddles(table, inverse),
                table matches Some(t) ==> table_fits(t@, log2n as nat),
                forall|i: int| 0 <= i < n ==> #[trigger] data@[i] == after_passes(
                    x,
                    log2n as nat,
                    if i < start { (stage + 1) as nat } else { stage as nat },
                    i as nat,
                    tw,
                ),
                forall|i: int| n <= i < orig.len() ==> #[trigger] data@[i] == orig[i],
            decreases n - start,
        {
            proof {
                assert(blk < nb) by (nonlinear_arith)
                    requires start == blk * len, start < n, n == nb * len, len > 0;
                assert(start + len <= n) by (nonlinear_arith)
                    requires start == blk * len, blk < nb, n == nb * len;
            }
            let mut k: usize = 0;
            while k < half
                invariant
                    data@.len() == orig.len(),
                    n <= orig.len(),
                    x.len() == n,
                    stage < log2n,
                    len == pow2((stage + 1) as nat),
                    half == pow2(stage as nat),
                    len == 2 * half,
                    start == blk * len,
                    start + len <= n,
                    k <= half,
                    tw == pass_twiddles(table, inverse),
                    table matches Some(t) ==> table_fits(t@, log2n as nat),
                    forall|i: int| 0 <= i < n ==> #[trigger] data@[i] == after_passes(
                        x,
                        log2n as nat,
                        if i < start + k || (start + half <= i < start + half + k) {
                            (stage + 1) as nat
                        } else {
                            stage as nat
                        },
                        i as nat,
                        tw,
                    ),
                    forall|i: int| n <= i < orig.len() ==> #[trigger] data@[i] == orig[i],
                decreases half - k,
            {
                let even_idx = start + k;
                let odd_idx = even_idx + half;
                let w = stage_twiddle(table, inverse, log2n, stage, len, k);
                let t = C::mul(w, data[odd_idx]);
                let even = data[even_idx];
                proof {
                    lemma_butterfly(x, log2n as nat, stage as nat, blk, k as nat, tw);
                    assert(blk * (2 * half) + k == even_idx);
                }
                data[odd_idx] = C::sub(even, t);
                data[even_idx] = C::add(even, t);
                k = k + 1;
            }
            start = start + len;
            proof {
                blk = blk + 1;
                assert(start == blk * len) by (nonlinear_arith)
                    requires start == (blk - 1) * len + len;
            }
        }
        half = len;
        stage = stage + 1;
    }
    proof {
        assert forall|i: int| 0 <= i < n implies #[trigger] data@[i] == butterflies(x, tw, log2n as nat)[i] by {
            lemma_after_all_passes(x, log2n as nat, i as nat, tw);
        }
    }
}

/// Normalises each of the first `n` samples by `n`.
fn normalise<C: ComplexSample>(data: &mut [C], n: usize)
    requires
        n <= old(data)@.len(),
    ensures
        final(data)@.len() == old(data)@.len(),
        final(data)@.subrange(0, n as int) == scaled(old(data)@.subrange(0, n as int), n as nat),
        final(data)@.subrange(n as int, old(data)@.len() as int) == old(data)@.subrange(
            n as int,
            old(data)@.len() as int,
        ),
{
    let ghost orig = data@;
    let norm = C::scalar_from_usize(n);
    let mut i: usize = 0;
    while i < n
        invariant
            data@.len() == orig.len(),
            n <= orig.len(),
            i <= n,
            norm == C::spec_scalar_from_usize(n as nat),
            forall|j: int| 0 <= j < orig.len() ==> #[trigger] data@[j] == if j < i {
                orig[j].spec_div_scalar(norm)
            } else {
                orig[j]
            },
        decreases n - i,
    {
        let v = data[i];
        data[i] = C::div_scalar(v, norm);
        i = i + 1;
    }
    proof {
        assert(data@.subrange(0, n as int) =~= scaled(orig.subrange(0, n as int), n as nat));
        assert(data@.subrange(n as int, orig.len() as int) =~= orig.subrange(n as int, orig.len() as int));
    }
}

/// Bit-reverses the first `n` samples and runs the passes over them: the
/// first `n` samples become the network over the old first `n` with the
/// given twiddles; the rest are untouched.
fn permute_and_pass<C: ComplexSample>(
    data: &mut [C],
    n: usize,
    log2n: usize,
    inverse: bool,
    table: Option<&[Vec<C>]>,
)
    requires
        n <= old(data)@.len(),
        n == pow2(log2n as nat),
        1 <= log2n <= usize::BITS,
        table matches Some(t) ==> table_fits(t@, log2n as nat),
    ensures
        final(data)@.len() == old(data)@.len(),
        final(data)@.subrange(0, n as int) == butterflies(
            old(data)@.subrange(0, n as int),
            pass_twiddles(table, inverse),
            log2n as nat,
        ),
        final(data)@.subrange(n as int, old(data)@.len() as int) == old(data)@.subrange(
            n as int,
            old(data)@.len() as int,
        ),
{
    let ghost orig = data@;
    let ghost x = data@.subrange(0, n as int);
    bit_reverse_permute(data, n, log2n);
    proof {
        assert forall|i: int| 0 <= i < n implies #[trigger] data@[i] == x[bit_reversed(i as nat, log2n as nat) as int] by {
            lemma_bit_reversed_bound(i as nat, log2n as nat);
        }
    }
    butterfly_passes(data, n, log2n, inverse, table, Ghost(x));
    proof {
        lemma_butterflies_len(x, pass_twiddles(table, inverse), log2n as nat);
        assert(data@.subrange(0, n as int) =~= butterflies(x, pass_twiddles(table, inverse), log2n as nat));
        assert(data@.subrange(n as int, orig.len() as int) =~= orig.subrange(n as int, orig.len() as int));
    }
}

/// Forward transform of the first `n` samples in place, twiddle factors
/// computed as they are needed; the samples from `n` on are untouched.
pub(crate) fn fft_forward<C: ComplexSample>(data: &mut [C], n: usize, log2n: usize)
    requires
        n <= old(data)@.len(),
        n == pow2(log2n as nat),
        1 <= log2n <= usize::BITS,
    ensures
        final(data)@.len() == old(data)@.len(),
        final(data)@.subrange(0, n as int) == fft_spec(old(data)@.subrange(0, n as int)),
        final(data)@.subrange(n as int, old(data)@.len() as int) == old(data)@.subrange(
            n as int,
            old(data)@.len() as int,
        ),
{
    proof {
        lemma_radix2_is_butterflies(old(data)@.subrange(0, n as int), false, log2n as nat);
    }
    permute_and_pass(data, n, log2n, false, None);
}

/// Inverse transform of the first `n` samples in place (normalised by `n`),
/// twiddle factors computed as they are needed; the samples from `n` on are
/// untouched.
pub(crate) fn fft_inverse<C: ComplexSample>(data: &mut [C], n: usize, log2n: usize)
    requires
        n <= old(data)@.len(),
        n == pow2(log2n as nat),
        1 <= log2n <= usize::BITS,
    ensures
        final(data)@.len() == old(data)@.len(),
        final(data)@.subrange(0, n as int) == ifft_spec(old(data)@.subrange(0, n as int)),
        final(data)@.subrange(n as int, old(data)@.len() as int) == old(data)@.subrange(
            n as int,
            old(data)@.len() as int,
        ),
{
    let ghost orig = data@;
    proof {
        lemma_radix2_is_butterflies(orig.subrange(0, n as int), true, log2n as nat);
        lemma_pow2_strictly_increases(0, log2n as nat);
        lemma2_to64();
    }
    permute_and_pass(data, n, log2n, true, None);
    let ghost mid = data@;
    normalise(data, n);
    proof {
        assert(data@.subrange(n as int, orig.len() as int) =~= mid.subrange(n as int, orig.len() as int));
    }
}

/// Forward transform of the first `n` samples in place, twiddle factor `k`
/// of pass `s` read from `twiddles[s][k]`; the samples from `n` on are
/// untouched.
pub(crate) fn fft_forward_with_table<C: ComplexSample>(
    data: &mut [C],
    n: usize,
    log2n: usize,
    twiddles: &[Vec<C>],
)
    requires
        n <= old(data)@.len(),
        n == pow2(log2n as nat),
        1 <= log2n <= usize::BITS,
        table_fits(twiddles@, log2n as nat),
    ensures
        final(data)@.len() == old(data)@.len(),
        final(data)@.subrange(0, n as int) == butterflies(
            old(data)@.subrange(0, n as int),
            table_twiddles(twiddles@),
            log2n as nat,
        ),
        final(data)@.subrange(n as int, old(data)@.len() as int) == old(data)@.subrange(
            n as int,
            old(data)@.len() as int,
        ),
{
    permute_and_pass(data, n, log2n, false, Some(twiddles));
}

/// Inverse transform of the first `n` samples in place (normalised by `n`),
/// twiddle factor `k` of pass `s` read from `twiddles[s][k]`; the samples
/// from `n` on are untouched.
pub(crate) fn fft_inverse_with_table<C: ComplexSample>(
    data: &mut [C],
    n: usize,
    log2n: usize,
    twiddles: &[Vec<C>],
)
    requires
        n <= old(data)@.len(),
        n == pow2(log2n as nat),
        1 <= log2n <= usize::BITS,
        table_fits(twiddles@, log2n as nat),
    ensures
        final(data)@.len() == old(data)@.len(),
        final(data)@.subrange(0, n as int) == scaled(
            butterflies(old(data)@.subrange(0, n as int), table_twiddles(twiddles@), log2n as nat),
            n as nat,
        ),
        final(data)@.subrange(n as int, old(data)@.len() as int) == old(data)@.subrange(
            n as int,
            old(data)@.len() as int,
        ),
{
    let ghost orig = data@;
    permute_and_pass(data, n, log2n, true, Some(twiddles));
    let ghost mid = data@;
    normalise(data, n);
    proof {
        assert(data@.subrange(n as int, orig.len() as int) =~= mid.subrange(n as int, orig.len() as int));
    }
}

/// The table path computes the same as the on-the-fly path: a table whose
/// rows hold the sample type's own twiddle factors gives the radix-2
/// transform.
pub proof fn law_table_matches_own_twiddles<C: ComplexSample>(
    x: Seq<C>,
    t: Seq<Vec<C>>,
    log2n: nat,
    inverse: bool,
)
    requires
        x.len() == pow2(log2n),
        twiddle_table(t, log2n, inverse),
    ensures
        butterflies(x, table_twiddles(t), log2n) == radix2(x, inverse),
{
    lemma_radix2_is_butterflies(x, inverse, log2n);
    assert forall|s: nat, k: nat| s < log2n && k < pow2(s) implies #[trigger] table_twiddles(t)(s, k)
        == own_twiddles::<C>(inverse)(s, k) by {
        assert(t[s as int]@[k as int] == twiddle_of::<C>(inverse, pow2(s + 1), k));
    }
    lemma_butterflies_congruent(x, table_twiddles(t), own_twiddles::<C>(inverse), log2n);
}

/// The samples of `data` converted to complex numbers, in order.
pub(crate) fn convert_all<T: IntoSample<C>, C>(data: &[T]) -> (r: Vec<C>)
    ensures
        r@ == to_complex::<T, C>(data@),
        r@.len() == data@.len(),
        forall|i: int| 0 <= i < data@.len() ==> #[trigger] r@[i] == data@[i].spec_into_complex(),
{
    let mut buf: Vec<C> = Vec::new();
    let mut i: usize = 0;
    while i < data.len()
        invariant
            i <= data@.len(),
            buf@ =~= to_complex::<T, C>(data@.subrange(0, i as int)),
        decreases data@.len() - i,
    {
        buf.push(data[i].into_complex());
        i = i + 1;
        proof {
            assert(buf@ =~= to_complex::<T, C>(data@.subrange(0, i as int)));
        }
    }
    proof {
        assert(data@.subrange(0, i as int) =~= data@);
    }
    buf
}

/// Length and exponent of a valid size of at least two.
pub proof fn lemma_valid_exponent(n: nat, log2n: nat)
    requires
        valid_length(n),
        pow2(log2n) == n,
        n != 1,
    ensures
        1 <= log2n <= usize::BITS,
        n <= MAX_FFT_SIZE,
{
    lemma2_to64();
    lemma_exponent_bound(log2n);
}

/// A table of the sample type's own twiddle factors fits the passes.
pub proof fn lemma_own_table_fits<C: ComplexSample>(t: Seq<Vec<C>>, log2n: nat, inverse: bool)
    requires
        twiddle_table(t, log2n, inverse),
    ensures
        table_fits(t, log2n),
{
}

/// A one-shot transform handle: the input samples, whose number is a legal
/// transform size.
pub struct FFT<T> {
    data: Vec<T>,
}

impl<T> View for FFT<T> {
    type V = Seq<T>;

    /// The input samples.
    closed spec fn view(&self) -> Seq<T> {
        self.data@
    }
}

impl<T> FFT<T> {
    /// The number of samples is a legal transform size.
    #[verifier::type_invariant]
    spec fn well_sized(self) -> bool {
        valid_length(self.data@.len())
    }

    /// Takes ownership of `data` if its length is a legal transform size.
    pub fn new(data: Vec<T>) -> (r: FftResult<Self>)
        ensures
            r is Ok <==> valid_length(data@.len()),
            r matches Ok(f) ==> f@ == data@,
            r matches Err(e) ==> length_check(data@.len()) == Err::<(), _>(e),
    {
        match validate_length(data.len()) {
            Ok(()) => Ok(FFT { data }),
            Err(e) => Err(e),
        }
    }

    /// The number of samples.
    pub fn len(&self) -> (r: usize)
        ensures
            r == self@.len(),
    {
        self.data.len()
    }

    /// Whether there are no samples (never, for a constructed handle).
    pub fn is_empty(&self) -> (r: bool)
        ensures
            r == (self@.len() == 0),
            !r,
    {
        proof {
            use_type_invariant(self);
        }
        self.data.len() == 0
    }

    /// The input samples.
    pub fn input(&self) -> (r: &[T])
        ensures
            r@ == self@,
    {
        self.data.as_slice()
    }

    /// The forward transform of the samples.
    pub fn compute<C: ComplexSample>(&self) -> (r: Vec<C>) where T: IntoSample<C>
        ensures
            r@ == fft_spec(to_complex::<T, C>(self@)),
    {
        proof {
            use_type_invariant(self);
        }
        let n = self.data.len();
        if n == 1 {
            let c = self.data[0].into_complex();
            let r = vec![c];
            proof {
                assert(r@ =~= to_complex::<T, C>(self@));
            }
            return r;
        }
        let log2n = exponent_of(n);
        proof {
            lemma_valid_exponent(n as nat, log2n as nat);
        }
        let mut buf = convert_all(self.data.as_slice());
        let ghost before = buf@;
        fft_forward(buf.as_mut_slice(), n, log2n);
        proof {
            assert(before.subrange(0, n as int) =~= before);
            assert(buf@.subrange(0, n as int) =~= buf@);
        }
        buf
    }

    /// The forward transform of the samples (the samples are left as they are).
    pub fn compute_inplace<C: ComplexSample>(&mut self) -> (r: Vec<C>) where T: IntoSample<C>
        ensures
            final(self)@ == old(self)@,
            r@ == fft_spec(to_complex::<T, C>(old(self)@)),
    {
        self.compute()
    }

    /// The inverse transform of `data`, normalised by its length.
    pub fn ifft<C: ComplexSample>(data: Vec<C>) -> (r: Vec<C>)
        requires
            valid_length(data@.len()),
        ensures
            r@ == ifft_spec(data@),
    {
        let n = data.len();
        if n == 1 {
            return data;
        }
        let log2n = exponent_of(n);
        proof {
            lemma_valid_exponent(n as nat, log2n as nat);
        }
        let mut buf = data;
        let ghost before = buf@;
        fft_inverse(buf.as_mut_slice(), n, log2n);
        proof {
            assert(before.subrange(0, n as int) =~= before);
            assert(buf@.subrange(0, n as int) =~= buf@);
        }
        buf
    }

    /// The inverse transform of `spectrum`, normalised by its length.
    pub fn compute_inverse<C: ComplexSample>(&self, spectrum: &[C]) -> (r: Vec<C>) where
        T: IntoSample<C>,
        requires
            valid_length(spectrum@.len()),
        ensures
            r@ == ifft_spec(spectrum@),
    {
        Self::ifft(vstd::slice::slice_to_vec(spectrum))
    }
}

impl<T: Copy> FFT<T> {
    /// Copies `slice` into a new handle if its length is a legal transform size.
    pub fn from_slice(slice: &[T]) -> (r: FftResult<Self>)
        ensures
            r is Ok <==> valid_length(slice@.len()),
            r matches Ok(f) ==> f@ == slice@,
            r matches Err(e) ==> length_check(slice@.len()) == Err::<(), _>(e),
    {
        Self::new(vstd::slice::slice_to_vec(slice))
    }
}

} // verus!
