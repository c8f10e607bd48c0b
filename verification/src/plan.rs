//! Reusable transform plans with precomputed twiddle factors.

use vstd::prelude::*;
use vstd::arithmetic::power2::{pow2, lemma_pow2_unfold};
use crate::error::{validate_length, length_check, valid_length, FftResult};
use crate::sample::{ComplexSample, IntoSample};
use crate::transform::{twiddle_of, fft_spec, ifft_spec};
use crate::fft_core::{
    exponent_of, fft_forward_with_table, fft_inverse_with_table, lemma_exponent_bound,
    lemma_valid_exponent, to_complex, twiddle_table, convert_all, lemma_own_table_fits,
    law_table_matches_own_twiddles,
};

verus! {

/// The twiddle factors of every pass, for both directions.
struct TwiddleTable<C: ComplexSample> {
    forward: Vec<Vec<C>>,
    inverse: Vec<Vec<C>>,
}

/// The twiddle factors `w(len, k)` for `k < half`, in the chosen direction.
fn twiddle_row<C: ComplexSample>(len: usize, half: usize, inverse: bool) -> (row: Vec<C>)
    ensures
        row@.len() == half,
        forall|k: int| 0 <= k < half ==> #[trigger] row@[k] == twiddle_of::<C>(inverse, len as nat, k as nat),
{
    let mut row: Vec<C> = Vec::new();
    let mut k: usize = 0;
    while k < half
        invariant
            k <= half,
            row@.len() == k,
            forall|j: int| 0 <= j < k ==> #[trigger] row@[j] == twiddle_of::<C>(inverse, len as nat, j as nat),
        decreases half - k,
    {
        let w = if inverse {
            C::twiddle_inverse(len, k)
        } else {
            C::twiddle(len, k)
        };
        row.push(w);
        k = k + 1;
    }
    row
}

impl<C: ComplexSample> TwiddleTable<C> {
    /// Computes the tables of the `log2n` passes of a transform of size `n`.
    fn new(_n: usize, log2n: usize) -> (t: Self)
        requires
            log2n <= 24,
        ensures
            twiddle_table(t.forward@, log2n as nat, false),
            twiddle_table(t.inverse@, log2n as nat, true),
    {
        let mut forward: Vec<Vec<C>> = Vec::new();
        let mut inverse: Vec<Vec<C>> = Vec::new();
        let mut len: usize = 2;
        let mut s: usize = 0;
        proof {
            vstd::arithmetic::power2::lemma2_to64();
        }
        while s < log2n
            invariant
                s <= log2n <= 24,
                len == pow2((s + 1) as nat),
                twiddle_table(forward@, s as nat, false),
                twiddle_table(inverse@, s as nat, true),
            decreases log2n - s,
        {
            proof {
                lemma_pow2_unfold((s + 1) as nat);
                lemma_pow2_unfold((s + 2) as nat);
                vstd::arithmetic::power2::lemma_pow2_strictly_increases((s + 2) as nat, 26);
                vstd::arithmetic::power2::lemma2_to64();
            }
            let half = len / 2;
            forward.push(twiddle_row(len, half, false));
            inverse.push(twiddle_row(len, half, true));
            len = len * 2;
            s = s + 1;
            proof {
                assert(forward@[s - 1]@.len() == pow2((s - 1) as nat));
            }
        }
        TwiddleTable { forward, inverse }
    }
}

/// A plan for transforms of one fixed size `n`: the twiddle factors of
/// every pass are computed once, when the plan is made.
pub struct FFTRun<C: ComplexSample> {
    n: usize,
    log2n: usize,
    twiddles: TwiddleTable<C>,
}

impl<C: ComplexSample> FFTRun<C> {
    /// The size is legal and the tables hold the twiddle factors of its passes.
    #[verifier::type_invariant]
    spec fn well_formed(self) -> bool {
        &&& valid_length(self.n as nat)
        &&& pow2(self.log2n as nat) == self.n
        &&& twiddle_table(self.twiddles.forward@, self.log2n as nat, false)
        &&& twiddle_table(self.twiddles.inverse@, self.log2n as nat, true)
    }

    /// The size the plan handles.
    pub closed spec fn size(&self) -> nat {
        self.n as nat
    }

    /// Makes a plan for transforms of `n` samples, if `n` is a legal size.
    pub fn new(n: usize) -> (r: FftResult<Self>)
        ensures
            r is Ok <==> valid_length(n as nat),
            r matches Ok(p) ==> p.size() == n,
            r matches Err(e) ==> length_check(n as nat) == Err::<(), _>(e),
    {
        match validate_length(n) {
            Err(e) => Err(e),
            Ok(()) => {
                let log2n = exponent_of(n);
                proof {
                    lemma_exponent_bound(log2n as nat);
                }
                let twiddles = TwiddleTable::<C>::new(n, log2n);
                Ok(FFTRun { n, log2n, twiddles })
            },
        }
    }

    /// The size the plan handles.
    pub fn n(&self) -> (r: usize)
        ensures
            r == self.size(),
            valid_length(r as nat),
    {
        proof {
            use_type_invariant(self);
        }
        self.n
    }

    /// The forward transform of `input`, which must have the plan's size.
    pub fn fft<T: IntoSample<C>>(&self, input: &[T]) -> (r: Vec<C>)
        requires
            input@.len() == self.size(),
        ensures
            r@ == fft_spec(to_complex::<T, C>(input@)),
    {
        proof {
            use_type_invariant(self);
        }
        if self.n == 1 {
            let r = vec![input[0].into_complex()];
            proof {
                assert(r@ =~= to_complex::<T, C>(input@));
            }
            return r;
        }
        proof {
            lemma_valid_exponent(self.n as nat, self.log2n as nat);
        }
        let mut buf = convert_all(input);
        let ghost before = buf@;
        proof {
            lemma_own_table_fits(self.twiddles.forward@, self.log2n as nat, false);
            law_table_matches_own_twiddles(before, self.twiddles.forward@, self.log2n as nat, false);
            assert(before.subrange(0, self.n as int) =~= before);
        }
        fft_forward_with_table(buf.as_mut_slice(), self.n, self.log2n, self.twiddles.forward.as_slice());
        proof {
            assert(buf@.subrange(0, self.n as int) =~= buf@);
        }
        buf
    }

    /// The inverse transform of `input` (normalised by the size), which must
    /// have the plan's size.
    pub fn ifft(&self, input: Vec<C>) -> (r: Vec<C>)
        requires
            input@.len() == self.size(),
        ensures
            r@ == ifft_spec(input@),
    {
        proof {
            use_type_invariant(self);
        }
        if self.n == 1 {
            return input;
        }
        proof {
            lemma_valid_exponent(self.n as nat, self.log2n as nat);
        }
        let mut buf = input;
        let ghost before = buf@;
        proof {
            lemma_own_table_fits(self.twiddles.inverse@, self.log2n as nat, true);
            law_table_matches_own_twiddles(before, self.twiddles.inverse@, self.log2n as nat, true);
            assert(before.subrange(0, self.n as int) =~= before);
        }
        fft_inverse_with_table(buf.as_mut_slice(), self.n, self.log2n, self.twiddles.inverse.as_slice());
        proof {
            assert(buf@.subrange(0, self.n as int) =~= buf@);
        }
        buf
    }

    /// Forward transform of `buffer` in place, with no allocation; `buffer`
    /// must have the plan's size.
    pub fn process_inplace_fft(&self, buffer: &mut [C])
        requires
            old(buffer)@.len() == self.size(),
        ensures
            final(buffer)@ == fft_spec(old(buffer)@),
    {
        proof {
            use_type_invariant(self);
        }
        if self.n <= 1 {
            return;
        }
        proof {
            lemma_valid_exponent(self.n as nat, self.log2n as nat);
        }
        let ghost before = buffer@;
        proof {
            lemma_own_table_fits(self.twiddles.forward@, self.log2n as nat, false);
            law_table_matches_own_twiddles(before, self.twiddles.forward@, self.log2n as nat, false);
            assert(before.subrange(0, self.n as int) =~= before);
        }
        fft_forward_with_table(buffer, self.n, self.log2n, self.twiddles.forward.as_slice());
        proof {
            assert(buffer@.subrange(0, self.n as int) =~= buffer@);
        }
    }

    /// Inverse transform of `buffer` in place (normalised by the size), with
    /// no allocation; `buffer` must have the plan's size.
    pub fn process_inplace_ifft(&self, buffer: &mut [C])
        requires
            old(buffer)@.len() == self.size(),
        ensures
            final(buffer)@ == ifft_spec(old(buffer)@),
    {
        proof {
            use_type_invariant(self);
        }
        if self.n <= 1 {
            return;
        }
        proof {
            lemma_valid_exponent(self.n as nat, self.log2n as nat);
        }
        let ghost before = buffer@;
        proof {
            lemma_own_table_fits(self.twiddles.inverse@, self.log2n as nat, true);
            law_table_matches_own_twiddles(before, self.twiddles.inverse@, self.log2n as nat, true);
            assert(before.subrange(0, self.n as int) =~= before);
        }
        fft_inverse_with_table(buffer, self.n, self.log2n, self.twiddles.inverse.as_slice());
        proof {
            assert(buffer@.subrange(0, self.n as int) =~= buffer@);
        }
    }
}

} // verus!
