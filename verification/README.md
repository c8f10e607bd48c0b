# fft_rs

A radix-2 Cooley–Tukey fast Fourier transform (decimation in time) for
power-of-two lengths from 1 to 2^24, written in Verus.

## Layout

- `src/` — the verified library.
  - `error.rs`: length validation (`validate_length`, `is_power_of_two`),
    `FftError` and its message.
  - `bits.rs`: bit reversal of indices — its definition over bit sequences,
    the facts that it is an involution and splits over even/odd indices, and
    the executable `bit_reverse` (one `usize::reverse_bits` and a shift).
  - `sample.rs`: the `ComplexSample` and `IntoSample` traits through which the
    transforms do all arithmetic on samples.
  - `transform.rs`: `radix2`, the recursive radix-2 transform that every
    executable transform is proved to compute, and the lemmas linking it to the
    in-place passes.
  - `fft_core.rs`: bit-reversal permutation, the butterfly passes (over the
    first `n` samples of a buffer, with the sample type's own twiddle factors
    or any table of them), and the one-shot handle `FFT`.
  - `plan.rs`: the reusable plan `FFTRun` with precomputed twiddle tables.
  - `dft.rs`: with exact arithmetic, `radix2` is the DFT sum.
  - `inversion.rs`: with exact arithmetic, the inverse transform undoes the
    forward transform.
  - `convolution.rs`: with exact arithmetic, the convolution theorem.
  - `symmetry.rs`: with exact arithmetic and a conjugation, Hermitian
    symmetry of the spectrum of a real signal and Parseval's theorem.
- `app/` — the floating-point side: `Complex32`/`Complex64` with their
  arithmetic, the sample conversions from `i32`, `i64`, `f32`, `f64`, a
  displayable copy of the error type, and length-checking entry points for
  callers outside Verus.
- `tests/` — validation, bit reversal, and floating-point transforms checked
  against known spectra, a naive DFT, and round trips.

## What is proved

For every sample type, each transform returns exactly `radix2` of its input
evaluated with the sample type's own operations (floating point included), the
plan returns exactly what the one-shot handle returns, and no index leaves its
buffer. For sample arithmetic that obeys the laws of exact complex numbers,
`radix2` is the DFT, the inverse transform returns the signal it was given,
the transform turns circular convolution into pointwise multiplication, the
spectrum of a real signal is Hermitian, and Parseval's theorem holds.
