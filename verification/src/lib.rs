//! A radix-2 Cooley–Tukey fast Fourier transform (decimation in time).
//!
//! Transform sizes are powers of two from 1 to 2^24. The transforms are
//! generic over the sample types: a real sample type converts into a complex
//! type through [`IntoSample`], and the complex type supplies its arithmetic
//! through [`ComplexSample`]. Every transform is proved to return exactly the
//! radix-2 recursion of `transform::radix2` evaluated with those operations,
//! and plans (`FFTRun`) to return exactly what the one-shot handle (`FFT`)
//! returns.

pub mod error;
pub mod bits;
pub mod sample;
pub mod transform;
pub mod fft_core;
pub mod plan;
pub mod dft;
pub mod inversion;
pub mod convolution;
pub mod symmetry;

pub use error::{is_power_of_two, validate_length, FftError, FftResult, MAX_FFT_SIZE};
pub use bits::bit_reverse;
pub use sample::{ComplexSample, IntoSample};
pub use fft_core::FFT;
pub use plan::FFTRun;
