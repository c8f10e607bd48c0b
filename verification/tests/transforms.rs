use fft_rs::{ComplexSample, FFTRun, IntoSample, FFT};
use std::ops::{Add, Mul, Sub};

// ---------------------------------------------------------------------------
// Floating-point complex numbers plugged into the library's traits
// ---------------------------------------------------------------------------

#[derive(Clone, Copy, PartialEq, Debug)]
pub struct Complex32 {
    pub re: f32,
    pub im: f32,
}

#[derive(Clone, Copy, PartialEq, Debug)]
pub struct Complex64 {
    pub re: f64,
    pub im: f64,
}

impl Complex32 {
    pub fn new(re: f32, im: f32) -> Self {
        Complex32 { re, im }
    }
    pub fn magnitude_squared(self) -> f32 {
        self.re * self.re + self.im * self.im
    }
}

impl Complex64 {
    pub fn new(re: f64, im: f64) -> Self {
        Complex64 { re, im }
    }
    pub fn zero() -> Self {
        Complex64 { re: 0.0, im: 0.0 }
    }
    pub fn one() -> Self {
        Complex64 { re: 1.0, im: 0.0 }
    }
    pub fn magnitude(self) -> f64 {
        (self.re * self.re + self.im * self.im).sqrt()
    }
    pub fn magnitude_squared(self) -> f64 {
        self.re * self.re + self.im * self.im
    }
    pub fn twiddle(n: usize, k: usize) -> Self {
        let angle = -2.0 * std::f64::consts::PI * k as f64 / n as f64;
        let (sin, cos) = angle.sin_cos();
        Complex64 { re: cos, im: sin }
    }
}

impl Add for Complex64 {
    type Output = Self;
    fn add(self, rhs: Self) -> Self {
        Complex64 { re: self.re + rhs.re, im: self.im + rhs.im }
    }
}

impl Sub for Complex64 {
    type Output = Self;
    fn sub(self, rhs: Self) -> Self {
        Complex64 { re: self.re - rhs.re, im: self.im - rhs.im }
    }
}

impl Mul for Complex64 {
    type Output = Self;
    fn mul(self, rhs: Self) -> Self {
        Complex64 {
            re: self.re * rhs.re - self.im * rhs.im,
            im: self.re * rhs.im + self.im * rhs.re,
        }
    }
}

impl ComplexSample for Complex32 {
    type Scalar = f32;
    fn zero() -> Self {
        Complex32 { re: 0.0, im: 0.0 }
    }
    fn one() -> Self {
        Complex32 { re: 1.0, im: 0.0 }
    }
    fn twiddle(n: usize, k: usize) -> Self {
        let angle = -2.0 * std::f32::consts::PI * k as f32 / n as f32;
        let (sin, cos) = angle.sin_cos();
        Complex32 { re: cos, im: sin }
    }
    fn twiddle_inverse(n: usize, k: usize) -> Self {
        let angle = 2.0 * std::f32::consts::PI * k as f32 / n as f32;
        let (sin, cos) = angle.sin_cos();
        Complex32 { re: cos, im: sin }
    }
    fn add(self, rhs: Self) -> Self {
        Complex32 { re: self.re + rhs.re, im: self.im + rhs.im }
    }
    fn sub(self, rhs: Self) -> Self {
        Complex32 { re: self.re - rhs.re, im: self.im - rhs.im }
    }
    fn mul(self, rhs: Self) -> Self {
        Complex32 {
            re: self.re * rhs.re - self.im * rhs.im,
            im: self.re * rhs.im + self.im * rhs.re,
        }
    }
    fn neg(self) -> Self {
        Complex32 { re: -self.re, im: -self.im }
    }
    fn div_scalar(self, s: f32) -> Self {
        Complex32 { re: self.re / s, im: self.im / s }
    }
    fn scalar_from_usize(n: usize) -> f32 {
        n as f32
    }
}

impl ComplexSample for Complex64 {
    type Scalar = f64;
    fn zero() -> Self {
        Complex64::zero()
    }
    fn one() -> Self {
        Complex64::one()
    }
    fn twiddle(n: usize, k: usize) -> Self {
        Complex64::twiddle(n, k)
    }
    fn twiddle_inverse(n: usize, k: usize) -> Self {
        let angle = 2.0 * std::f64::consts::PI * k as f64 / n as f64;
        let (sin, cos) = angle.sin_cos();
        Complex64 { re: cos, im: sin }
    }
    fn add(self, rhs: Self) -> Self {
        self + rhs
    }
    fn sub(self, rhs: Self) -> Self {
        self - rhs
    }
    fn mul(self, rhs: Self) -> Self {
        self * rhs
    }
    fn neg(self) -> Self {
        Complex64 { re: -self.re, im: -self.im }
    }
    fn div_scalar(self, s: f64) -> Self {
        Complex64 { re: self.re / s, im: self.im / s }
    }
    fn scalar_from_usize(n: usize) -> f64 {
        n as f64
    }
}

impl IntoSample<Complex32> for i32 {
    fn into_complex(self) -> Complex32 {
        Complex32::new(self as f32, 0.0)
    }
}

impl IntoSample<Complex64> for i64 {
    fn into_complex(self) -> Complex64 {
        Complex64::new(self as f64, 0.0)
    }
}

impl IntoSample<Complex32> for f32 {
    fn into_complex(self) -> Complex32 {
        Complex32::new(self, 0.0)
    }
}

impl IntoSample<Complex64> for f64 {
    fn into_complex(self) -> Complex64 {
        Complex64::new(self, 0.0)
    }
}

fn assert_complex32_eq(a: Complex32, b: Complex32, eps: f32) {
    assert!((a.re - b.re).abs() < eps, "re: {} vs {}", a.re, b.re);
    assert!((a.im - b.im).abs() < eps, "im: {} vs {}", a.im, b.im);
}

fn assert_complex64_eq(a: Complex64, b: Complex64, eps: f64) {
    assert!((a.re - b.re).abs() < eps, "re: {} vs {}", a.re, b.re);
    assert!((a.im - b.im).abs() < eps, "im: {} vs {}", a.im, b.im);
}

fn naive_dft(input: &[f64]) -> Vec<Complex64> {
    let n = input.len();
    let mut out = Vec::with_capacity(n);
    for k in 0..n {
        let mut sum = Complex64::zero();
        for m in 0..n {
            let tw = Complex64::twiddle(n, k * m);
            sum = sum + tw * Complex64::new(input[m], 0.0);
        }
        out.push(sum);
    }
    out
}

// ---------------------------------------------------------------------------
// One-shot transforms
// ---------------------------------------------------------------------------

#[test]
fn test_fft4_f64() {
    let input = vec![1.0f64, 2.0, 3.0, 4.0];
    let fft = FFT::new(input).unwrap();
    let out: Vec<Complex64> = fft.compute();
    assert_complex64_eq(out[0], Complex64::new(10.0, 0.0), 1e-10);
    assert_complex64_eq(out[1], Complex64::new(-2.0, 2.0), 1e-10);
    assert_complex64_eq(out[2], Complex64::new(-2.0, 0.0), 1e-10);
    assert_complex64_eq(out[3], Complex64::new(-2.0, -2.0), 1e-10);
}

#[test]
fn test_fft4_f32() {
    let input = vec![1.0f32, 2.0, 3.0, 4.0];
    let fft = FFT::new(input).unwrap();
    let out: Vec<Complex32> = fft.compute();
    assert_complex32_eq(out[0], Complex32::new(10.0, 0.0), 1e-5);
    assert_complex32_eq(out[1], Complex32::new(-2.0, 2.0), 1e-5);
    assert_complex32_eq(out[2], Complex32::new(-2.0, 0.0), 1e-5);
    assert_complex32_eq(out[3], Complex32::new(-2.0, -2.0), 1e-5);
}

#[test]
fn test_fft4_i32() {
    let input = vec![1i32, 2, 3, 4];
    let fft = FFT::new(input).unwrap();
    let out: Vec<Complex32> = fft.compute();
    assert_complex32_eq(out[0], Complex32::new(10.0, 0.0), 1e-5);
    assert_complex32_eq(out[1], Complex32::new(-2.0, 2.0), 1e-5);
    assert_complex32_eq(out[2], Complex32::new(-2.0, 0.0), 1e-5);
}

#[test]
fn test_fft4_i64() {
    let input = vec![1i64, 2, 3, 4];
    let fft = FFT::new(input).unwrap();
    let out: Vec<Complex64> = fft.compute();
    assert_complex64_eq(out[0], Complex64::new(10.0, 0.0), 1e-10);
    assert_complex64_eq(out[1], Complex64::new(-2.0, 2.0), 1e-10);
    assert_complex64_eq(out[2], Complex64::new(-2.0, 0.0), 1e-10);
}

#[test]
fn test_fft_length_1() {
    let fft = FFT::new(vec![42.0f64]).unwrap();
    let out: Vec<Complex64> = fft.compute();
    assert_eq!(out.len(), 1);
    assert_complex64_eq(out[0], Complex64::new(42.0, 0.0), 1e-12);
}

#[test]
fn test_roundtrip_f64() {
    let input: Vec<f64> = (0..1024).map(|i| (i as f64 * 0.01).sin()).collect();
    let fft = FFT::new(input.clone()).unwrap();
    let spectrum: Vec<Complex64> = fft.compute();
    let recovered = FFT::<f64>::ifft(spectrum);
    for i in 0..input.len() {
        assert_complex64_eq(recovered[i], Complex64::new(input[i], 0.0), 1e-8);
    }
}

#[test]
fn test_roundtrip_f32() {
    let input: Vec<f32> = (0..256).map(|i| (i as f32 * 0.1).cos()).collect();
    let fft = FFT::new(input.clone()).unwrap();
    let spectrum: Vec<Complex32> = fft.compute();
    let recovered = FFT::<f32>::ifft(spectrum);
    for i in 0..input.len() {
        assert_complex32_eq(recovered[i], Complex32::new(input[i], 0.0), 1e-4);
    }
}

#[test]
fn test_roundtrip_i32() {
    let input: Vec<i32> = vec![1, 0, -1, 0, 1, 0, -1, 0];
    let fft = FFT::new(input.clone()).unwrap();
    let spectrum: Vec<Complex32> = fft.compute();
    let recovered = FFT::<i32>::ifft(spectrum);
    for i in 0..input.len() {
        assert_complex32_eq(recovered[i], Complex32::new(input[i] as f32, 0.0), 1e-4);
    }
}

#[test]
fn test_parseval_f64() {
    let input: Vec<f64> = (0..512).map(|i| (i as f64 * 0.05).sin() + (i as f64 * 0.13).cos()).collect();
    let n = input.len();
    let fft = FFT::new(input.clone()).unwrap();
    let spectrum: Vec<Complex64> = fft.compute();
    let time_energy: f64 = input.iter().map(|x| x * x).sum();
    let freq_energy: f64 = spectrum.iter().map(|x| x.magnitude_squared()).sum();
    assert!((time_energy - freq_energy / n as f64).abs() < 1e-6 * time_energy);
}

#[test]
fn test_parseval_f32() {
    let input: Vec<f32> = (0..256).map(|i| (i as f32 * 0.1).sin()).collect();
    let n = input.len();
    let fft = FFT::new(input.clone()).unwrap();
    let spectrum: Vec<Complex32> = fft.compute();
    let time_energy: f32 = input.iter().map(|x| x * x).sum();
    let freq_energy: f32 = spectrum.iter().map(|x| x.magnitude_squared()).sum();
    assert!((time_energy - freq_energy / n as f32).abs() < 1e-3 * time_energy);
}

#[test]
fn test_delta_f64() {
    let input = vec![1.0f64, 0.0, 0.0, 0.0];
    let fft = FFT::new(input).unwrap();
    let out: Vec<Complex64> = fft.compute();
    for v in &out {
        assert_complex64_eq(*v, Complex64::one(), 1e-10);
    }
}

#[test]
fn test_constant_signal_f64() {
    let input = vec![5.0f64; 8];
    let fft = FFT::new(input).unwrap();
    let out: Vec<Complex64> = fft.compute();
    assert_complex64_eq(out[0], Complex64::new(40.0, 0.0), 1e-10);
    for i in 1..8 {
        assert_complex64_eq(out[i], Complex64::zero(), 1e-10);
    }
}

#[test]
fn test_fft_vs_naive_dft_n8() {
    let input: Vec<f64> = vec![0.0, 1.0, 0.5, -0.5, 0.25, 0.75, -1.0, 0.1];
    let fft = FFT::new(input.clone()).unwrap();
    let fft_out: Vec<Complex64> = fft.compute();
    let naive_out = naive_dft(&input);
    for i in 0..input.len() {
        assert_complex64_eq(fft_out[i], naive_out[i], 1e-10);
    }
}

#[test]
fn test_fft_vs_naive_dft_n16() {
    let input: Vec<f64> = (0..16).map(|i| (i as f64 * 0.3).sin() * (i as f64 * 0.7).cos()).collect();
    let fft = FFT::new(input.clone()).unwrap();
    let fft_out: Vec<Complex64> = fft.compute();
    let naive_out = naive_dft(&input);
    for i in 0..input.len() {
        assert_complex64_eq(fft_out[i], naive_out[i], 1e-10);
    }
}

#[test]
fn test_fft_vs_naive_dft_n32() {
    let input: Vec<f64> = (0..32).map(|i| ((i * 3 + 7) % 17) as f64 / 16.0).collect();
    let fft = FFT::new(input.clone()).unwrap();
    let fft_out: Vec<Complex64> = fft.compute();
    let naive_out = naive_dft(&input);
    for i in 0..input.len() {
        assert_complex64_eq(fft_out[i], naive_out[i], 1e-10);
    }
}

#[test]
fn compute_inverse_and_compute_inplace_agree_with_compute() {
    let input = vec![1.0f64, -2.0, 0.5, 4.0, 3.0, 0.0, -1.0, 2.5];
    let mut fft = FFT::new(input.clone()).unwrap();
    let a: Vec<Complex64> = fft.compute();
    let b: Vec<Complex64> = fft.compute_inplace();
    assert_eq!(a, b);
    assert_eq!(fft.input(), &input[..]);
    let back = fft.compute_inverse(&a);
    assert_eq!(back, FFT::<f64>::ifft(a.clone()));
    for i in 0..8 {
        assert_complex64_eq(back[i], Complex64::new(input[i], 0.0), 1e-12);
    }
}

#[test]
fn ifft_of_length_one_is_identity() {
    let v = vec![Complex64::new(3.5, -1.25)];
    assert_eq!(FFT::<f64>::ifft(v.clone()), v);
    let plan = FFTRun::<Complex64>::new(1).unwrap();
    assert_eq!(plan.ifft(v.clone()), v);
    let mut buf = v.clone();
    plan.process_inplace_fft(&mut buf);
    plan.process_inplace_ifft(&mut buf);
    assert_eq!(buf, v);
}

// ---------------------------------------------------------------------------
// Plans
// ---------------------------------------------------------------------------

#[test]
fn test_plan_fft4_f64() {
    let plan = FFTRun::<Complex64>::new(4).unwrap();
    let input = vec![1.0f64, 2.0, 3.0, 4.0];
    let out = plan.fft(&input);
    assert_complex64_eq(out[0], Complex64::new(10.0, 0.0), 1e-10);
    assert_complex64_eq(out[1], Complex64::new(-2.0, 2.0), 1e-10);
    assert_complex64_eq(out[2], Complex64::new(-2.0, 0.0), 1e-10);
    assert_complex64_eq(out[3], Complex64::new(-2.0, -2.0), 1e-10);
}

#[test]
fn test_plan_roundtrip_f64() {
    let plan = FFTRun::<Complex64>::new(256).unwrap();
    let input: Vec<f64> = (0..256).map(|i| (i as f64 * 0.05).sin()).collect();
    let spectrum = plan.fft(&input);
    let recovered = plan.ifft(spectrum);
    for i in 0..input.len() {
        assert_complex64_eq(recovered[i], Complex64::new(input[i], 0.0), 1e-10);
    }
}

#[test]
fn test_plan_roundtrip_f32() {
    let plan = FFTRun::<Complex32>::new(128).unwrap();
    let input: Vec<f32> = (0..128).map(|i| (i as f32 * 0.1).cos()).collect();
    let spectrum = plan.fft(&input);
    let recovered = plan.ifft(spectrum);
    for i in 0..input.len() {
        assert_complex32_eq(recovered[i], Complex32::new(input[i], 0.0), 1e-4);
    }
}

#[test]
fn test_plan_reuse() {
    let plan = FFTRun::<Complex64>::new(8).unwrap();
    let a = vec![1.0f64, 0.0, 0.0, 0.0, 0.0, 0.0, 0.0, 0.0];
    let b = vec![0.0f64, 1.0, 0.0, 0.0, 0.0, 0.0, 0.0, 0.0];
    let sa = plan.fft(&a);
    let sb = plan.fft(&b);
    for i in 0..8 {
        assert_complex64_eq(sa[i], Complex64::one(), 1e-10);
    }
    for k in 0..8 {
        let expected = Complex64::twiddle(8, k);
        assert_complex64_eq(sb[k], expected, 1e-10);
    }
}

#[test]
fn test_plan_rejects_invalid_size() {
    assert!(FFTRun::<Complex64>::new(0).is_err());
    assert!(FFTRun::<Complex64>::new(6).is_err());
    assert!(FFTRun::<Complex64>::new(1 << 25).is_err());
}

#[test]
fn test_plan_n() {
    let plan = FFTRun::<Complex64>::new(1024).unwrap();
    assert_eq!(plan.n(), 1024);
}

#[test]
fn test_process_inplace_fft_matches_allocating() {
    let plan = FFTRun::<Complex64>::new(8).unwrap();
    let input = vec![1.0f64, 2.0, 3.0, 4.0, 5.0, 6.0, 7.0, 8.0];
    let allocated_out = plan.fft(&input);
    let mut buf: Vec<Complex64> = input.iter().copied().map(|s| s.into_complex()).collect();
    plan.process_inplace_fft(&mut buf);
    for i in 0..8 {
        assert_complex64_eq(buf[i], allocated_out[i], 1e-12);
    }
}

#[test]
fn test_process_inplace_ifft_roundtrip() {
    let plan = FFTRun::<Complex64>::new(16).unwrap();
    let input = vec![1.0f64, 2.0, 3.0, 4.0, 5.0, 6.0, 7.0, 8.0,
                     9.0, 10.0, 11.0, 12.0, 13.0, 14.0, 15.0, 16.0];
    let mut buf: Vec<Complex64> = input.iter().copied().map(|s| s.into_complex()).collect();
    plan.process_inplace_fft(&mut buf);
    plan.process_inplace_ifft(&mut buf);
    for i in 0..16 {
        assert_complex64_eq(buf[i], Complex64::new(input[i], 0.0), 1e-10);
    }
}

#[test]
fn test_process_inplace_repeated_calls_stable() {
    let plan = FFTRun::<Complex64>::new(8).unwrap();
    let input = vec![1.0f64, 2.0, 3.0, 4.0, 5.0, 6.0, 7.0, 8.0];
    let mut buf1: Vec<Complex64> = input.iter().copied().map(|s| s.into_complex()).collect();
    plan.process_inplace_fft(&mut buf1);
    plan.process_inplace_ifft(&mut buf1);
    let mut buf2: Vec<Complex64> = input.iter().copied().map(|s| s.into_complex()).collect();
    plan.process_inplace_fft(&mut buf2);
    plan.process_inplace_ifft(&mut buf2);
    for i in 0..8 {
        assert_complex64_eq(buf1[i], buf2[i], 1e-12);
        assert_complex64_eq(buf1[i], Complex64::new(input[i], 0.0), 1e-10);
    }
}

// ---------------------------------------------------------------------------
// Mathematical behaviour
// ---------------------------------------------------------------------------

#[test]
fn roundtrip_all_types() {
    // f64
    {
        let input: Vec<f64> = (0..256).map(|i| (i as f64 * 0.01).sin() * (i as f64 * 0.03).cos()).collect();
        let fft = FFT::new(input.clone()).unwrap();
        let spectrum: Vec<Complex64> = fft.compute();
        let recovered = FFT::<f64>::ifft(spectrum);
        for i in 0..input.len() {
            assert!((recovered[i].re - input[i]).abs() < 1e-10);
            assert!(recovered[i].im.abs() < 1e-10);
        }
    }

    // f32
    {
        let input: Vec<f32> = (0..256).map(|i| (i as f32 * 0.01).sin() * (i as f32 * 0.03).cos()).collect();
        let fft = FFT::new(input.clone()).unwrap();
        let spectrum: Vec<Complex32> = fft.compute();
        let recovered = FFT::<f32>::ifft(spectrum);
        for i in 0..input.len() {
            assert!((recovered[i].re - input[i]).abs() < 1e-4);
            assert!(recovered[i].im.abs() < 1e-4);
        }
    }

    // i32
    {
        let input: Vec<i32> = (0..256).map(|i| ((i * 7 + 3) % 100 - 50) as i32).collect();
        let fft = FFT::new(input.clone()).unwrap();
        let spectrum: Vec<Complex32> = fft.compute();
        let recovered = FFT::<i32>::ifft(spectrum);
        for i in 0..input.len() {
            assert!((recovered[i].re - input[i] as f32).abs() < 1e-2);
            assert!(recovered[i].im.abs() < 1e-2);
        }
    }

    // i64
    {
        let input: Vec<i64> = (0..256).map(|i| ((i * 7 + 3) % 100 - 50) as i64).collect();
        let fft = FFT::new(input.clone()).unwrap();
        let spectrum: Vec<Complex64> = fft.compute();
        let recovered = FFT::<i64>::ifft(spectrum);
        for i in 0..input.len() {
            assert!((recovered[i].re - input[i] as f64).abs() < 1e-6);
            assert!(recovered[i].im.abs() < 1e-6);
        }
    }
}

#[test]
fn frequency_peak_detection() {
    let n = 1024;
    let freq_bin = 5usize;
    let input: Vec<f64> = (0..n)
        .map(|i| 2.0 * std::f64::consts::PI * freq_bin as f64 * i as f64 / n as f64)
        .map(f64::sin)
        .collect();

    let fft = FFT::new(input).unwrap();
    let spectrum: Vec<Complex64> = fft.compute();

    let peak_mag = spectrum[freq_bin].magnitude();

    for i in 0..n {
        if i != freq_bin && i != n - freq_bin {
            assert!(
                spectrum[i].magnitude() < peak_mag * 0.01,
                "unexpected large value at bin {}: {} (peak: {})",
                i,
                spectrum[i].magnitude(),
                peak_mag
            );
        }
    }

    assert!((peak_mag - n as f64 / 2.0).abs() < 1.0);
}

#[test]
fn convolution_theorem() {
    let n = 64;

    let a: Vec<f64> = (0..n).map(|i| (i as f64 / n as f64).exp()).collect();
    let b: Vec<f64> = (0..n).map(|i| (-1.0 * i as f64 / n as f64).exp()).collect();

    let fft_a: Vec<Complex64> = FFT::new(a.clone()).unwrap().compute();
    let fft_b: Vec<Complex64> = FFT::new(b.clone()).unwrap().compute();

    let mut product = Vec::with_capacity(n);
    for i in 0..n {
        product.push(fft_a[i] * fft_b[i]);
    }

    let conv = FFT::<f64>::ifft(product);

    let mut expected = vec![Complex64::zero(); n];
    for i in 0..n {
        for j in 0..n {
            let idx = (i + j) % n;
            expected[idx] = expected[idx] + Complex64::new(a[j] * b[i], 0.0);
        }
    }

    for i in 0..n {
        let diff_re = (conv[i].re - expected[i].re).abs();
        let diff_im = conv[i].im.abs();
        assert!(diff_re < 1e-8, "re diff at {}: {} vs {}", i, conv[i].re, expected[i].re);
        assert!(diff_im < 1e-8);
    }
}

#[test]
fn hermitian_symmetry_for_real_input() {
    let n = 128;
    let input: Vec<f64> = (0..n).map(|i| (i as f64 * 0.1).sin() + (i as f64 * 0.3).cos()).collect();

    let fft = FFT::new(input).unwrap();
    let spectrum: Vec<Complex64> = fft.compute();

    for k in 1..n / 2 {
        let xk = spectrum[k];
        let xk_mirror = spectrum[n - k];
        assert!((xk.re - xk_mirror.re).abs() < 1e-10, "real part mismatch at k={}", k);
        assert!((xk.im + xk_mirror.im).abs() < 1e-10, "imag part mismatch at k={}", k);
    }

    assert!(spectrum[0].im.abs() < 1e-10);
    assert!(spectrum[n / 2].im.abs() < 1e-10);
}

#[test]
fn plan_vs_nonplan_consistency() {
    let n = 256;
    let input: Vec<f64> = (0..n).map(|i| (i as f64 * 0.05).sin()).collect();

    let fft = FFT::new(input.clone()).unwrap();
    let spectrum_direct: Vec<Complex64> = fft.compute();

    let plan = FFTRun::<Complex64>::new(n).unwrap();
    let spectrum_plan = plan.fft(&input);

    for i in 0..n {
        assert!((spectrum_direct[i].re - spectrum_plan[i].re).abs() < 1e-12);
        assert!((spectrum_direct[i].im - spectrum_plan[i].im).abs() < 1e-12);
    }
}

#[test]
fn plan_and_one_shot_agree_exactly() {
    for &n in &[1usize, 2, 4, 64, 512] {
        let input: Vec<f64> = (0..n).map(|i| ((i * 13 + 5) % 31) as f64 - 15.0).collect();
        let direct: Vec<Complex64> = FFT::new(input.clone()).unwrap().compute();
        let plan = FFTRun::<Complex64>::new(n).unwrap();
        assert_eq!(plan.fft(&input), direct);
        assert_eq!(plan.ifft(direct.clone()), FFT::<f64>::ifft(direct.clone()));
        let mut buf: Vec<Complex64> = input.iter().map(|&s| s.into_complex()).collect();
        plan.process_inplace_fft(&mut buf);
        assert_eq!(buf, direct);
        plan.process_inplace_ifft(&mut buf);
        assert_eq!(buf, FFT::<f64>::ifft(direct.clone()));
    }
}

#[test]
fn length_1_fft() {
    let fft = FFT::new(vec![42.0f64]).unwrap();
    let out: Vec<Complex64> = fft.compute();
    assert_eq!(out.len(), 1);
    assert_eq!(out[0], Complex64::new(42.0, 0.0));
}

#[test]
fn length_2_fft() {
    let fft = FFT::new(vec![3.0f64, 5.0]).unwrap();
    let out: Vec<Complex64> = fft.compute();
    assert!((out[0].re - 8.0).abs() < 1e-10);
    assert!((out[1].re - (-2.0)).abs() < 1e-10);
}

#[test]
fn all_zeros_input() {
    let input = vec![0.0f64; 64];
    let fft = FFT::new(input).unwrap();
    let out: Vec<Complex64> = fft.compute();
    for v in &out {
        assert!(v.magnitude() < 1e-10);
    }
}

#[test]
fn all_ones_input() {
    let input = vec![1.0f64; 64];
    let fft = FFT::new(input).unwrap();
    let out: Vec<Complex64> = fft.compute();
    assert!((out[0].re - 64.0).abs() < 1e-10);
    for i in 1..64 {
        assert!(out[i].magnitude() < 1e-10);
    }
}

#[test]
fn alternating_signs() {
    let n = 64;
    let input: Vec<f64> = (0..n).map(|i| if i % 2 == 0 { 1.0 } else { -1.0 }).collect();
    let fft = FFT::new(input).unwrap();
    let out: Vec<Complex64> = fft.compute();

    assert!(out[0].magnitude() < 1e-10);
    assert!((out[n / 2].re - 64.0).abs() < 1e-10);
    for i in 1..n / 2 {
        assert!(out[i].magnitude() < 1e-10);
        assert!(out[n - i].magnitude() < 1e-10);
    }
}

#[test]
fn large_negative_and_positive_values() {
    let input = vec![1e15f64, -1e15, 1e15, -1e15];
    let fft = FFT::new(input.clone()).unwrap();
    let out: Vec<Complex64> = fft.compute();

    let recovered = FFT::<f64>::ifft(out);
    for i in 0..4 {
        assert!((recovered[i].re - input[i]).abs() < 1e3);
        assert!(recovered[i].im.abs() < 1e3);
    }
}

#[test]
fn plan_rejects_invalid_sizes() {
    assert!(FFTRun::<Complex64>::new(0).is_err());
    assert!(FFTRun::<Complex64>::new(6).is_err());
    assert!(FFTRun::<Complex64>::new(1 << 25).is_err());
}

#[test]
fn plan_reuses_successfully() {
    let plan = FFTRun::<Complex64>::new(8).unwrap();

    for _ in 0..100 {
        let input = vec![1.0, 2.0, 3.0, 4.0, 5.0, 6.0, 7.0, 8.0];
        let spectrum = plan.fft(&input);
        let recovered = plan.ifft(spectrum);
        for i in 0..8 {
            assert!((recovered[i].re - input[i]).abs() < 1e-10);
        }
    }
}

#[test]
fn same_signal_different_types_produce_consistent_results() {
    let input_f64: Vec<f64> = vec![1.0, 2.0, 3.0, 4.0];
    let input_f32: Vec<f32> = vec![1.0, 2.0, 3.0, 4.0];
    let input_i32: Vec<i32> = vec![1, 2, 3, 4];

    let out_f64: Vec<Complex64> = FFT::new(input_f64).unwrap().compute();
    let out_f32: Vec<Complex32> = FFT::new(input_f32).unwrap().compute();
    let out_i32: Vec<Complex32> = FFT::new(input_i32).unwrap().compute();

    for i in 0..4 {
        assert!((out_f64[i].re - out_f32[i].re as f64).abs() < 1e-5);
        assert!((out_f64[i].im - out_f32[i].im as f64).abs() < 1e-5);
        assert!((out_f64[i].re - out_i32[i].re as f64).abs() < 1e-5);
        assert!((out_f64[i].im - out_i32[i].im as f64).abs() < 1e-5);
    }
}

#[test]
fn inplace_fft_matches_allocating_fft() {
    let plan = FFTRun::<Complex64>::new(8).unwrap();
    let input = vec![1.0f64, 2.0, 3.0, 4.0, 5.0, 6.0, 7.0, 8.0];

    let allocated_out = plan.fft(&input);

    let mut buf: Vec<Complex64> = input.iter().copied().map(|s| s.into_complex()).collect();
    plan.process_inplace_fft(&mut buf);

    for i in 0..8 {
        assert!((buf[i].re - allocated_out[i].re).abs() < 1e-12);
        assert!((buf[i].im - allocated_out[i].im).abs() < 1e-12);
    }
}

#[test]
fn inplace_roundtrip() {
    let plan = FFTRun::<Complex64>::new(32).unwrap();
    let input: Vec<f64> = (0..32).map(|i| (i as f64 * 0.1).sin()).collect();

    let mut buf: Vec<Complex64> = input.iter().copied().map(|s| s.into_complex()).collect();
    plan.process_inplace_fft(&mut buf);
    plan.process_inplace_ifft(&mut buf);

    for i in 0..32 {
        assert!((buf[i].re - input[i]).abs() < 1e-10);
        assert!(buf[i].im.abs() < 1e-10);
    }
}
