use fft_rs::{bit_reverse, is_power_of_two, validate_length, FftError, FFT, MAX_FFT_SIZE};

#[test]
fn test_is_power_of_two() {
    assert!(is_power_of_two(1));
    assert!(is_power_of_two(2));
    assert!(is_power_of_two(4));
    assert!(is_power_of_two(1024));
    assert!(is_power_of_two(1 << 24));
    assert!(!is_power_of_two(0));
    assert!(!is_power_of_two(3));
    assert!(!is_power_of_two(5));
    assert!(!is_power_of_two(6));
    assert!(!is_power_of_two(7));
    assert!(!is_power_of_two(15));
}

#[test]
fn test_validate_length_zero() {
    assert_eq!(validate_length(0), Err(FftError::ZeroLength));
}

#[test]
fn test_validate_length_not_power_of_two() {
    assert_eq!(validate_length(6), Err(FftError::NotPowerOfTwo(6)));
}

#[test]
fn test_validate_length_too_large() {
    assert_eq!(validate_length(1 << 25), Err(FftError::TooLarge(1 << 25)));
}

#[test]
fn test_validate_length_ok() {
    assert!(validate_length(1).is_ok());
    assert!(validate_length(1024).is_ok());
    assert!(validate_length(1 << 24).is_ok());
}

#[test]
fn test_error_display() {
    assert_eq!(
        FftError::ZeroLength.message(),
        "FFT input length is zero; length must be a positive power of 2"
    );
    assert_eq!(
        FftError::NotPowerOfTwo(6).message(),
        "FFT input length 6 is not a power of 2; length must be a positive power of 2"
    );
    assert!(FftError::TooLarge(1 << 25).message().contains("2^24"));
}

#[test]
fn too_large_message_names_length_and_limit() {
    assert_eq!(
        FftError::TooLarge(33554432).message(),
        "FFT input length 33554432 exceeds maximum supported size 2^24 (16777216); reduce input size"
    );
    assert_eq!(
        FftError::NotPowerOfTwo(1023).message(),
        "FFT input length 1023 is not a power of 2; length must be a positive power of 2"
    );
}

#[test]
fn validation_order_prefers_too_large() {
    // A length above the limit that is also not a power of two reports TooLarge.
    assert_eq!(validate_length((1 << 25) + 1), Err(FftError::TooLarge((1 << 25) + 1)));
    assert_eq!(validate_length(MAX_FFT_SIZE + 1), Err(FftError::TooLarge(MAX_FFT_SIZE + 1)));
    assert_eq!(validate_length(MAX_FFT_SIZE), Ok(()));
    assert_eq!(validate_length(MAX_FFT_SIZE - 1), Err(FftError::NotPowerOfTwo(MAX_FFT_SIZE - 1)));
}

#[test]
fn test_new_rejects_zero_length() {
    assert!(FFT::<f64>::new(vec![]).is_err());
    assert!(matches!(FFT::<f64>::new(vec![]), Err(FftError::ZeroLength)));
}

#[test]
fn test_new_rejects_non_power_of_two() {
    assert!(FFT::<f64>::new(vec![1.0, 2.0, 3.0]).is_err());
    assert!(matches!(FFT::<f64>::new(vec![1.0, 2.0, 3.0]), Err(FftError::NotPowerOfTwo(3))));
}

#[test]
fn test_new_rejects_too_large() {
    assert!(matches!(FFT::<f64>::new(vec![0.0f64; 1usize << 25]), Err(FftError::TooLarge(_))));
}

#[test]
fn test_from_slice() {
    let slice: &[f64] = &[1.0, 2.0, 3.0, 4.0];
    let fft = FFT::from_slice(slice).unwrap();
    assert_eq!(fft.len(), 4);
}

#[test]
fn handle_keeps_its_input() {
    let fft = FFT::new(vec![5i32, 6, 7, 8]).unwrap();
    assert_eq!(fft.input(), &[5, 6, 7, 8]);
    assert!(!fft.is_empty());
    assert_eq!(fft.len(), 4);
    assert!(matches!(FFT::from_slice(&[1i64, 2, 3]), Err(FftError::NotPowerOfTwo(3))));
}

#[test]
fn test_is_power_of_two_from_error() {
    assert!(fft_rs::error::is_power_of_two(1));
    assert!(fft_rs::error::is_power_of_two(1024));
    assert!(!fft_rs::error::is_power_of_two(0));
    assert!(!fft_rs::error::is_power_of_two(6));
}

#[test]
fn test_bit_reverse_equivalence() {
    // For N=8 (log2n=3): reverse 3 bits
    assert_eq!(bit_reverse(0, 3), 0);
    assert_eq!(bit_reverse(1, 3), 4);
    assert_eq!(bit_reverse(4, 3), 1);
    assert_eq!(bit_reverse(7, 3), 7);
    // For N=4 (log2n=2):
    assert_eq!(bit_reverse(0, 2), 0);
    assert_eq!(bit_reverse(1, 2), 2);
    assert_eq!(bit_reverse(2, 2), 1);
    assert_eq!(bit_reverse(3, 2), 3);
}

#[test]
fn bit_reverse_is_an_involution_and_ignores_high_bits() {
    for log2n in 1..=10usize {
        for x in 0..(1usize << log2n) {
            let r = bit_reverse(x, log2n);
            assert!(r < (1usize << log2n));
            assert_eq!(bit_reverse(r, log2n), x);
            // bits above the width do not matter
            assert_eq!(bit_reverse(x | (1usize << log2n), log2n), r);
        }
    }
    assert_eq!(bit_reverse(1, 64), 1usize << 63);
    assert_eq!(bit_reverse(6, 4), 6);
    assert_eq!(bit_reverse(1, 5), 16);
}

#[test]
fn reject_empty_input() {
    assert!(matches!(FFT::<f64>::new(vec![]), Err(FftError::ZeroLength)));
}

#[test]
fn reject_non_power_of_two_lengths() {
    for &len in &[3, 5, 6, 7, 9, 10, 15, 100, 1023] {
        let data = vec![0.0f64; len];
        let result = FFT::<f64>::new(data);
        assert!(
            matches!(result, Err(FftError::NotPowerOfTwo(_))),
            "expected NotPowerOfTwo for length {}",
            len
        );
    }
}

#[test]
fn reject_too_large_input() {
    assert!(matches!(FFT::<f64>::new(vec![0.0f64; 1usize << 25]), Err(FftError::TooLarge(_))));
}

#[test]
fn accept_maximum_valid_size() {
    let data = vec![0.0f64; 1 << 24];
    let fft = FFT::<f64>::new(data).unwrap();
    assert_eq!(fft.len(), 1 << 24);
}

#[test]
fn accept_all_power_of_two_sizes() {
    for exp in 0..=24 {
        let n = 1usize << exp;
        let data = vec![1.0f64; n];
        let fft = FFT::<f64>::new(data).unwrap();
        assert_eq!(fft.len(), n, "failed at 2^{}", exp);
    }
}

#[test]
fn is_power_of_two_correctness() {
    assert!(is_power_of_two(1));
    assert!(is_power_of_two(2));
    assert!(is_power_of_two(4));
    assert!(is_power_of_two(8));
    assert!(is_power_of_two(1024));
    assert!(is_power_of_two(1 << 24));

    assert!(!is_power_of_two(0));
    assert!(!is_power_of_two(3));
    assert!(!is_power_of_two(5));
    assert!(!is_power_of_two(6));
    assert!(!is_power_of_two(7));
    assert!(!is_power_of_two(15));
    assert!(!is_power_of_two(100));
}

#[test]
fn is_power_of_two_at_the_top_of_usize() {
    assert!(is_power_of_two(1usize << (usize::BITS - 1)));
    assert!(!is_power_of_two(usize::MAX));
    assert!(!is_power_of_two((1usize << (usize::BITS - 1)) + 1));
}
