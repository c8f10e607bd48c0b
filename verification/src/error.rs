//! Length validation and the error type of the transforms.

use vstd::prelude::*;
use vstd::arithmetic::power::pow;
use vstd::arithmetic::power2::{pow2, is_pow2, is_pow2_exists, is_pow2_equiv, lemma_pow2};

verus! {

/// Largest supported transform size: 2^24 samples.
pub const MAX_FFT_SIZE: usize = 16777216;

/// Why a length cannot be transformed.
#[derive(Debug, Clone, PartialEq, Eq, Structural)]
pub enum FftError {
    /// The input is empty.
    ZeroLength,
    /// The input length is not a power of two.
    NotPowerOfTwo(usize),
    /// The input length exceeds `MAX_FFT_SIZE`.
    TooLarge(usize),
}

/// Result of the fallible operations of this crate.
pub type FftResult<T> = Result<T, FftError>;

/// `n` is two raised to some natural exponent.
pub open spec fn power_of_two(n: nat) -> bool {
    exists|k: nat| pow2(k) == n
}

/// The outcome of validating a transform length.
pub open spec fn length_check(len: nat) -> Result<(), FftError> {
    if len == 0 {
        Err(FftError::ZeroLength)
    } else if len > MAX_FFT_SIZE {
        Err(FftError::TooLarge(len as usize))
    } else if !power_of_two(len) {
        Err(FftError::NotPowerOfTwo(len as usize))
    } else {
        Ok(())
    }
}

/// A length that the transforms accept.
pub open spec fn valid_length(len: nat) -> bool {
    length_check(len) is Ok
}

/// The two ways vstd and this crate phrase "power of two" agree.
pub proof fn lemma_power_of_two_agrees(n: nat)
    ensures
        power_of_two(n) == is_pow2(n as int),
{
    is_pow2_equiv(n as int);
    if power_of_two(n) {
        let k = choose|k: nat| pow2(k) == n;
        lemma_pow2(k);
        assert(pow(2, k) == n as int);
    }
    if is_pow2_exists(n as int) {
        let i = choose|i: nat| pow(2, i) == n as int;
        lemma_pow2(i);
        assert(pow2(i) == n);
    }
}

/// Every power of two up to `MAX_FFT_SIZE` is a legal transform size.
pub proof fn lemma_valid_power(width: nat)
    requires
        pow2(width) <= MAX_FFT_SIZE,
    ensures
        valid_length(pow2(width)),
{
    vstd::arithmetic::power2::lemma_pow2_pos(width);
    assert(power_of_two(pow2(width)));
}

/// Powers of two, characterised without exponents: `1` is one, `0` and every
/// odd number above `1` are not, and `2n` is one exactly when `n` is; every
/// `2^k` is one.
pub proof fn law_power_of_two(n: nat, k: nat)
    ensures
        power_of_two(1),
        !power_of_two(0),
        n % 2 == 1 && n > 1 ==> !power_of_two(n),
        n > 0 ==> (power_of_two(2 * n) <==> power_of_two(n)),
        power_of_two(pow2(k)),
{
    lemma_power_of_two_agrees(0);
    lemma_power_of_two_agrees(1);
    lemma_power_of_two_agrees(n);
    lemma_power_of_two_agrees(2 * n);
    reveal(is_pow2);
    assert(is_pow2(1));
    assert(!is_pow2(0));
    if n > 0 {
        assert(is_pow2((2 * n) as int) == is_pow2(n as int)) by {
            assert((2 * n) as int / 2 == n as int);
        }
    }
    assert(pow2(k) == pow2(k));
}

/// The value of a sequence of decimal digits, most significant first.
pub open spec fn decimal_value(s: Seq<char>) -> nat
    decreases s.len(),
{
    if s.len() == 0 {
        0
    } else {
        decimal_value(s.drop_last()) * 10 + ((s.last() as int - 48) as nat)
    }
}

/// The decimal text of `n` is made of digits, has no superfluous leading
/// zero, and reads back as `n`.
pub proof fn law_decimal(n: nat)
    ensures
        decimal(n).len() >= 1,
        forall|i: int| 0 <= i < decimal(n).len() ==> '0' <= #[trigger] decimal(n)[i] <= '9',
        n > 0 ==> decimal(n)[0] != '0',
        decimal_value(decimal(n)) == n,
    decreases n,
{
    if n >= 10 {
        law_decimal(n / 10);
        let d = decimal(n / 10);
        assert(decimal(n) == d.push(digit_char(n % 10)));
        assert(decimal(n).drop_last() =~= d);
        assert(decimal(n)[0] == d[0]);
        assert((digit_char(n % 10) as int) == 48 + n % 10);
        assert(decimal_value(decimal(n)) == decimal_value(decimal(n).drop_last()) * 10 + ((decimal(n).last() as int - 48) as nat));
        assert(decimal_value(decimal(n)) == decimal_value(d) * 10 + n % 10);
        assert forall|i: int| 0 <= i < decimal(n).len() implies '0' <= #[trigger] decimal(n)[i] <= '9' by {
            if i < d.len() {
                assert(decimal(n)[i] == d[i]);
            }
        }
    } else {
        assert(decimal(n).drop_last() =~= Seq::<char>::empty());
        assert((digit_char(n) as int) == 48 + n);
        assert(decimal_value(Seq::<char>::empty()) == 0);
        assert(decimal_value(decimal(n)) == decimal_value(decimal(n).drop_last()) * 10 + ((decimal(n).last() as int - 48) as nat));
    }
}

/// What validation answers, case by case: zero is `ZeroLength`; a length
/// above `MAX_FFT_SIZE` is `TooLarge` with that length; a length from 1 to
/// `MAX_FFT_SIZE` is accepted exactly when it is a power of two and is
/// otherwise `NotPowerOfTwo` with that length. No other error is given.
pub proof fn law_length_check(len: nat)
    requires
        len <= usize::MAX,
    ensures
        (length_check(len) == Err::<(), FftError>(FftError::ZeroLength)) <==> len == 0,
        (length_check(len) == Err::<(), FftError>(FftError::TooLarge(len as usize))) <==> len > MAX_FFT_SIZE,
        (length_check(len) == Err::<(), FftError>(FftError::NotPowerOfTwo(len as usize))) <==> (0 < len
            <= MAX_FFT_SIZE && !power_of_two(len)),
        (length_check(len) is Ok) <==> (0 < len <= MAX_FFT_SIZE && power_of_two(len)),
        length_check(len) is Ok || length_check(len) == Err::<(), FftError>(FftError::ZeroLength)
            || length_check(len) == Err::<(), FftError>(FftError::TooLarge(len as usize))
            || length_check(len) == Err::<(), FftError>(FftError::NotPowerOfTwo(len as usize)),
{
}

/// Checks whether `n` is a power of two.
pub fn is_power_of_two(n: usize) -> (r: bool)
    ensures
        r == power_of_two(n as nat),
{
    proof {
        lemma_power_of_two_agrees(n as nat);
        reveal(is_pow2);
    }
    if n == 0 {
        return false;
    }
    let mut m: usize = n;
    while m % 2 == 0
        invariant
            m > 0,
            is_pow2(m as int) == is_pow2(n as int),
        decreases m,
    {
        proof {
            reveal(is_pow2);
        }
        m = m / 2;
    }
    proof {
        reveal(is_pow2);
    }
    m == 1
}

/// Checks that `len` is a legal transform size: positive, at most
/// `MAX_FFT_SIZE`, and a power of two (checked in that order).
pub fn validate_length(len: usize) -> (r: FftResult<()>)
    ensures
        r == length_check(len as nat),
        r is Ok <==> (0 < len <= MAX_FFT_SIZE && power_of_two(len as nat)),
        r == Err::<(), FftError>(FftError::ZeroLength) <==> len == 0,
        r == Err::<(), FftError>(FftError::TooLarge(len)) <==> len > MAX_FFT_SIZE,
        r == Err::<(), FftError>(FftError::NotPowerOfTwo(len)) <==> (0 < len <= MAX_FFT_SIZE
            && !power_of_two(len as nat)),
{
    if len == 0 {
        return Err(FftError::ZeroLength);
    }
    if len > MAX_FFT_SIZE {
        return Err(FftError::TooLarge(len));
    }
    if !is_power_of_two(len) {
        return Err(FftError::NotPowerOfTwo(len));
    }
    Ok(())
}

/// The character of a decimal digit.
pub open spec fn digit_char(d: nat) -> char {
    (48 + d) as char
}

/// The decimal representation of `n`, most significant digit first.
pub open spec fn decimal(n: nat) -> Seq<char>
    decreases n,
{
    if n < 10 {
        seq![digit_char(n)]
    } else {
        decimal(n / 10).push(digit_char(n % 10))
    }
}

/// The message that describes an error.
pub open spec fn error_message(e: FftError) -> Seq<char> {
    match e {
        FftError::ZeroLength => "FFT input length is zero; length must be a positive power of 2"@,
        FftError::NotPowerOfTwo(len) => "FFT input length "@ + decimal(len as nat)
            + " is not a power of 2; length must be a positive power of 2"@,
        FftError::TooLarge(len) => "FFT input length "@ + decimal(len as nat)
            + " exceeds maximum supported size 2^24 ("@ + decimal(MAX_FFT_SIZE as nat)
            + "); reduce input size"@,
    }
}

/// The one-character text of digit `d`.
fn digit_text(d: usize) -> (s: &'static str)
    requires
        d < 10,
    ensures
        s@ == seq![digit_char(d as nat)],
{
    proof {
        reveal_strlit("0");
        reveal_strlit("1");
        reveal_strlit("2");
        reveal_strlit("3");
        reveal_strlit("4");
        reveal_strlit("5");
        reveal_strlit("6");
        reveal_strlit("7");
        reveal_strlit("8");
        reveal_strlit("9");
    }
    let s = if d == 0 {
        "0"
    } else if d == 1 {
        "1"
    } else if d == 2 {
        "2"
    } else if d == 3 {
        "3"
    } else if d == 4 {
        "4"
    } else if d == 5 {
        "5"
    } else if d == 6 {
        "6"
    } else if d == 7 {
        "7"
    } else if d == 8 {
        "8"
    } else {
        "9"
    };
    proof {
        assert(s@ =~= seq![digit_char(d as nat)]);
    }
    s
}

/// Appends the decimal representation of `n` to `out`.
fn push_decimal(out: &mut String, n: usize)
    ensures
        final(out)@ == old(out)@ + decimal(n as nat),
    decreases n,
{
    if n >= 10 {
        push_decimal(out, n / 10);
    }
    out.append(digit_text(n % 10));
    proof {
        if n >= 10 {
            assert(final(out)@ =~= old(out)@ + decimal(n as nat));
        } else {
            assert(final(out)@ =~= old(out)@ + decimal(n as nat));
        }
    }
}

impl FftError {
    /// A human-readable description of the error.
    pub fn message(&self) -> (s: String)
        ensures
            s@ == error_message(*self),
    {
        match self {
            FftError::ZeroLength => String::from_str(
                "FFT input length is zero; length must be a positive power of 2",
            ),
            FftError::NotPowerOfTwo(len) => {
                let mut s = String::from_str("FFT input length ");
                push_decimal(&mut s, *len);
                s.append(" is not a power of 2; length must be a positive power of 2");
                proof {
                    assert(s@ =~= error_message(*self));
                }
                s
            },
            FftError::TooLarge(len) => {
                let mut s = String::from_str("FFT input length ");
                push_decimal(&mut s, *len);
                s.append(" exceeds maximum supported size 2^24 (");
                push_decimal(&mut s, MAX_FFT_SIZE);
                s.append("); reduce input size");
                proof {
                    assert(s@ =~= error_message(*self));
                }
                s
            },
        }
    }
}

} // verus!
