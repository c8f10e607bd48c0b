//! The two traits through which the transforms handle sample values.
//!
//! The transforms never look inside a sample: they only combine samples with
//! the operations below. Each operation is a function of its arguments, named
//! by a spec function of the trait, so that the result of a whole transform
//! can be stated exactly in terms of these operations, whatever number type a
//! user plugs in.
//!
//! The spec functions have a placeholder body so that implementations written
//! outside Verus (such as floating-point complex numbers) need not mention
//! them; for a generic sample type Verus does not use that body, so every
//! proof of the library holds for any implementation whose operations are
//! deterministic. An implementation verified with Verus must override each of
//! them with the exact value of its operation: the placeholder is a constant
//! that no real operation could meet. The spec functions cannot be declared
//! without a body, because compiled Rust would then require every
//! implementation, including those written outside Verus, to provide them.

use vstd::prelude::*;
use vstd::pervasive::arbitrary;

verus! {

/// A complex number type that the transforms compute with.
///
/// Implementors promise that each operation is deterministic: its result is
/// the value of the matching spec function on its arguments. Floating-point
/// operations meet this except for the payload bits of NaN results, which
/// Rust does not fix.
pub trait ComplexSample: Clone + Copy + Send + Sync + Sized {
    /// The real scalar type used to normalise the inverse transform.
    type Scalar: Copy;

    /// Value of `zero()`.
    open spec fn spec_zero() -> Self {
        arbitrary()
    }

    /// Value of `a.add(b)`.
    open spec fn spec_add(self, rhs: Self) -> Self {
        arbitrary()
    }

    /// Value of `a.sub(b)`.
    open spec fn spec_sub(self, rhs: Self) -> Self {
        arbitrary()
    }

    /// Value of `a.mul(b)`.
    open spec fn spec_mul(self, rhs: Self) -> Self {
        arbitrary()
    }

    /// Value of `twiddle(n, k)`, standing for e^{-2πi·k/n}.
    open spec fn spec_twiddle(n: nat, k: nat) -> Self {
        arbitrary()
    }

    /// Value of `twiddle_inverse(n, k)`, standing for e^{+2πi·k/n}.
    open spec fn spec_twiddle_inverse(n: nat, k: nat) -> Self {
        arbitrary()
    }

    /// Value of `a.div_scalar(s)`.
    open spec fn spec_div_scalar(self, s: Self::Scalar) -> Self {
        arbitrary()
    }

    /// Value of `scalar_from_usize(n)`.
    open spec fn spec_scalar_from_usize(n: nat) -> Self::Scalar {
        arbitrary()
    }

    /// The additive identity.
    fn zero() -> (r: Self)
        ensures
            r == Self::spec_zero(),
    ;

    /// The multiplicative identity.
    fn one() -> Self;

    /// The forward twiddle factor e^{-2πi·k/n}.
    fn twiddle(n: usize, k: usize) -> (r: Self)
        ensures
            r == Self::spec_twiddle(n as nat, k as nat),
    ;

    /// The inverse twiddle factor e^{+2πi·k/n}.
    fn twiddle_inverse(n: usize, k: usize) -> (r: Self)
        ensures
            r == Self::spec_twiddle_inverse(n as nat, k as nat),
    ;

    /// Complex sum.
    fn add(self, rhs: Self) -> (r: Self)
        ensures
            r == self.spec_add(rhs),
    ;

    /// Complex difference.
    fn sub(self, rhs: Self) -> (r: Self)
        ensures
            r == self.spec_sub(rhs),
    ;

    /// Complex product.
    fn mul(self, rhs: Self) -> (r: Self)
        ensures
            r == self.spec_mul(rhs),
    ;

    /// Negation.
    fn neg(self) -> Self;

    /// Division of both parts by a real scalar.
    fn div_scalar(self, s: Self::Scalar) -> (r: Self)
        ensures
            r == self.spec_div_scalar(s),
    ;

    /// A length as a real scalar.
    fn scalar_from_usize(n: usize) -> (r: Self::Scalar)
        ensures
            r == Self::spec_scalar_from_usize(n as nat),
    ;
}

/// A real sample type that converts into the complex type `C`
/// (imaginary part zero).
pub trait IntoSample<C>: Copy + Clone + Sized {
    /// Value of `s.into_complex()`.
    open spec fn spec_into_complex(self) -> C {
        arbitrary()
    }

    /// Converts the sample into a complex number.
    fn into_complex(self) -> (c: C)
        ensures
            c == self.spec_into_complex(),
    ;
}

} // verus!
