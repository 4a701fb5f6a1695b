//! Complex numbers as plain pairs of components, generic over the scalar type.
use vstd::prelude::*;

verus! {

/// `x` is a value that `T::default()` may return: zero for the numeric types.
pub open spec fn is_default<T: Default>(x: T) -> bool {
    call_ensures(T::default, (), x)
}

/// A complex number `real + imaginary * i`.
#[derive(Debug, Clone, Copy)]
pub struct Complex<T> {
    pub real: T,
    pub imaginary: T,
}

impl<T: Default> Complex<T> {
    /// The real number `re`, with a zero (default) imaginary part.
    pub fn from_real(re: T) -> (r: Self)
        ensures
            r.real == re,
            is_default(r.imaginary),
    {
        Complex { real: re, imaginary: T::default() }
    }
}

impl<T> Complex<T> {
    /// The complex number `re + im * i`.
    pub fn complex(re: T, im: T) -> (r: Self)
        ensures
            r.real == re,
            r.imaginary == im,
    {
        Complex { real: re, imaginary: im }
    }
}

} // verus!
