//! Numbers that geometry is computed in.
//!
//! Layout, clipping and painting add, subtract, multiply, divide and compare,
//! and do nothing else with a coordinate. They are written for any type with
//! those operators, and a frame is stated as the expression that computes it,
//! operation by operation: the platform runs them on the machine's floats.

use core::ops::{Add, Div, Mul, Sub};

use vstd::prelude::*;
use vstd::std_specs::cmp::{PartialEqIs, PartialEqSpec, PartialOrdIs, PartialOrdSpec};
use vstd::std_specs::convert::FromSpec;
use vstd::std_specs::ops::{AddSpec, DivSpec, MulSpec, SubSpec};

verus! {

/// A type coordinates can be.
pub trait Scalar: Copy + Add<Output = Self> + Sub<Output = Self> + Mul<Output = Self> + Div<
    Output = Self,
> + PartialOrd + From<u16> {

}

impl<T> Scalar for T where
    T: Copy + Add<Output = T> + Sub<Output = T> + Mul<Output = T> + Div<Output = T> + PartialOrd
        + From<u16>,
 {

}

/// Whether whole numbers convert to `T` in one way.
pub open spec fn converts<T: Scalar>() -> bool {
    <T as FromSpec<u16>>::obeys_from_spec()
}

/// Whether the operators of `T` are functions, defined on all its values.
pub open spec fn exact<T: Scalar>() -> bool {
    &&& T::obeys_add_spec()
    &&& forall|a: T, b: T| #[trigger] a.add_req(b)
    &&& T::obeys_sub_spec()
    &&& forall|a: T, b: T| #[trigger] a.sub_req(b)
    &&& T::obeys_mul_spec()
    &&& forall|a: T, b: T| #[trigger] a.mul_req(b)
    &&& T::obeys_div_spec()
    &&& forall|a: T, b: T| #[trigger] a.div_req(b)
    &&& T::obeys_eq_spec()
    &&& T::obeys_partial_cmp_spec()
    &&& converts::<T>()
}

/// `a + b`.
pub open spec fn plus<T: Scalar>(a: T, b: T) -> T {
    a.add_spec(b)
}

/// `a - b`.
pub open spec fn minus<T: Scalar>(a: T, b: T) -> T {
    a.sub_spec(b)
}

/// `a * b`.
pub open spec fn times<T: Scalar>(a: T, b: T) -> T {
    a.mul_spec(b)
}

/// `a / b`.
pub open spec fn over<T: Scalar>(a: T, b: T) -> T {
    a.div_spec(b)
}

/// `a < b`.
pub open spec fn below<T: Scalar>(a: T, b: T) -> bool {
    a.is_lt(&b)
}

/// `a > b`.
pub open spec fn above<T: Scalar>(a: T, b: T) -> bool {
    a.is_gt(&b)
}

/// `a >= b`.
pub open spec fn reaches<T: Scalar>(a: T, b: T) -> bool {
    a.is_ge(&b)
}

/// The whole number `n`.
pub open spec fn whole<T: Scalar>(n: u16) -> T {
    <T as FromSpec<u16>>::from_spec(n)
}

/// The quotient of two whole numbers.
pub open spec fn ratio<T: Scalar>(n: u16, d: u16) -> T {
    over(whole::<T>(n), whole::<T>(d))
}

/// The larger of two, or the one that is a number where one is not.
pub open spec fn larger_of<T: Scalar>(a: T, b: T) -> T {
    if below(a, b) || a.is_ne(&a) {
        b
    } else {
        a
    }
}

/// The smaller of two, or the one that is a number where one is not.
pub open spec fn smaller_of<T: Scalar>(a: T, b: T) -> T {
    if below(b, a) || a.is_ne(&a) {
        b
    } else {
        a
    }
}

/// `a` brought up to `low` and then down to `high`.
pub open spec fn clamped<T: Scalar>(a: T, low: T, high: T) -> T {
    let raised = if below(a, low) {
        low
    } else {
        a
    };
    if above(raised, high) {
        high
    } else {
        raised
    }
}

/// Half of `n`, odd where anything was left over: what is lost still says that
/// `n` was more.
pub open spec fn halved(n: nat) -> nat {
    if n / 2 % 2 == 0 {
        n / 2 + n % 2
    } else {
        n / 2
    }
}

/// The whole number `n`. Below 2^31 the high and the low half are both exact, so
/// it is rounded once. A larger one is twice its half, which is rounded as the
/// whole would be.
pub open spec fn count_of<T: Scalar>(n: nat) -> T
    decreases n,
{
    if n < 0x8000_0000 {
        plus(
            times(whole::<T>((n / 0x8000) as u16), whole::<T>(0x8000)),
            whole::<T>((n % 0x8000) as u16),
        )
    } else {
        times(count_of::<T>(halved(n)), whole::<T>(2))
    }
}

/// The whole number `n`.
pub fn from_whole<T: Scalar>(n: u16) -> (r: T)
    requires
        exact::<T>(),
    ensures
        r == whole::<T>(n),
{
    T::from(n)
}

/// The quotient of two whole numbers.
pub fn from_ratio<T: Scalar>(n: u16, d: u16) -> (r: T)
    requires
        exact::<T>(),
    ensures
        r == ratio::<T>(n, d),
{
    T::from(n) / T::from(d)
}

/// The whole number `n`.
pub fn from_count<T: Scalar>(n: usize) -> (r: T)
    requires
        exact::<T>(),
    ensures
        r == count_of::<T>(n as nat),
    decreases n,
{
    if n < 0x8000_0000 {
        T::from((n / 0x8000) as u16) * T::from(0x8000) + T::from((n % 0x8000) as u16)
    } else if n / 2 % 2 == 0 {
        from_count::<T>(n / 2 + n % 2) * T::from(2)
    } else {
        from_count::<T>(n / 2) * T::from(2)
    }
}

/// The larger of two, or the one that is a number where one is not.
pub fn larger<T: Scalar>(a: T, b: T) -> (r: T)
    requires
        exact::<T>(),
    ensures
        r == larger_of(a, b),
{
    if a < b || a != a {
        b
    } else {
        a
    }
}

/// The smaller of two, or the one that is a number where one is not.
pub fn smaller<T: Scalar>(a: T, b: T) -> (r: T)
    requires
        exact::<T>(),
    ensures
        r == smaller_of(a, b),
{
    if b < a || a != a {
        b
    } else {
        a
    }
}

/// `a` brought up to `low` and then down to `high`.
pub fn clamp<T: Scalar>(a: T, low: T, high: T) -> (r: T)
    requires
        exact::<T>(),
    ensures
        r == clamped(a, low, high),
{
    let raised = if a < low {
        low
    } else {
        a
    };
    if raised > high {
        high
    } else {
        raised
    }
}

} // verus!
