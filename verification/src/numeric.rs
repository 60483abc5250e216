use core::ops::{Add, Div, Mul, Sub};
use vstd::prelude::*;

verus! {

/// The sample type of the whole library: a copyable value with the four arithmetic
/// operators and an order. Nothing is assumed about what the operators compute; every
/// contract speaks of their results through the relations below.
pub trait Scalar: Copy + PartialOrd + Add<Output = Self> + Sub<Output = Self> + Mul<
    Output = Self,
> + Div<Output = Self> {

}

impl<T> Scalar for T where
    T: Copy + PartialOrd + Add<Output = T> + Sub<Output = T> + Mul<Output = T> + Div<Output = T>,
 {

}

/// `out` is a value that `a + b` may evaluate to.
pub open spec fn is_sum<T: Scalar>(a: T, b: T, out: T) -> bool {
    call_ensures(<T as Add>::add, (a, b), out)
}

/// `out` is a value that `a - b` may evaluate to.
pub open spec fn is_difference<T: Scalar>(a: T, b: T, out: T) -> bool {
    call_ensures(<T as Sub>::sub, (a, b), out)
}

/// `out` is a value that `a * b` may evaluate to.
pub open spec fn is_product<T: Scalar>(a: T, b: T, out: T) -> bool {
    call_ensures(<T as Mul>::mul, (a, b), out)
}

/// `out` is a value that `a / b` may evaluate to.
pub open spec fn is_quotient<T: Scalar>(a: T, b: T, out: T) -> bool {
    call_ensures(<T as Div>::div, (a, b), out)
}

/// `verdict` is an answer that `a > b` may evaluate to.
pub open spec fn is_greater<T: Scalar>(a: T, b: T, verdict: bool) -> bool {
    call_ensures(<T as PartialOrd>::gt, (&a, &b), verdict)
}

/// `verdict` is an answer that `a < b` may evaluate to.
pub open spec fn is_less<T: Scalar>(a: T, b: T, verdict: bool) -> bool {
    call_ensures(<T as PartialOrd>::lt, (&a, &b), verdict)
}

/// Every sum, difference, product and quotient of two values of `T` may be formed.
pub open spec fn arithmetic_is_total<T: Scalar>() -> bool {
    &&& forall|a: T, b: T| call_requires(<T as Add>::add, (a, b))
    &&& forall|a: T, b: T| call_requires(<T as Sub>::sub, (a, b))
    &&& forall|a: T, b: T| call_requires(<T as Mul>::mul, (a, b))
    &&& forall|a: T, b: T| call_requires(<T as Div>::div, (a, b))
}

/// Every operation on values of `T` has one outcome only: the same operands always give
/// the same result.
pub open spec fn arithmetic_is_deterministic<T: Scalar>() -> bool {
    &&& forall|a: T, b: T, x: T, y: T| #[trigger] is_sum(a, b, x) && #[trigger] is_sum(a, b, y) ==> x == y
    &&& forall|a: T, b: T, x: T, y: T|
        #[trigger] is_difference(a, b, x) && #[trigger] is_difference(a, b, y) ==> x == y
    &&& forall|a: T, b: T, x: T, y: T| #[trigger] is_product(a, b, x) && #[trigger] is_product(a, b, y) ==> x == y
    &&& forall|a: T, b: T, x: T, y: T|
        #[trigger] is_quotient(a, b, x) && #[trigger] is_quotient(a, b, y) ==> x == y
    &&& forall|a: T, b: T, x: bool, y: bool|
        #[trigger] is_greater(a, b, x) && #[trigger] is_greater(a, b, y) ==> x == y
    &&& forall|a: T, b: T, x: bool, y: bool| #[trigger] is_less(a, b, x) && #[trigger] is_less(a, b, y) ==> x == y
}

/// `out` is a value of `start * (one - t) + end * t`.
pub open spec fn is_lerp<T: Scalar>(start: T, end: T, t: T, one: T, out: T) -> bool {
    exists|rest: T, near: T, far: T|
        {
            &&& is_difference(one, t, rest)
            &&& #[trigger] is_product(start, rest, near)
            &&& #[trigger] is_product(end, t, far)
            &&& is_sum(near, far, out)
        }
}

/// Linear interpolation between `start` (at `t` = 0) and `end` (at `t` = 1).
pub fn lerp<T: Scalar>(start: T, end: T, t: T, one: T) -> (out: T)
    requires
        arithmetic_is_total::<T>(),
    ensures
        is_lerp(start, end, t, one, out),
{
    let rest = one - t;
    let near = start * rest;
    let far = end * t;
    let out = near + far;
    assert(is_product(start, rest, near) && is_product(end, t, far));
    out
}

} // verus!
