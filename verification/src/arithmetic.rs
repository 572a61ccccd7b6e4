//! Arithmetic on samples.

use vstd::prelude::*;

verus! {

/// The operations that the pipeline performs on samples of type `T`.
///
/// Nothing is promised of them. Where a contract depends on what an operation
/// returned, it says so with one of the relations below, each of which holds of
/// the results that the operation can have on the given operands.
pub trait Arithmetic<T> {
    /// The sample that stands for the whole number `n`.
    fn count(n: usize) -> T;

    fn plus(a: T, b: T) -> T;

    fn minus(a: T, b: T) -> T;

    fn times(a: T, b: T) -> T;

    fn over(a: T, b: T) -> T;

    /// The absolute value.
    fn magnitude(a: T) -> T;

    fn is_positive(a: T) -> bool;
}

/// `r` is a result of converting `n`.
pub open spec fn counts<T, A: Arithmetic<T>>(n: usize, r: T) -> bool {
    call_ensures(A::count, (n,), r)
}

/// `r` is a result of `a + b`.
pub open spec fn sums<T, A: Arithmetic<T>>(a: T, b: T, r: T) -> bool {
    call_ensures(A::plus, (a, b), r)
}

/// `r` is a result of `a - b`.
pub open spec fn differences<T, A: Arithmetic<T>>(a: T, b: T, r: T) -> bool {
    call_ensures(A::minus, (a, b), r)
}

/// `r` is a result of `a * b`.
pub open spec fn products<T, A: Arithmetic<T>>(a: T, b: T, r: T) -> bool {
    call_ensures(A::times, (a, b), r)
}

/// `r` is a result of `a / b`.
pub open spec fn quotients<T, A: Arithmetic<T>>(a: T, b: T, r: T) -> bool {
    call_ensures(A::over, (a, b), r)
}

/// `r` is a result of taking the absolute value of `a`.
pub open spec fn magnitudes<T, A: Arithmetic<T>>(a: T, r: T) -> bool {
    call_ensures(A::magnitude, (a,), r)
}

/// `r` is a result of asking whether `a` is above zero.
pub open spec fn positives<T, A: Arithmetic<T>>(a: T, r: bool) -> bool {
    call_ensures(A::is_positive, (a,), r)
}

/// The absolute value of a real number.
pub open spec fn real_abs(x: real) -> real {
    if x < 0 as real {
        0 as real - x
    } else {
        x
    }
}

/// The arithmetic is exact: every sample stands for the real number that
/// `value` gives, and every operation returns what the same operation on real
/// numbers does.
pub open spec fn exact<T, A: Arithmetic<T>>(value: spec_fn(T) -> real) -> bool {
    &&& forall|n: usize, r: T| #[trigger] counts::<T, A>(n, r) ==> value(r) == n as real
    &&& forall|a: T, b: T, r: T| #[trigger]
        sums::<T, A>(a, b, r) ==> value(r) == value(a) + value(b)
    &&& forall|a: T, b: T, r: T| #[trigger]
        differences::<T, A>(a, b, r) ==> value(r) == value(a) - value(b)
    &&& forall|a: T, b: T, r: T| #[trigger]
        products::<T, A>(a, b, r) ==> value(r) == value(a) * value(b)
    &&& forall|a: T, b: T, r: T| #[trigger]
        quotients::<T, A>(a, b, r) && value(b) != 0 as real ==> value(r) == value(a) / value(b)
    &&& forall|a: T, r: T| #[trigger] magnitudes::<T, A>(a, r) ==> value(r) == real_abs(value(a))
    &&& forall|a: T, r: bool| #[trigger]
        positives::<T, A>(a, r) ==> r == (value(a) > 0 as real)
}

/// The arithmetic is repeatable: every operation has at most one result on the
/// same operands.
pub open spec fn repeatable<T, A: Arithmetic<T>>() -> bool {
    &&& forall|n: usize, r: T, s: T| #[trigger]
        counts::<T, A>(n, r) && #[trigger] counts::<T, A>(n, s) ==> r == s
    &&& forall|a: T, b: T, r: T, s: T| #[trigger]
        sums::<T, A>(a, b, r) && #[trigger] sums::<T, A>(a, b, s) ==> r == s
    &&& forall|a: T, b: T, r: T, s: T| #[trigger]
        differences::<T, A>(a, b, r) && #[trigger] differences::<T, A>(a, b, s) ==> r == s
    &&& forall|a: T, b: T, r: T, s: T| #[trigger]
        products::<T, A>(a, b, r) && #[trigger] products::<T, A>(a, b, s) ==> r == s
    &&& forall|a: T, b: T, r: T, s: T| #[trigger]
        quotients::<T, A>(a, b, r) && #[trigger] quotients::<T, A>(a, b, s) ==> r == s
    &&& forall|a: T, r: T, s: T| #[trigger]
        magnitudes::<T, A>(a, r) && #[trigger] magnitudes::<T, A>(a, s) ==> r == s
    &&& forall|a: T, r: bool, s: bool| #[trigger]
        positives::<T, A>(a, r) && #[trigger] positives::<T, A>(a, s) ==> r == s
}

} // verus!
