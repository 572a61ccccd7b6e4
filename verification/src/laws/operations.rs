//! What is said of arithmetic on samples where a law asks something of it.

use vstd::prelude::*;

use crate::arithmetic::{
    counts, differences, exact, magnitudes, positives, products, quotients, repeatable, sums,
    Arithmetic,
};

verus! {

/// The relations hold of exactly those results that the operations can return.
pub proof fn law_relations_are_calls<T, A: Arithmetic<T>>(n: usize, a: T, b: T, r: T, answer: bool)
    ensures
        counts::<T, A>(n, r) <==> call_ensures(A::count, (n,), r),
        sums::<T, A>(a, b, r) <==> call_ensures(A::plus, (a, b), r),
        differences::<T, A>(a, b, r) <==> call_ensures(A::minus, (a, b), r),
        products::<T, A>(a, b, r) <==> call_ensures(A::times, (a, b), r),
        quotients::<T, A>(a, b, r) <==> call_ensures(A::over, (a, b), r),
        magnitudes::<T, A>(a, r) <==> call_ensures(A::magnitude, (a,), r),
        positives::<T, A>(a, answer) <==> call_ensures(A::is_positive, (a,), answer),
{
}

/// Arithmetic is exact exactly if every operation returns what the same operation
/// on real numbers does. Nothing is asked of division by zero.
pub proof fn law_exact_arithmetic<T, A: Arithmetic<T>>(value: spec_fn(T) -> real)
    ensures
        exact::<T, A>(value) <==> {
            &&& forall|n: usize, r: T| #[trigger]
                call_ensures(A::count, (n,), r) ==> value(r) == n as real
            &&& forall|a: T, b: T, r: T| #[trigger]
                call_ensures(A::plus, (a, b), r) ==> value(r) == value(a) + value(b)
            &&& forall|a: T, b: T, r: T| #[trigger]
                call_ensures(A::minus, (a, b), r) ==> value(r) == value(a) - value(b)
            &&& forall|a: T, b: T, r: T| #[trigger]
                call_ensures(A::times, (a, b), r) ==> value(r) == value(a) * value(b)
            &&& forall|a: T, b: T, r: T| #[trigger]
                call_ensures(A::over, (a, b), r) && value(b) != 0 as real ==> value(r) == value(a)
                    / value(b)
            &&& forall|a: T, r: T| #[trigger]
                call_ensures(A::magnitude, (a,), r) ==> value(r) == if value(a) < 0 as real {
                    0 as real - value(a)
                } else {
                    value(a)
                }
            &&& forall|a: T, r: bool| #[trigger]
                call_ensures(A::is_positive, (a,), r) ==> (r <==> value(a) > 0 as real)
        },
{
    let primitive = {
        &&& forall|n: usize, r: T| #[trigger]
            call_ensures(A::count, (n,), r) ==> value(r) == n as real
        &&& forall|a: T, b: T, r: T| #[trigger]
            call_ensures(A::plus, (a, b), r) ==> value(r) == value(a) + value(b)
        &&& forall|a: T, b: T, r: T| #[trigger]
            call_ensures(A::minus, (a, b), r) ==> value(r) == value(a) - value(b)
        &&& forall|a: T, b: T, r: T| #[trigger]
            call_ensures(A::times, (a, b), r) ==> value(r) == value(a) * value(b)
        &&& forall|a: T, b: T, r: T| #[trigger]
            call_ensures(A::over, (a, b), r) && value(b) != 0 as real ==> value(r) == value(a)
                / value(b)
        &&& forall|a: T, r: T| #[trigger]
            call_ensures(A::magnitude, (a,), r) ==> value(r) == if value(a) < 0 as real {
                0 as real - value(a)
            } else {
                value(a)
            }
        &&& forall|a: T, r: bool| #[trigger]
            call_ensures(A::is_positive, (a,), r) ==> (r <==> value(a) > 0 as real)
    };
    if exact::<T, A>(value) {
        assert forall|n: usize, r: T| #[trigger] call_ensures(A::count, (n,), r) implies value(r)
            == n as real by {
            assert(counts::<T, A>(n, r));
        }
        assert forall|a: T, b: T, r: T| #[trigger] call_ensures(A::plus, (a, b), r) implies value(
            r,
        ) == value(a) + value(b) by {
            assert(sums::<T, A>(a, b, r));
        }
        assert forall|a: T, b: T, r: T| #[trigger] call_ensures(A::minus, (a, b), r) implies value(
            r,
        ) == value(a) - value(b) by {
            assert(differences::<T, A>(a, b, r));
        }
        assert forall|a: T, b: T, r: T| #[trigger] call_ensures(A::times, (a, b), r) implies value(
            r,
        ) == value(a) * value(b) by {
            assert(products::<T, A>(a, b, r));
        }
        assert forall|a: T, b: T, r: T| #[trigger]
            call_ensures(A::over, (a, b), r) && value(b) != 0 as real implies value(r) == value(a)
            / value(b) by {
            assert(quotients::<T, A>(a, b, r));
        }
        assert forall|a: T, r: T| #[trigger] call_ensures(A::magnitude, (a,), r) implies value(r)
            == (if value(a) < 0 as real {
            0 as real - value(a)
        } else {
            value(a)
        }) by {
            assert(magnitudes::<T, A>(a, r));
        }
        assert forall|a: T, r: bool| #[trigger] call_ensures(A::is_positive, (a,), r) implies (r
            <==> value(a) > 0 as real) by {
            assert(positives::<T, A>(a, r));
        }
        assert(primitive);
    }
}

/// Arithmetic that gives the same result whenever it is asked the same is
/// repeatable.
pub proof fn law_repeatable_arithmetic<T, A: Arithmetic<T>>()
    requires
        forall|n: usize, r: T, s: T| #[trigger]
            call_ensures(A::count, (n,), r) && #[trigger] call_ensures(A::count, (n,), s) ==> r
                == s,
        forall|a: T, b: T, r: T, s: T| #[trigger]
            call_ensures(A::plus, (a, b), r) && #[trigger] call_ensures(A::plus, (a, b), s) ==> r
                == s,
        forall|a: T, b: T, r: T, s: T| #[trigger]
            call_ensures(A::minus, (a, b), r) && #[trigger] call_ensures(A::minus, (a, b), s)
                ==> r == s,
        forall|a: T, b: T, r: T, s: T| #[trigger]
            call_ensures(A::times, (a, b), r) && #[trigger] call_ensures(A::times, (a, b), s)
                ==> r == s,
        forall|a: T, b: T, r: T, s: T| #[trigger]
            call_ensures(A::over, (a, b), r) && #[trigger] call_ensures(A::over, (a, b), s) ==> r
                == s,
        forall|a: T, r: T, s: T| #[trigger]
            call_ensures(A::magnitude, (a,), r) && #[trigger] call_ensures(A::magnitude, (a,), s)
                ==> r == s,
        forall|a: T, r: bool, s: bool| #[trigger]
            call_ensures(A::is_positive, (a,), r) && #[trigger] call_ensures(
                A::is_positive,
                (a,),
                s,
            ) ==> r == s,
    ensures
        repeatable::<T, A>(),
{
}

} // verus!
