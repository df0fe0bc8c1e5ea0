//! What the library assumes of a sample type: its arithmetic is the one that `+`, `-`, `*`
//! and `/` perform, described by the specifications vstd attaches to those operators.
use core::ops::{Add, Div, Mul, Sub};
use vstd::prelude::*;
use vstd::std_specs::ops::{AddSpec, DivSpec, MulSpec, SubSpec};

verus! {

/// Adding two samples is defined for every pair of samples (as for floating-point values).
pub open spec fn add_total<T: Add<Output = T>>() -> bool {
    forall|a: T, b: T| #[trigger] a.add_req(b)
}

/// Subtracting two samples is defined for every pair of samples.
pub open spec fn sub_total<T: Sub<Output = T>>() -> bool {
    forall|a: T, b: T| #[trigger] a.sub_req(b)
}

/// Multiplying two samples is defined for every pair of samples.
pub open spec fn mul_total<T: Mul<Output = T>>() -> bool {
    forall|a: T, b: T| #[trigger] a.mul_req(b)
}

/// Dividing two samples is defined for every pair of samples (floating-point division
/// by zero gives an infinity or NaN rather than failing).
pub open spec fn div_total<T: Div<Output = T>>() -> bool {
    forall|a: T, b: T| #[trigger] a.div_req(b)
}

/// Dividing a sample by a value of type `D` (such as a complex sample by a real number) is
/// defined for every pair of values.
pub open spec fn div_by_total<T: Div<D, Output = T>, D>() -> bool {
    forall|a: T, b: D| #[trigger] a.div_req(b)
}

/// The left-to-right sum `((s[0] + s[1]) + s[2]) + ...` of a non-empty sequence, in the
/// order in which an iterator's `reduce` adds.
pub open spec fn fold_sum<T: Add<Output = T>>(s: Seq<T>) -> T
    decreases s.len(),
{
    if s.len() <= 1 {
        s[0]
    } else {
        fold_sum(s.drop_last()).add_spec(s.last())
    }
}

/// One more term of a left-to-right sum.
pub proof fn lemma_fold_sum_push<T: Add<Output = T>>(s: Seq<T>, n: int)
    requires
        1 <= n < s.len(),
    ensures
        fold_sum(s.take(n + 1)) == fold_sum(s.take(n)).add_spec(s[n]),
{
    assert(s.take(n + 1).drop_last() =~= s.take(n));
}

/// A sequence of `n` copies of `value`.
pub open spec fn repeated<T>(value: T, n: nat) -> Seq<T> {
    Seq::new(n, |i: int| value)
}

} // verus!
