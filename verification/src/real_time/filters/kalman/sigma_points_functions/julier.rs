//! Julier's sigma-point scheme for unscented Kalman filtering: its scaling parameter and
//! the weights of its sigma points.
use crate::sample::{add_total, div_total, mul_total, repeated};
use core::ops::{Add, Div, Mul};
use vstd::prelude::*;
use vstd::std_specs::ops::{AddSpec, DivSpec, MulSpec};

verus! {

/// Julier's sigma-point scheme for UKF additive noise models: `STATE_DIM` is the dimension
/// of the state, and generally `N_OUT == 2 * STATE_DIM + 1` points are generated.
/// `kappa` is the scaling parameter that spreads the points around the mean.
pub struct Julier<T, const STATE_DIM: usize, const N_OUT: usize> {
    pub kappa: T,
}

/// Julier's weights for `n_out` sigma points in a state of dimension `dimension`: the mean
/// point has weight `kappa / (dimension + kappa)`, every other point
/// `one / (two * (dimension + kappa))`.
pub open spec fn julier_weights<T: Add<Output = T> + Mul<Output = T> + Div<Output = T>>(
    kappa: T,
    dimension: T,
    one: T,
    two: T,
    n_out: nat,
) -> Seq<T> {
    seq![kappa.div_spec(dimension.add_spec(kappa))] + repeated(
        one.div_spec(two.mul_spec(dimension.add_spec(kappa))),
        (n_out - 1) as nat,
    )
}

impl<T, const STATE_DIM: usize, const N_OUT: usize> Julier<T, STATE_DIM, N_OUT> {
    /// Julier's scheme with scaling parameter `kappa`.
    pub fn new(kappa: T) -> (julier: Julier<T, STATE_DIM, N_OUT>)
        ensures
            julier.kappa == kappa,
    {
        Julier { kappa: kappa }
    }

    /// The weights of the `N_OUT` sigma points, used both for the mean and for the
    /// covariance; `dimension`, `one` and `two` are `STATE_DIM`, 1 and 2 as sample values.
    pub fn weights(&self, dimension: T, one: T, two: T) -> (w: Vec<T>)
        where T: Copy + Add<Output = T> + Mul<Output = T> + Div<Output = T>
        requires
            N_OUT > 0,
            add_total::<T>(),
            mul_total::<T>(),
            div_total::<T>(),
        ensures
            w@.len() == N_OUT,
            T::obeys_add_spec() && T::obeys_mul_spec() && T::obeys_div_spec() ==> w@ == julier_weights(
                self.kappa,
                dimension,
                one,
                two,
                N_OUT as nat,
            ),
            T::obeys_add_spec() && T::obeys_div_spec() ==> w@[0] == self.kappa.div_spec(
                dimension.add_spec(self.kappa),
            ),
            T::obeys_add_spec() && T::obeys_mul_spec() && T::obeys_div_spec() ==> forall|i: int|
                1 <= i < N_OUT ==> #[trigger] w@[i] == one.div_spec(
                    two.mul_spec(dimension.add_spec(self.kappa)),
                ),
    {
        let spread = dimension + self.kappa;
        let other = one / (two * spread);
        let first = self.kappa / spread;
        let mut w: Vec<T> = Vec::new();
        w.push(first);
        let mut i: usize = 1;
        while i < N_OUT
            invariant
                1 <= i <= N_OUT,
                w@.len() == i,
                w@[0] == first,
                forall|t: int| 1 <= t < i ==> #[trigger] w@[t] == other,
            decreases N_OUT - i,
        {
            w.push(other);
            i = i + 1;
        }
        proof {
            if T::obeys_add_spec() && T::obeys_mul_spec() && T::obeys_div_spec() {
                assert(w@ =~= julier_weights(self.kappa, dimension, one, two, N_OUT as nat));
            }
        }
        w
    }
}

/// Julier's weights: the mean point (point 0) has weight `kappa / (dimension + kappa)`, and
/// each of the other `n_out - 1` points has weight `1 / (2 (dimension + kappa))`, so that for
/// `n_out == 2 dimension + 1` they add up to one.
pub proof fn lemma_julier_weight_values<T: Add<Output = T> + Mul<Output = T> + Div<Output = T>>(
    kappa: T,
    dimension: T,
    one: T,
    two: T,
    n_out: nat,
)
    requires
        n_out > 0,
    ensures
        julier_weights(kappa, dimension, one, two, n_out).len() == n_out,
        julier_weights(kappa, dimension, one, two, n_out)[0] == kappa.div_spec(dimension.add_spec(kappa)),
        forall|i: int|
            1 <= i < n_out ==> #[trigger] julier_weights(kappa, dimension, one, two, n_out)[i]
                == one.div_spec(two.mul_spec(dimension.add_spec(kappa))),
{
}

} // verus!
