//! Which version of a time-dependent model matrix a Kalman prediction step uses.
use vstd::prelude::*;

verus! {

/// Where a model matrix of a prediction step (the process-noise covariance, the control
/// matrix) comes from.
#[derive(Clone, Copy, Debug, PartialEq, Eq, Structural)]
pub enum MatrixSource {
    /// The filter has no such matrix.
    Absent,
    /// The matrix supplied with the input replaces the configured one.
    FromInput,
    /// The configured matrix with its time-dependent entries evaluated at the input's time
    /// step.
    ScaledByTimeStep,
    /// The configured matrix as it stands.
    Configured,
}

/// Chooses a model matrix for a prediction step: none if the filter has none configured;
/// otherwise the one supplied with the input, if any; otherwise the configured one, evaluated
/// at the input's time step if the input has one.
pub fn matrix_source(configured: bool, supplied_with_input: bool, has_time_step: bool) -> (src:
    MatrixSource)
    ensures
        src == (if !configured {
            MatrixSource::Absent
        } else if supplied_with_input {
            MatrixSource::FromInput
        } else if has_time_step {
            MatrixSource::ScaledByTimeStep
        } else {
            MatrixSource::Configured
        }),
{
    if configured {
        if supplied_with_input {
            MatrixSource::FromInput
        } else if has_time_step {
            MatrixSource::ScaledByTimeStep
        } else {
            MatrixSource::Configured
        }
    } else {
        MatrixSource::Absent
    }
}

} // verus!
