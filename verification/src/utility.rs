use vstd::prelude::*;

verus! {

/// Number of decimal places to which signal samples are compared when two signals are
/// checked for approximate equality, unless a user has configured another number.
pub const DEFAULT_EQUALITY_ACCURACY: usize = 2;

/// The number of decimal places used when comparing signals for rough equality: the number
/// the process has been configured with, if any, and the default otherwise.
pub fn equality_accuracy(configured: Option<usize>) -> (places: usize)
    ensures
        places == match configured {
            Some(p) => p,
            None => DEFAULT_EQUALITY_ACCURACY,
        },
{
    match configured {
        Some(p) => p,
        None => DEFAULT_EQUALITY_ACCURACY,
    }
}

} // verus!
