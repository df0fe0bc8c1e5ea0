//! Real-time (sample-by-sample) signal processing.
use vstd::prelude::*;

verus! {

/// A processor that is fed one input at a time, in a callback setting in which samples are
/// pulled individually, and answers each with one output.
/// `I` is the input type (a sample for an audio filter, a measurement for a Kalman filter),
/// `T` the output type.
pub trait RealTimeSignalProcessor<I, T> {
    /// Whether the processor, in its current state, can take `inp` as its next input.
    open spec fn accepts(&self, inp: I) -> bool {
        true
    }

    /// Takes the next input and returns the corresponding output.
    fn process_sample(&mut self, inp: I) -> T
        requires
            old(self).accepts(inp),
    ;
}

} // verus!
