use vstd::prelude::*;

verus! {

/// Errors raised on invalid caller-supplied inputs.
///
/// Exhaustion of the configuration space is not an error: the sampler
/// reports it through its result, so the outer loop can stop cleanly.
#[derive(Clone, Copy, Debug, PartialEq, Eq, Structural)]
pub enum ParamError {
    /// A domain was requested with `step == 0`.
    ZeroStep,
    /// A domain was requested with `upper < lower`.
    BoundsReversed,
    /// A parameter name was registered twice.
    DuplicateParameter,
    /// A parameter name was looked up that was never registered.
    UnknownParameter,
}

} // verus!
