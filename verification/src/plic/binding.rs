//! Making the controller known, step by step.

use vstd::prelude::*;
use crate::platform::PnpError;

verus! {

/// What is to be done next for a controller whose registers are known.
#[derive(Clone, Copy, PartialEq, Eq, Debug)]
pub enum PlicStep {
    /// Switch every source off.
    Initialize,
    /// Make room for what the device will own.
    Reserve,
    /// Serve the controller from the line of the CPU.
    RegisterCascade,
    OwnCascade,
    WithdrawCascade(PnpError),
    /// Offer the sources to other devices.
    RegisterDomain,
    OwnDomain,
    WithdrawDomain(PnpError),
    Finished(Result<(), PnpError>),
}

/// The step after a step, which may have been refused. What the device cannot own is
/// withdrawn again.
pub open spec fn bound(step: PlicStep, refused: Option<PnpError>) -> PlicStep {
    match (step, refused) {
        (PlicStep::Initialize, _) => PlicStep::Reserve,
        (PlicStep::Reserve, None) => PlicStep::RegisterCascade,
        (PlicStep::Reserve, Some(error)) => PlicStep::Finished(Err(error)),
        (PlicStep::RegisterCascade, None) => PlicStep::OwnCascade,
        (PlicStep::RegisterCascade, Some(_)) => PlicStep::Finished(Err(PnpError::InvalidState)),
        (PlicStep::OwnCascade, None) => PlicStep::RegisterDomain,
        (PlicStep::OwnCascade, Some(error)) => PlicStep::WithdrawCascade(error),
        (PlicStep::WithdrawCascade(error), _) => PlicStep::Finished(Err(error)),
        (PlicStep::RegisterDomain, None) => PlicStep::OwnDomain,
        (PlicStep::RegisterDomain, Some(_)) => PlicStep::Finished(Err(PnpError::InvalidState)),
        (PlicStep::OwnDomain, None) => PlicStep::Finished(Ok(())),
        (PlicStep::OwnDomain, Some(error)) => PlicStep::WithdrawDomain(error),
        (PlicStep::WithdrawDomain(error), _) => PlicStep::Finished(Err(error)),
        (PlicStep::Finished(result), _) => PlicStep::Finished(result),
    }
}

pub fn advance_binding(step: PlicStep, refused: Option<PnpError>) -> (next: PlicStep)
    ensures
        next == bound(step, refused),
{
    match (step, refused) {
        (PlicStep::Initialize, _) => PlicStep::Reserve,
        (PlicStep::Reserve, None) => PlicStep::RegisterCascade,
        (PlicStep::Reserve, Some(error)) => PlicStep::Finished(Err(error)),
        (PlicStep::RegisterCascade, None) => PlicStep::OwnCascade,
        (PlicStep::RegisterCascade, Some(_)) => PlicStep::Finished(Err(PnpError::InvalidState)),
        (PlicStep::OwnCascade, None) => PlicStep::RegisterDomain,
        (PlicStep::OwnCascade, Some(error)) => PlicStep::WithdrawCascade(error),
        (PlicStep::WithdrawCascade(error), _) => PlicStep::Finished(Err(error)),
        (PlicStep::RegisterDomain, None) => PlicStep::OwnDomain,
        (PlicStep::RegisterDomain, Some(_)) => PlicStep::Finished(Err(PnpError::InvalidState)),
        (PlicStep::OwnDomain, None) => PlicStep::Finished(Ok(())),
        (PlicStep::OwnDomain, Some(error)) => PlicStep::WithdrawDomain(error),
        (PlicStep::WithdrawDomain(error), _) => PlicStep::Finished(Err(error)),
        (PlicStep::Finished(result), _) => PlicStep::Finished(result),
    }
}

/// The sources are offered only by a controller that is initialized, has room for
/// what the device will own, and is served: no step leads there but the one that
/// hands the cascade over to the device, and none leads to that one but its
/// registration. A controller is bound only once the device owns both.
pub proof fn sources_are_offered_last(step: PlicStep, refused: Option<PnpError>)
    ensures
        bound(step, refused) == PlicStep::RegisterDomain ==> step == PlicStep::OwnCascade
            && refused is None,
        bound(step, refused) == PlicStep::OwnCascade ==> step == PlicStep::RegisterCascade
            && refused is None,
        bound(step, refused) == PlicStep::RegisterCascade ==> step == PlicStep::Reserve
            && refused is None,
        bound(step, refused) == PlicStep::Reserve ==> step == PlicStep::Initialize,
        !(step is Finished) && bound(step, refused) == PlicStep::Finished(Ok(())) ==> step
            == PlicStep::OwnDomain && refused is None,
{
}

/// What a device could not come to own is not left behind.
pub proof fn unowned_is_withdrawn(step: PlicStep, error: PnpError)
    ensures
        step == PlicStep::OwnCascade ==> bound(step, Some(error)) == PlicStep::WithdrawCascade(
            error,
        ),
        step == PlicStep::OwnDomain ==> bound(step, Some(error)) == PlicStep::WithdrawDomain(error),
{
}

} // verus!
