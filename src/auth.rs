use vstd::prelude::*;
use crate::error::ProgramError;
use crate::identity::Identity;

verus! {

/// Fails closed: an action that needs a signature goes ahead only when the
/// designated account's signer flag is set.
pub fn require_signer(is_signer: bool) -> (r: Result<(), ProgramError>)
    ensures
        is_signer ==> r is Ok,
        !is_signer ==> r == Err::<(), ProgramError>(ProgramError::MissingSignature),
{
    if is_signer {
        Ok(())
    } else {
        Err(ProgramError::MissingSignature)
    }
}

/// An account's declared owner must be the expected identity.
pub fn require_owner_match(expected: &Identity, actual: &Identity) -> (r: Result<(), ProgramError>)
    ensures
        expected@ == actual@ ==> r is Ok,
        expected@ != actual@ ==> r == Err::<(), ProgramError>(ProgramError::IncorrectProgramId),
{
    if expected.same_as(actual) {
        Ok(())
    } else {
        Err(ProgramError::IncorrectProgramId)
    }
}

} // verus!
