use vstd::prelude::*;

verus! {

/// The discrete error codes that an operation reports to the host.
#[derive(Clone, Copy, Debug, PartialEq, Eq, Structural)]
pub enum ProgramError {
    /// A required signer flag is absent.
    MissingSignature,
    /// Creation was attempted over a buffer that already holds data.
    AlreadyInitialized,
    /// The account data is structurally inconsistent, or lacks the sender's entry.
    InvalidAccountData,
    /// A transfer asks for more than the sender holds.
    InsufficientBalance,
    /// A transfer names the same account as source and destination.
    SameAccount,
    /// The account is not owned by the invoking program.
    IncorrectProgramId,
    /// Unknown opcode or truncated instruction payload.
    InvalidInstructionData,
    /// The destination buffer cannot hold the encoded record.
    BufferTooSmall,
    /// The source buffer does not hold a well-formed record.
    DecodeError,
}

} // verus!
