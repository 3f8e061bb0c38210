use vstd::bytes::{spec_u64_from_le_bytes, u64_from_le_bytes};
use vstd::prelude::*;
use vstd::slice::slice_subrange;
use crate::auth::require_owner_match;
use crate::error::ProgramError;
use crate::identity::Identity;
use crate::score::{
    decoded_owner, decoded_score, decremented, encode_score, lemma_score_round_trip, PlayerScore,
    SCORE_RECORD_LEN,
};

verus! {

/// An account handle as the host hands it over.
#[derive(Debug)]
pub struct Account {
    pub key: Identity,
    pub owner: Identity,
    pub is_signer: bool,
    pub data: Vec<u8>,
}

/// An operation on a score record, as selected by an instruction's opcode.
#[derive(Clone, Copy, Debug, PartialEq, Eq, Structural)]
pub enum Instruction {
    /// Opcode `0`: lower the score by 500 when it is at least 500.
    Upgrade,
    /// Opcode `1`, then 8 little-endian bytes: overwrite the score.
    SetScore(u64),
}

/// The instruction that `input` encodes, if any.
pub open spec fn parse_instruction(input: Seq<u8>) -> Option<Instruction> {
    if input.len() >= 1 && input[0] == 0 {
        Some(Instruction::Upgrade)
    } else if input.len() >= 9 && input[0] == 1 {
        Some(Instruction::SetScore(spec_u64_from_le_bytes(input.subrange(1, 9))))
    } else {
        None
    }
}

/// The score that `ins` leaves behind when applied to `score`.
pub open spec fn applied_score(ins: Instruction, score: u64) -> u64 {
    match ins {
        Instruction::Upgrade => decremented(score),
        Instruction::SetScore(v) => v,
    }
}

impl Instruction {
    /// Decodes an instruction payload; an unknown opcode or a truncated
    /// payload is rejected.
    pub fn unpack(input: &[u8]) -> (r: Result<Instruction, ProgramError>)
        ensures
            parse_instruction(input@) matches Some(ins) ==> r == Ok::<Instruction, ProgramError>(ins),
            parse_instruction(input@) is None ==> r == Err::<Instruction, ProgramError>(
                ProgramError::InvalidInstructionData,
            ),
    {
        if input.len() == 0 {
            return Err(ProgramError::InvalidInstructionData);
        }
        let opcode = input[0];
        if opcode == 0 {
            Ok(Instruction::Upgrade)
        } else if opcode == 1 && input.len() >= 9 {
            let v = u64_from_le_bytes(slice_subrange(input, 1, 9));
            Ok(Instruction::SetScore(v))
        } else {
            Err(ProgramError::InvalidInstructionData)
        }
    }
}

/// Handles one invocation on a score account. The account must be owned by
/// the invoking program; its record is decoded, changed as the instruction
/// says and written back in full. On any error the account is untouched.
/// The owner check is the only gate on this path: no signature is asked for.
pub fn process_instruction(program_id: &Identity, account: &mut Account, input: &[u8]) -> (r:
    Result<(), ProgramError>)
    ensures
        final(account).key == old(account).key,
        final(account).owner == old(account).owner,
        final(account).is_signer == old(account).is_signer,
        old(account).owner@ != program_id@ ==> r == Err::<(), ProgramError>(
            ProgramError::IncorrectProgramId,
        ),
        old(account).owner@ == program_id@ && old(account).data@.len() < SCORE_RECORD_LEN ==> r
            == Err::<(), ProgramError>(ProgramError::DecodeError),
        old(account).owner@ == program_id@ && old(account).data@.len() >= SCORE_RECORD_LEN
            && parse_instruction(input@) is None ==> r == Err::<(), ProgramError>(
            ProgramError::InvalidInstructionData,
        ),
        r is Err ==> final(account).data@ == old(account).data@,
        old(account).owner@ == program_id@ && old(account).data@.len() >= SCORE_RECORD_LEN
            && parse_instruction(input@) is Some ==> r is Ok && final(account).data@ == encode_score(
            decoded_owner(old(account).data@),
            applied_score(
                parse_instruction(input@)->Some_0,
                decoded_score(old(account).data@),
            ),
        ) + old(account).data@.subrange(40, old(account).data@.len() as int),
{
    match require_owner_match(program_id, &account.owner) {
        Ok(()) => {},
        Err(e) => return Err(e),
    }
    let mut player_score = match PlayerScore::unpack_from_slice(account.data.as_slice()) {
        Ok(p) => p,
        Err(e) => return Err(e),
    };
    let ins = match Instruction::unpack(input) {
        Ok(ins) => ins,
        Err(e) => return Err(e),
    };
    match ins {
        Instruction::Upgrade => player_score.decrement_if_above_threshold(),
        Instruction::SetScore(v) => player_score.set_score(v),
    }
    player_score.pack_into_slice(&mut account.data)
}

/// Setting a score and decoding the record written back yields that score,
/// whatever the account held before, and keeps the record's owner.
pub proof fn lemma_set_score_then_decode(data: Seq<u8>, new_score: u64)
    requires
        data.len() >= SCORE_RECORD_LEN,
    ensures
        ({
            let written = encode_score(
                decoded_owner(data),
                applied_score(Instruction::SetScore(new_score), decoded_score(data)),
            ) + data.subrange(40, data.len() as int);
            decoded_score(written) == new_score && decoded_owner(written) == decoded_owner(data)
        }),
{
    let rec = encode_score(decoded_owner(data), new_score);
    lemma_score_round_trip(decoded_owner(data), new_score);
    let written = rec + data.subrange(40, data.len() as int);
    assert(written.subrange(0, 32) =~= rec.subrange(0, 32));
    assert(written.subrange(32, 40) =~= rec.subrange(32, 40));
}

} // verus!
