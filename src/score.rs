use vstd::bytes::{spec_u64_from_le_bytes, spec_u64_to_le_bytes, u64_from_le_bytes, u64_to_le_bytes, lemma_auto_spec_u64_to_from_le_bytes};
use vstd::prelude::*;
use vstd::slice::slice_subrange;
use crate::error::ProgramError;
use crate::identity::{zero_identity, Identity};

verus! {

/// Width in bytes of a packed score record: the owner identity, then the score.
pub const SCORE_RECORD_LEN: usize = 40;

/// Scores at or above this value are lowered by the decrement operation.
pub const SCORE_THRESHOLD: u64 = 500;

/// How much the decrement operation takes off.
pub const SCORE_DECREMENT: u64 = 500;

/// The 40 bytes that encode a record: the identity raw, then the score
/// as 8 little-endian bytes.
pub open spec fn encode_score(owner: Seq<u8>, score: u64) -> Seq<u8> {
    owner + spec_u64_to_le_bytes(score)
}

/// The owner identity read from a record's bytes.
pub open spec fn decoded_owner(src: Seq<u8>) -> Seq<u8> {
    src.subrange(0, 32)
}

/// The score read from a record's bytes.
pub open spec fn decoded_score(src: Seq<u8>) -> u64 {
    spec_u64_from_le_bytes(src.subrange(32, 40))
}

/// The score after one decrement-if-above-threshold step.
pub open spec fn decremented(score: u64) -> u64 {
    if score >= SCORE_THRESHOLD {
        (score - SCORE_DECREMENT) as u64
    } else {
        score
    }
}

/// Lifecycle state of a score record.
#[derive(Clone, Copy, Debug, PartialEq, Eq, Structural)]
pub enum RecordState {
    /// The owner is the all-zero identity.
    Uninitialized,
    /// The owner is set.
    Active,
}

/// A fixed-width record: who owns it and their score.
#[derive(Clone, Copy, Debug)]
pub struct PlayerScore {
    pub player_name: Identity,
    pub score: u64,
}

impl PlayerScore {
    /// A record is initialized once its owner is not the all-zero identity.
    pub fn is_initialized(&self) -> (r: bool)
        ensures
            r == (self.player_name@ != zero_identity()),
    {
        !self.player_name.is_zero()
    }

    /// The record's lifecycle state, decided by its owner field.
    pub fn state(&self) -> (r: RecordState)
        ensures
            r == (if self.player_name@ == zero_identity() {
                RecordState::Uninitialized
            } else {
                RecordState::Active
            }),
    {
        if self.is_initialized() {
            RecordState::Active
        } else {
            RecordState::Uninitialized
        }
    }

    /// Writes the record over the first 40 bytes of `dst`; the rest is kept.
    pub fn pack_into_slice(&self, dst: &mut Vec<u8>) -> (r: Result<(), ProgramError>)
        ensures
            old(dst)@.len() < SCORE_RECORD_LEN ==> r == Err::<(), ProgramError>(
                ProgramError::BufferTooSmall,
            ) && final(dst)@ == old(dst)@,
            old(dst)@.len() >= SCORE_RECORD_LEN ==> r is Ok && final(dst)@ == encode_score(
                self.player_name@,
                self.score,
            ) + old(dst)@.subrange(40, old(dst)@.len() as int),
    {
        if dst.len() < SCORE_RECORD_LEN {
            return Err(ProgramError::BufferTooSmall);
        }
        let score_bytes = u64_to_le_bytes(self.score);
        let ghost enc = encode_score(self.player_name@, self.score);
        let mut i: usize = 0;
        while i < SCORE_RECORD_LEN
            invariant
                0 <= i <= 40,
                dst@.len() == old(dst)@.len(),
                old(dst)@.len() >= 40,
                score_bytes@.len() == 8,
                enc == self.player_name@ + score_bytes@,
                enc.len() == 40,
                forall|j: int| 0 <= j < i ==> dst@[j] == enc[j],
                forall|j: int| i <= j < dst@.len() ==> dst@[j] == old(dst)@[j],
            decreases 40 - i,
        {
            let b = if i < 32 {
                self.player_name.bytes[i]
            } else {
                score_bytes[i - 32]
            };
            dst.set(i, b);
            i = i + 1;
        }
        assert(dst@ =~= enc + old(dst)@.subrange(40, old(dst)@.len() as int));
        Ok(())
    }

    /// Reads a record from the first 40 bytes of `src`. Any identity bytes
    /// are accepted, the all-zero one included.
    pub fn unpack_from_slice(src: &[u8]) -> (r: Result<PlayerScore, ProgramError>)
        ensures
            src@.len() < SCORE_RECORD_LEN ==> r == Err::<PlayerScore, ProgramError>(
                ProgramError::DecodeError,
            ),
            src@.len() >= SCORE_RECORD_LEN ==> (r matches Ok(p) && p.player_name@ == decoded_owner(
                src@,
            ) && p.score == decoded_score(src@)),
    {
        if src.len() < SCORE_RECORD_LEN {
            return Err(ProgramError::DecodeError);
        }
        let player_name = Identity::from_slice(src, 0);
        let score = u64_from_le_bytes(slice_subrange(src, 32, 40));
        Ok(PlayerScore { player_name, score })
    }

    /// Lowers the score by 500 when it is at least 500; otherwise keeps it.
    pub fn decrement_if_above_threshold(&mut self)
        ensures
            final(self).player_name == old(self).player_name,
            final(self).score == decremented(old(self).score),
    {
        if self.score >= SCORE_THRESHOLD {
            self.score = self.score - SCORE_DECREMENT;
        }
    }

    /// Overwrites the score, whatever it was.
    pub fn set_score(&mut self, new_score: u64)
        ensures
            final(self).player_name == old(self).player_name,
            final(self).score == new_score,
    {
        self.score = new_score;
    }
}

/// Decoding the encoding of a record gives the record back.
pub proof fn lemma_score_round_trip(owner: Seq<u8>, score: u64)
    requires
        owner.len() == 32,
    ensures
        decoded_owner(encode_score(owner, score)) == owner,
        decoded_score(encode_score(owner, score)) == score,
        encode_score(owner, score).len() == SCORE_RECORD_LEN,
{
    lemma_auto_spec_u64_to_from_le_bytes();
    let e = encode_score(owner, score);
    assert(e.subrange(0, 32) =~= owner);
    assert(e.subrange(32, 40) =~= spec_u64_to_le_bytes(score));
}

} // verus!
