use solana_royale::dispatch::{process_instruction, Account, Instruction};
use solana_royale::error::ProgramError;
use solana_royale::identity::Identity;
use solana_royale::score::PlayerScore;

fn program() -> Identity {
    Identity::new([7u8; 32])
}

fn record_bytes(owner: u8, score: u64) -> Vec<u8> {
    let mut v = vec![owner; 32];
    v.extend_from_slice(&score.to_le_bytes());
    v
}

fn account(owner: Identity, score: u64) -> Account {
    Account {
        key: Identity::new([3u8; 32]),
        owner,
        is_signer: false,
        data: record_bytes(9, score),
    }
}

fn score_of(acc: &Account) -> u64 {
    PlayerScore::unpack_from_slice(&acc.data).unwrap().score
}

#[test]
fn pack_writes_fixed_layout() {
    let p = PlayerScore { player_name: Identity::new([5u8; 32]), score: 0x0102030405060708 };
    let mut buf = vec![0u8; 40];
    assert_eq!(p.pack_into_slice(&mut buf), Ok(()));
    assert_eq!(&buf[..32], &[5u8; 32]);
    assert_eq!(&buf[32..], &[8, 7, 6, 5, 4, 3, 2, 1]);
}

#[test]
fn pack_then_unpack_round_trips() {
    let p = PlayerScore { player_name: Identity::new([0xabu8; 32]), score: 987654321 };
    let mut buf = vec![0u8; 40];
    p.pack_into_slice(&mut buf).unwrap();
    let q = PlayerScore::unpack_from_slice(&buf).unwrap();
    assert_eq!(q.player_name.bytes, [0xabu8; 32]);
    assert_eq!(q.score, 987654321);
}

#[test]
fn pack_keeps_bytes_past_the_record() {
    let p = PlayerScore { player_name: Identity::new([1u8; 32]), score: 2 };
    let mut buf = vec![0xeeu8; 42];
    p.pack_into_slice(&mut buf).unwrap();
    assert_eq!(&buf[40..], &[0xee, 0xee]);
}

#[test]
fn pack_into_small_buffer_fails() {
    let p = PlayerScore { player_name: Identity::new([1u8; 32]), score: 2 };
    let mut buf = vec![0x11u8; 39];
    assert_eq!(p.pack_into_slice(&mut buf), Err(ProgramError::BufferTooSmall));
    assert_eq!(buf, vec![0x11u8; 39]);
}

#[test]
fn unpack_undersized_buffer_fails() {
    let buf = vec![0u8; 39];
    assert!(matches!(PlayerScore::unpack_from_slice(&buf), Err(ProgramError::DecodeError)));
}

#[test]
fn unpack_accepts_zero_identity() {
    let buf = vec![0u8; 40];
    let p = PlayerScore::unpack_from_slice(&buf).unwrap();
    assert!(!p.is_initialized());
    assert_eq!(p.score, 0);
}

#[test]
fn initialized_iff_owner_nonzero() {
    let mut bytes = [0u8; 32];
    bytes[31] = 1;
    let p = PlayerScore { player_name: Identity::new(bytes), score: 0 };
    assert!(p.is_initialized());
}

#[test]
fn decrement_at_threshold_reaches_zero() {
    let mut p = PlayerScore { player_name: Identity::new([1u8; 32]), score: 500 };
    p.decrement_if_above_threshold();
    assert_eq!(p.score, 0);
}

#[test]
fn decrement_below_threshold_is_noop() {
    let mut p = PlayerScore { player_name: Identity::new([1u8; 32]), score: 499 };
    p.decrement_if_above_threshold();
    assert_eq!(p.score, 499);
}

#[test]
fn decrement_above_threshold() {
    let mut p = PlayerScore { player_name: Identity::new([1u8; 32]), score: 1000 };
    p.decrement_if_above_threshold();
    assert_eq!(p.score, 500);
}

#[test]
fn dispatch_decrement_thresholds() {
    for (before, after) in [(500u64, 0u64), (499, 499), (1000, 500)] {
        let mut acc = account(program(), before);
        assert_eq!(process_instruction(&program(), &mut acc, &[0]), Ok(()));
        assert_eq!(score_of(&acc), after);
        assert_eq!(&acc.data[..32], &[9u8; 32]);
    }
}

#[test]
fn dispatch_set_score_overwrites() {
    for prior in [0u64, 499, 12345, u64::MAX] {
        let mut acc = account(program(), prior);
        let mut input = vec![1u8];
        input.extend_from_slice(&12345u64.to_le_bytes());
        assert_eq!(process_instruction(&program(), &mut acc, &input), Ok(()));
        assert_eq!(score_of(&acc), 12345);
    }
}

#[test]
fn dispatch_rejects_foreign_owner_for_any_opcode() {
    let other = Identity::new([8u8; 32]);
    for input in [vec![0u8], vec![1u8, 1, 0, 0, 0, 0, 0, 0, 0], vec![9u8], vec![]] {
        let mut acc = account(other, 700);
        let before = acc.data.clone();
        assert_eq!(
            process_instruction(&program(), &mut acc, &input),
            Err(ProgramError::IncorrectProgramId)
        );
        assert_eq!(acc.data, before);
    }
}

#[test]
fn dispatch_rejects_unknown_or_truncated_instruction() {
    for input in [vec![], vec![2u8], vec![1u8, 1, 2, 3, 4, 5, 6, 7]] {
        let mut acc = account(program(), 700);
        let before = acc.data.clone();
        assert_eq!(
            process_instruction(&program(), &mut acc, &input),
            Err(ProgramError::InvalidInstructionData)
        );
        assert_eq!(acc.data, before);
    }
}

#[test]
fn dispatch_rejects_short_account_data() {
    let mut acc = account(program(), 700);
    acc.data.truncate(20);
    assert_eq!(process_instruction(&program(), &mut acc, &[0]), Err(ProgramError::DecodeError));
    assert_eq!(acc.data.len(), 20);
}

#[test]
fn instruction_unpack_cases() {
    assert_eq!(Instruction::unpack(&[0]), Ok(Instruction::Upgrade));
    assert_eq!(Instruction::unpack(&[1, 0x39, 0x30, 0, 0, 0, 0, 0, 0]), Ok(Instruction::SetScore(12345)));
    assert_eq!(Instruction::unpack(&[1, 0]), Err(ProgramError::InvalidInstructionData));
    assert_eq!(Instruction::unpack(&[3]), Err(ProgramError::InvalidInstructionData));
}
