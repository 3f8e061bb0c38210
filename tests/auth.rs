use solana_royale::auth::{require_owner_match, require_signer};
use solana_royale::error::ProgramError;
use solana_royale::identity::Identity;
use solana_royale::score::{PlayerScore, RecordState};
use solana_royale::token::Token;

#[test]
fn signer_gate_fails_closed() {
    assert_eq!(require_signer(true), Ok(()));
    assert_eq!(require_signer(false), Err(ProgramError::MissingSignature));
}

#[test]
fn owner_gate_compares_every_byte() {
    let a = Identity::new([4u8; 32]);
    let mut bytes = [4u8; 32];
    bytes[31] = 5;
    let b = Identity::new(bytes);
    assert_eq!(require_owner_match(&a, &a), Ok(()));
    assert_eq!(require_owner_match(&a, &b), Err(ProgramError::IncorrectProgramId));
}

#[test]
fn record_state_follows_owner() {
    let blank = PlayerScore { player_name: Identity::zero(), score: 10 };
    assert_eq!(blank.state(), RecordState::Uninitialized);
    let set = PlayerScore { player_name: Identity::new([1u8; 32]), score: 0 };
    assert_eq!(set.state(), RecordState::Active);
}

#[test]
fn in_memory_transfer_credits_receiver() {
    let a = Identity::new([1u8; 32]);
    let b = Identity::new([2u8; 32]);
    let mut t = Token::new(b"T".to_vec(), b"T".to_vec(), 50, 0, a);
    assert_eq!(t.transfer(&a, true, &b, 20), Ok(()));
    assert_eq!(t.transfer(&a, true, &b, 5), Ok(()));
    assert_eq!(t.balances.len(), 2);
    assert_eq!(t.balances[0].amount, 25);
    assert_eq!(t.balances[1].amount, 25);
    assert_eq!(t.transfer(&b, true, &a, 26), Err(ProgramError::InsufficientBalance));
    assert_eq!(t.transfer(&b, false, &a, 1), Err(ProgramError::MissingSignature));
    assert_eq!(t.balances[1].amount, 25);
}

#[test]
fn in_memory_rename_appends_then_replaces() {
    let a = Identity::new([1u8; 32]);
    let mut t = Token::new(b"T".to_vec(), b"T".to_vec(), 50, 0, a);
    assert_eq!(t.set_owner_name(&a, true, b"Al".to_vec()), Ok(()));
    assert_eq!(t.set_owner_name(&a, true, b"Alice".to_vec()), Ok(()));
    assert_eq!(t.owner_names.len(), 1);
    assert_eq!(t.owner_names[0].name, b"Alice".to_vec());
}
