use solana_royale::error::ProgramError;
use solana_royale::identity::Identity;
use solana_royale::ledger::{create, set_owner_name, transfer};
use solana_royale::token::{Balance, OwnerName, Token};

fn a() -> Identity {
    Identity::new([0xaau8; 32])
}

fn b() -> Identity {
    Identity::new([0xbbu8; 32])
}

fn royale_buffer() -> Vec<u8> {
    let mut buf = vec![0u8; 512];
    create(&mut buf, true, b"Royale".to_vec(), b"RYL".to_vec(), 1_000_000, 6, a()).unwrap();
    buf
}

fn balances(buf: &[u8]) -> Vec<([u8; 32], u64)> {
    Token::decode(buf).unwrap().balances.iter().map(|e| (e.holder.bytes, e.amount)).collect()
}

#[test]
fn royale_scenario() {
    let mut buf = vec![0u8; 512];
    let t = create(&mut buf, true, b"Royale".to_vec(), b"RYL".to_vec(), 1_000_000, 6, a()).unwrap();
    assert_eq!(t.balances.len(), 1);
    assert_eq!(balances(&buf), vec![([0xaa; 32], 1_000_000)]);
    let stored = Token::decode(&buf).unwrap();
    assert_eq!(stored.name, b"Royale".to_vec());
    assert_eq!(stored.symbol, b"RYL".to_vec());
    assert_eq!(stored.total_supply, 1_000_000);
    assert_eq!(stored.decimals, 6);
    assert_eq!(stored.owner.bytes, [0xaa; 32]);
    assert!(stored.owner_names.is_empty());

    assert_eq!(transfer(&mut buf, &a(), true, &b(), 100), Ok(()));
    let after = balances(&buf);
    assert_eq!(after, vec![([0xaa; 32], 999_900), ([0xbb; 32], 100)]);
    assert_eq!(after.iter().map(|e| e.1).sum::<u64>(), 1_000_000);

    assert_eq!(set_owner_name(&mut buf, &a(), true, b"Alice".to_vec()), Ok(()));
    let named = Token::decode(&buf).unwrap();
    assert_eq!(named.owner_names.len(), 1);
    assert_eq!(named.owner_names[0].holder.bytes, [0xaa; 32]);
    assert_eq!(named.owner_names[0].name, b"Alice".to_vec());
}

#[test]
fn create_twice_is_refused() {
    let mut buf = royale_buffer();
    let before = buf.clone();
    let r = create(&mut buf, true, b"X".to_vec(), b"X".to_vec(), 5, 0, b());
    assert!(matches!(r, Err(ProgramError::AlreadyInitialized)));
    assert_eq!(buf, before);
}

#[test]
fn create_with_empty_name_is_still_create_once() {
    let mut buf = vec![0u8; 128];
    create(&mut buf, true, Vec::new(), Vec::new(), 0, 0, a()).unwrap();
    let r = create(&mut buf, true, Vec::new(), Vec::new(), 0, 0, a());
    assert!(matches!(r, Err(ProgramError::AlreadyInitialized)));
}

#[test]
fn create_without_signature_fails() {
    let mut buf = vec![0u8; 128];
    let r = create(&mut buf, false, b"R".to_vec(), b"R".to_vec(), 10, 0, a());
    assert!(matches!(r, Err(ProgramError::MissingSignature)));
    assert_eq!(buf, vec![0u8; 128]);
}

#[test]
fn create_into_small_buffer_fails() {
    let mut buf = vec![0u8; 20];
    let r = create(&mut buf, true, b"Royale".to_vec(), b"RYL".to_vec(), 10, 0, a());
    assert!(matches!(r, Err(ProgramError::BufferTooSmall)));
    assert_eq!(buf, vec![0u8; 20]);
}

#[test]
fn unsigned_transfer_fails_unchanged() {
    let mut buf = royale_buffer();
    let before = buf.clone();
    assert_eq!(transfer(&mut buf, &a(), false, &b(), 1), Err(ProgramError::MissingSignature));
    assert_eq!(buf, before);
}

#[test]
fn same_account_transfer_fails_unchanged() {
    let mut buf = royale_buffer();
    let before = buf.clone();
    for amount in [0u64, 1, 2_000_000] {
        assert_eq!(transfer(&mut buf, &a(), true, &a(), amount), Err(ProgramError::SameAccount));
        assert_eq!(buf, before);
    }
}

#[test]
fn overdraw_fails_unchanged() {
    let mut buf = royale_buffer();
    let before = buf.clone();
    assert_eq!(
        transfer(&mut buf, &a(), true, &b(), 1_000_001),
        Err(ProgramError::InsufficientBalance)
    );
    assert_eq!(buf, before);
}

#[test]
fn unknown_sender_fails() {
    let mut buf = royale_buffer();
    let before = buf.clone();
    assert_eq!(transfer(&mut buf, &b(), true, &a(), 1), Err(ProgramError::InvalidAccountData));
    assert_eq!(buf, before);
}

#[test]
fn transfer_on_blank_buffer_fails_to_decode() {
    let mut buf = vec![0u8; 64];
    assert_eq!(transfer(&mut buf, &a(), true, &b(), 1), Err(ProgramError::DecodeError));
    assert_eq!(buf, vec![0u8; 64]);
}

#[test]
fn repeated_transfers_conserve_supply() {
    let mut buf = royale_buffer();
    transfer(&mut buf, &a(), true, &b(), 400_000).unwrap();
    transfer(&mut buf, &b(), true, &a(), 150_000).unwrap();
    transfer(&mut buf, &b(), true, &a(), 250_000).unwrap();
    assert_eq!(balances(&buf), vec![([0xaa; 32], 1_000_000), ([0xbb; 32], 0)]);
    assert_eq!(transfer(&mut buf, &b(), true, &a(), 1), Err(ProgramError::InsufficientBalance));
}

#[test]
fn transfer_that_outgrows_buffer_fails_unchanged() {
    let mut buf = vec![0u8; 100];
    create(&mut buf, true, b"R".to_vec(), b"R".to_vec(), 10, 0, a()).unwrap();
    let before = buf.clone();
    assert_eq!(transfer(&mut buf, &a(), true, &b(), 1), Err(ProgramError::BufferTooSmall));
    assert_eq!(buf, before);
}

#[test]
fn unsigned_rename_fails() {
    let mut buf = royale_buffer();
    let before = buf.clone();
    assert_eq!(set_owner_name(&mut buf, &a(), false, b"Alice".to_vec()), Err(ProgramError::MissingSignature));
    assert_eq!(buf, before);
}

#[test]
fn rename_overwrites_and_needs_no_balance() {
    let mut buf = royale_buffer();
    set_owner_name(&mut buf, &b(), true, b"Bob".to_vec()).unwrap();
    set_owner_name(&mut buf, &b(), true, b"Robert".to_vec()).unwrap();
    let t = Token::decode(&buf).unwrap();
    assert_eq!(t.owner_names.len(), 1);
    assert_eq!(t.owner_names[0].name, b"Robert".to_vec());
    assert_eq!(t.balances.len(), 1);
}

#[test]
fn token_encoding_is_exact() {
    let t = Token {
        name: b"N".to_vec(),
        symbol: b"S".to_vec(),
        total_supply: 258,
        decimals: 2,
        owner: Identity::new([1u8; 32]),
        balances: vec![Balance { holder: Identity::new([2u8; 32]), amount: 3 }],
        owner_names: vec![OwnerName { holder: Identity::new([4u8; 32]), name: b"Z".to_vec() }],
    };
    let mut expected = vec![1u8, 1, 0, 0, 0, b'N', 1, 0, 0, 0, b'S', 2, 1, 0, 0, 0, 0, 0, 0, 2];
    expected.extend_from_slice(&[1u8; 32]);
    expected.extend_from_slice(&[1, 0, 0, 0]);
    expected.extend_from_slice(&[2u8; 32]);
    expected.extend_from_slice(&[3, 0, 0, 0, 0, 0, 0, 0]);
    expected.extend_from_slice(&[1, 0, 0, 0]);
    expected.extend_from_slice(&[4u8; 32]);
    expected.extend_from_slice(&[1, 0, 0, 0, b'Z']);
    assert_eq!(t.encode(), expected);
}

#[test]
fn token_round_trip_with_trailing_bytes() {
    let t = Token {
        name: b"Royale".to_vec(),
        symbol: b"RYL".to_vec(),
        total_supply: u64::MAX,
        decimals: 255,
        owner: a(),
        balances: vec![
            Balance { holder: a(), amount: 7 },
            Balance { holder: b(), amount: u64::MAX - 7 },
        ],
        owner_names: vec![
            OwnerName { holder: b(), name: b"Bob".to_vec() },
            OwnerName { holder: a(), name: Vec::new() },
        ],
    };
    assert!(t.is_encodable());
    let mut bytes = t.encode();
    bytes.extend_from_slice(&[9, 9, 9]);
    let d = Token::decode(&bytes).unwrap();
    assert_eq!(d.name, t.name);
    assert_eq!(d.symbol, t.symbol);
    assert_eq!(d.total_supply, t.total_supply);
    assert_eq!(d.decimals, t.decimals);
    assert_eq!(d.owner.bytes, t.owner.bytes);
    assert_eq!(d.balances.len(), 2);
    assert_eq!(d.balances[1].holder.bytes, [0xbb; 32]);
    assert_eq!(d.balances[1].amount, u64::MAX - 7);
    assert_eq!(d.owner_names.len(), 2);
    assert_eq!(d.owner_names[0].name, b"Bob".to_vec());
    assert!(d.owner_names[1].name.is_empty());
}

#[test]
fn decode_rejects_truncated_token() {
    let buf = royale_buffer();
    let t = Token::decode(&buf).unwrap();
    let bytes = t.encode();
    for cut in [0usize, 1, 5, 20, bytes.len() - 1] {
        assert!(matches!(Token::decode(&bytes[..cut]), Err(ProgramError::DecodeError)));
    }
    let mut wrong_tag = bytes.clone();
    wrong_tag[0] = 2;
    assert!(matches!(Token::decode(&wrong_tag), Err(ProgramError::DecodeError)));
}
