use vstd::prelude::*;
use crate::codec::{encodable, encode_token, lemma_token_round_trip, parse_token, TOKEN_TAG};
use crate::auth::require_signer;
use crate::error::ProgramError;
use crate::identity::Identity;
use crate::token::{
    created, first_index, has_key, lemma_transfer_conserves, rename_result, total_balance,
    transfer_result, Token, TokenView,
};

verus! {

/// The buffer after `t` is written over its start, or `BufferTooSmall` when
/// the encoding does not fit (or cannot be framed at all).
pub open spec fn stored(buf: Seq<u8>, t: TokenView) -> Result<Seq<u8>, ProgramError> {
    if encodable(t) && encode_token(t).len() <= buf.len() {
        Ok(encode_token(t) + buf.subrange(encode_token(t).len() as int, buf.len() as int))
    } else {
        Err(ProgramError::BufferTooSmall)
    }
}

/// The buffer after an operation whose effect on the token is `res`.
pub open spec fn stored_result(buf: Seq<u8>, res: Result<TokenView, ProgramError>) -> Result<
    Seq<u8>,
    ProgramError,
> {
    match res {
        Ok(t) => stored(buf, t),
        Err(e) => Err(e),
    }
}

/// What creation does to a buffer: it is refused over a buffer whose first
/// byte is set, then without the token account's signature.
pub open spec fn create_result(
    buf: Seq<u8>,
    token_signed: bool,
    name: Seq<u8>,
    symbol: Seq<u8>,
    total_supply: u64,
    decimals: u8,
    owner: Seq<u8>,
) -> Result<Seq<u8>, ProgramError> {
    if buf.len() > 0 && buf[0] != 0 {
        Err(ProgramError::AlreadyInitialized)
    } else if !token_signed {
        Err(ProgramError::MissingSignature)
    } else {
        stored(buf, created(name, symbol, total_supply, decimals, owner))
    }
}

/// What a transfer does to a buffer: the signature and distinct-account
/// checks come before the buffer is even read.
pub open spec fn transfer_buffer_result(
    buf: Seq<u8>,
    from: Seq<u8>,
    from_signed: bool,
    to: Seq<u8>,
    amount: u64,
) -> Result<Seq<u8>, ProgramError> {
    if !from_signed {
        Err(ProgramError::MissingSignature)
    } else if from == to {
        Err(ProgramError::SameAccount)
    } else {
        match parse_token(buf) {
            Some(t) => stored_result(buf, transfer_result(t, from, from_signed, to, amount)),
            None => Err(ProgramError::DecodeError),
        }
    }
}

/// What a name annotation does to a buffer.
pub open spec fn rename_buffer_result(
    buf: Seq<u8>,
    holder: Seq<u8>,
    holder_signed: bool,
    name: Seq<u8>,
) -> Result<Seq<u8>, ProgramError> {
    if !holder_signed {
        Err(ProgramError::MissingSignature)
    } else {
        match parse_token(buf) {
            Some(t) => stored_result(buf, rename_result(t, holder, holder_signed, name)),
            None => Err(ProgramError::DecodeError),
        }
    }
}

/// A buffer that a token was written to starts with the token tag.
proof fn lemma_stored_starts_with_tag(buf: Seq<u8>, t: TokenView)
    requires
        stored(buf, t) is Ok,
    ensures
        stored(buf, t)->Ok_0.len() > 0,
        stored(buf, t)->Ok_0[0] == TOKEN_TAG,
{
    let e = encode_token(t);
    assert(e[0] == TOKEN_TAG);
}

/// Once creation has succeeded on a buffer, creating again on the buffer it
/// left behind is refused as already initialized, whatever the arguments.
pub proof fn lemma_create_once(
    buf: Seq<u8>,
    token_signed: bool,
    name: Seq<u8>,
    symbol: Seq<u8>,
    total_supply: u64,
    decimals: u8,
    owner: Seq<u8>,
    token_signed2: bool,
    name2: Seq<u8>,
    symbol2: Seq<u8>,
    total_supply2: u64,
    decimals2: u8,
    owner2: Seq<u8>,
)
    requires
        create_result(buf, token_signed, name, symbol, total_supply, decimals, owner) is Ok,
    ensures
        create_result(
            create_result(buf, token_signed, name, symbol, total_supply, decimals, owner)->Ok_0,
            token_signed2,
            name2,
            symbol2,
            total_supply2,
            decimals2,
            owner2,
        ) == Err::<Seq<u8>, ProgramError>(ProgramError::AlreadyInitialized),
{
    lemma_stored_starts_with_tag(buf, created(name, symbol, total_supply, decimals, owner));
}

/// A transfer that the sender did not sign fails with `MissingSignature`,
/// whatever the buffer holds; the operation then leaves the buffer as it was.
pub proof fn lemma_unsigned_transfer_rejected(buf: Seq<u8>, from: Seq<u8>, to: Seq<u8>, amount: u64)
    ensures
        transfer_buffer_result(buf, from, false, to, amount) == Err::<Seq<u8>, ProgramError>(
            ProgramError::MissingSignature,
        ),
{
}

/// A transfer from an account to itself always fails, for any amount,
/// zero included; a signed one fails with `SameAccount`.
pub proof fn lemma_same_account_rejected(buf: Seq<u8>, who: Seq<u8>, signed: bool, amount: u64)
    ensures
        transfer_buffer_result(buf, who, signed, who, amount) is Err,
        signed ==> transfer_buffer_result(buf, who, signed, who, amount) == Err::<Seq<u8>, ProgramError>(
            ProgramError::SameAccount,
        ),
{
}

/// Asking a sender for more than its balance fails with `InsufficientBalance`.
pub proof fn lemma_overdraw_rejected(buf: Seq<u8>, from: Seq<u8>, to: Seq<u8>, amount: u64)
    requires
        from != to,
        parse_token(buf) is Some,
        has_key(parse_token(buf)->Some_0.balances, from),
        parse_token(buf)->Some_0.balances[first_index(parse_token(buf)->Some_0.balances, from)].1
            < amount,
    ensures
        transfer_buffer_result(buf, from, true, to, amount) == Err::<Seq<u8>, ProgramError>(
            ProgramError::InsufficientBalance,
        ),
{
}

/// A successful transfer on a buffer that holds a well-formed token leaves a
/// buffer that holds a well-formed token with the same supply and the same
/// sum of balances: chained transfers never mint, burn or overdraw.
pub proof fn lemma_transfer_keeps_ledger(buf: Seq<u8>, from: Seq<u8>, to: Seq<u8>, amount: u64)
    requires
        parse_token(buf) is Some,
        parse_token(buf)->Some_0.wf(),
        transfer_buffer_result(buf, from, true, to, amount) is Ok,
    ensures
        parse_token(transfer_buffer_result(buf, from, true, to, amount)->Ok_0) is Some,
        ({
            let before = parse_token(buf)->Some_0;
            let after = parse_token(transfer_buffer_result(buf, from, true, to, amount)->Ok_0)->Some_0;
            &&& after.wf()
            &&& after.total_supply == before.total_supply
            &&& total_balance(after.balances) == total_balance(before.balances)
        }),
{
    let t = parse_token(buf)->Some_0;
    let t2 = transfer_result(t, from, true, to, amount)->Ok_0;
    lemma_transfer_conserves(t, from, to, amount);
    let e = encode_token(t2);
    lemma_token_round_trip(t2, buf.subrange(e.len() as int, buf.len() as int));
}

/// Writes `token` over the start of `buf`, keeping the bytes after it.
/// Nothing is written when it does not fit.
pub fn write_token(buf: &mut Vec<u8>, token: &Token) -> (r: Result<(), ProgramError>)
    ensures
        match stored(old(buf)@, token@) {
            Ok(b) => r is Ok && final(buf)@ == b,
            Err(e) => r == Err::<(), ProgramError>(e) && final(buf)@ == old(buf)@,
        },
{
    if !token.is_encodable() {
        return Err(ProgramError::BufferTooSmall);
    }
    let bytes = token.encode();
    if bytes.len() > buf.len() {
        return Err(ProgramError::BufferTooSmall);
    }
    let mut i: usize = 0;
    while i < bytes.len()
        invariant
            0 <= i <= bytes@.len(),
            bytes@.len() <= old(buf)@.len(),
            buf@.len() == old(buf)@.len(),
            forall|j: int| 0 <= j < i ==> buf@[j] == bytes@[j],
            forall|j: int| i <= j < buf@.len() ==> buf@[j] == old(buf)@[j],
        decreases bytes@.len() - i,
    {
        buf.set(i, bytes[i]);
        i = i + 1;
    }
    assert(buf@ =~= bytes@ + old(buf)@.subrange(bytes@.len() as int, old(buf)@.len() as int));
    Ok(())
}

/// Creates a token in an empty buffer: `owner` holds the whole supply.
pub fn create(
    buf: &mut Vec<u8>,
    token_signed: bool,
    name: Vec<u8>,
    symbol: Vec<u8>,
    total_supply: u64,
    decimals: u8,
    owner: Identity,
) -> (r: Result<Token, ProgramError>)
    ensures
        match create_result(old(buf)@, token_signed, name@, symbol@, total_supply, decimals, owner@) {
            Ok(b) => r matches Ok(t) && t@ == created(name@, symbol@, total_supply, decimals, owner@)
                && final(buf)@ == b,
            Err(e) => r == Err::<Token, ProgramError>(e) && final(buf)@ == old(buf)@,
        },
{
    if buf.len() > 0 && buf[0] != 0 {
        return Err(ProgramError::AlreadyInitialized);
    }
    match require_signer(token_signed) {
        Ok(()) => {},
        Err(e) => return Err(e),
    }
    let token = Token::new(name, symbol, total_supply, decimals, owner);
    match write_token(buf, &token) {
        Ok(()) => Ok(token),
        Err(e) => Err(e),
    }
}

/// Moves `amount` from `from` to `to` in the token that `buf` holds: the
/// sender is debited and the receiver credited (a new entry when it had
/// none), so the sum of balances is kept. Only the sender's signature counts.
pub fn transfer(buf: &mut Vec<u8>, from: &Identity, from_signed: bool, to: &Identity, amount: u64) -> (r:
    Result<(), ProgramError>)
    ensures
        match transfer_buffer_result(old(buf)@, from@, from_signed, to@, amount) {
            Ok(b) => r is Ok && final(buf)@ == b,
            Err(e) => r == Err::<(), ProgramError>(e) && final(buf)@ == old(buf)@,
        },
{
    match require_signer(from_signed) {
        Ok(()) => {},
        Err(e) => return Err(e),
    }
    if from.same_as(to) {
        return Err(ProgramError::SameAccount);
    }
    let mut token = match Token::decode(buf.as_slice()) {
        Ok(t) => t,
        Err(e) => return Err(e),
    };
    match token.transfer(from, from_signed, to, amount) {
        Ok(()) => {},
        Err(e) => return Err(e),
    }
    write_token(buf, &token)
}

/// Records `name` as the display name of `holder` in the token that `buf` holds.
pub fn set_owner_name(buf: &mut Vec<u8>, holder: &Identity, holder_signed: bool, name: Vec<u8>) -> (r:
    Result<(), ProgramError>)
    ensures
        match rename_buffer_result(old(buf)@, holder@, holder_signed, name@) {
            Ok(b) => r is Ok && final(buf)@ == b,
            Err(e) => r == Err::<(), ProgramError>(e) && final(buf)@ == old(buf)@,
        },
{
    match require_signer(holder_signed) {
        Ok(()) => {},
        Err(e) => return Err(e),
    }
    let mut token = match Token::decode(buf.as_slice()) {
        Ok(t) => t,
        Err(e) => return Err(e),
    };
    match token.set_owner_name(holder, holder_signed, name) {
        Ok(()) => {},
        Err(e) => return Err(e),
    }
    write_token(buf, &token)
}

} // verus!
