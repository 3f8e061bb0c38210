use vstd::bytes::{
    lemma_auto_spec_u32_to_from_le_bytes, lemma_auto_spec_u64_to_from_le_bytes,
    spec_u32_from_le_bytes, spec_u32_to_le_bytes, spec_u64_from_le_bytes, spec_u64_to_le_bytes,
    u32_from_le_bytes, u32_to_le_bytes, u64_from_le_bytes, u64_to_le_bytes,
};
use vstd::prelude::*;
use vstd::slice::{slice_subrange, slice_to_vec};
use crate::error::ProgramError;
use crate::identity::Identity;
use crate::token::{Balance, BalancesView, NamesView, OwnerName, Token, TokenView};

verus! {

broadcast use vstd::array::group_array_axioms;

/// First byte of every encoded token: marks the buffer as holding one.
pub const TOKEN_TAG: u8 = 1;

/// A length or a count, as 4 little-endian bytes.
pub open spec fn enc_len(n: nat) -> Seq<u8> {
    spec_u32_to_le_bytes(n as u32)
}

/// Text: its length, then its bytes.
pub open spec fn enc_text(t: Seq<u8>) -> Seq<u8> {
    enc_len(t.len()) + t
}

/// A balance entry: the holder's 32 bytes, then the amount.
pub open spec fn enc_balance(e: (Seq<u8>, u64)) -> Seq<u8> {
    e.0 + spec_u64_to_le_bytes(e.1)
}

/// A name entry: the holder's 32 bytes, then the name as text.
pub open spec fn enc_name(e: (Seq<u8>, Seq<u8>)) -> Seq<u8> {
    e.0 + enc_text(e.1)
}

pub open spec fn enc_balance_list(s: BalancesView) -> Seq<u8>
    decreases s.len(),
{
    if s.len() == 0 {
        Seq::empty()
    } else {
        enc_balance_list(s.drop_last()) + enc_balance(s.last())
    }
}

pub open spec fn enc_name_list(s: NamesView) -> Seq<u8>
    decreases s.len(),
{
    if s.len() == 0 {
        Seq::empty()
    } else {
        enc_name_list(s.drop_last()) + enc_name(s.last())
    }
}

/// The bytes of an encoded token, in field order; both tables are preceded
/// by their entry count.
pub open spec fn encode_token(t: TokenView) -> Seq<u8> {
    seq![TOKEN_TAG] + enc_text(t.name) + enc_text(t.symbol) + spec_u64_to_le_bytes(t.total_supply)
        + seq![t.decimals] + t.owner + enc_len(t.balances.len()) + enc_balance_list(t.balances)
        + enc_len(t.owner_names.len()) + enc_name_list(t.owner_names)
}

/// Every identity is 32 bytes and every length and count fits the 4-byte prefix.
pub open spec fn encodable(t: TokenView) -> bool {
    &&& t.name.len() <= u32::MAX
    &&& t.symbol.len() <= u32::MAX
    &&& t.owner.len() == 32
    &&& t.balances.len() <= u32::MAX
    &&& t.owner_names.len() <= u32::MAX
    &&& forall|i: int| 0 <= i < t.balances.len() ==> (#[trigger] t.balances[i]).0.len() == 32
    &&& forall|i: int|
        0 <= i < t.owner_names.len() ==> (#[trigger] t.owner_names[i]).0.len() == 32
            && t.owner_names[i].1.len() <= u32::MAX
}

pub open spec fn parse_len(s: Seq<u8>) -> Option<(nat, Seq<u8>)> {
    if s.len() >= 4 {
        Some((spec_u32_from_le_bytes(s.subrange(0, 4)) as nat, s.subrange(4, s.len() as int)))
    } else {
        None
    }
}

pub open spec fn parse_text(s: Seq<u8>) -> Option<(Seq<u8>, Seq<u8>)> {
    match parse_len(s) {
        Some((n, r)) => if r.len() >= n {
            Some((r.subrange(0, n as int), r.subrange(n as int, r.len() as int)))
        } else {
            None
        },
        None => None,
    }
}

pub open spec fn parse_u64(s: Seq<u8>) -> Option<(u64, Seq<u8>)> {
    if s.len() >= 8 {
        Some((spec_u64_from_le_bytes(s.subrange(0, 8)), s.subrange(8, s.len() as int)))
    } else {
        None
    }
}

pub open spec fn parse_identity(s: Seq<u8>) -> Option<(Seq<u8>, Seq<u8>)> {
    if s.len() >= 32 {
        Some((s.subrange(0, 32), s.subrange(32, s.len() as int)))
    } else {
        None
    }
}

pub open spec fn parse_balance(s: Seq<u8>) -> Option<((Seq<u8>, u64), Seq<u8>)> {
    match parse_identity(s) {
        Some((k, r)) => match parse_u64(r) {
            Some((v, r2)) => Some(((k, v), r2)),
            None => None,
        },
        None => None,
    }
}

pub open spec fn parse_name(s: Seq<u8>) -> Option<((Seq<u8>, Seq<u8>), Seq<u8>)> {
    match parse_identity(s) {
        Some((k, r)) => match parse_text(r) {
            Some((v, r2)) => Some(((k, v), r2)),
            None => None,
        },
        None => None,
    }
}

/// The first `n` balance entries of `s`, and what follows them.
pub open spec fn parse_balance_list(n: nat, s: Seq<u8>) -> Option<(BalancesView, Seq<u8>)>
    decreases n,
{
    if n == 0 {
        Some((Seq::empty(), s))
    } else {
        match parse_balance_list((n - 1) as nat, s) {
            Some((es, r)) => match parse_balance(r) {
                Some((e, r2)) => Some((es.push(e), r2)),
                None => None,
            },
            None => None,
        }
    }
}

/// The first `n` name entries of `s`, and what follows them.
pub open spec fn parse_name_list(n: nat, s: Seq<u8>) -> Option<(NamesView, Seq<u8>)>
    decreases n,
{
    if n == 0 {
        Some((Seq::empty(), s))
    } else {
        match parse_name_list((n - 1) as nat, s) {
            Some((es, r)) => match parse_name(r) {
                Some((e, r2)) => Some((es.push(e), r2)),
                None => None,
            },
            None => None,
        }
    }
}

/// Everything of a token after its name and symbol.
pub open spec fn parse_token_body(name: Seq<u8>, symbol: Seq<u8>, s: Seq<u8>) -> Option<TokenView> {
    match parse_u64(s) {
        Some((supply, r1)) => if r1.len() >= 1 {
            match parse_identity(r1.subrange(1, r1.len() as int)) {
                Some((owner, r2)) => match parse_len(r2) {
                    Some((nb, r3)) => match parse_balance_list(nb, r3) {
                        Some((balances, r4)) => match parse_len(r4) {
                            Some((nn, r5)) => match parse_name_list(nn, r5) {
                                Some((names, _r6)) => Some(
                                    TokenView {
                                        name,
                                        symbol,
                                        total_supply: supply,
                                        decimals: r1[0],
                                        owner,
                                        balances,
                                        owner_names: names,
                                    },
                                ),
                                None => None,
                            },
                            None => None,
                        },
                        None => None,
                    },
                    None => None,
                },
                None => None,
            }
        } else {
            None
        },
        None => None,
    }
}

/// The token that a buffer holds, if it holds one; bytes after the
/// encoding are ignored.
pub open spec fn parse_token(s: Seq<u8>) -> Option<TokenView> {
    if s.len() >= 1 && s[0] == TOKEN_TAG {
        match parse_text(s.subrange(1, s.len() as int)) {
            Some((name, r1)) => match parse_text(r1) {
                Some((symbol, r2)) => parse_token_body(name, symbol, r2),
                None => None,
            },
            None => None,
        }
    } else {
        None
    }
}

/// The bytes of `s` from position `p` on.
pub open spec fn rest_of(s: Seq<u8>, p: int) -> Seq<u8> {
    s.subrange(p, s.len() as int)
}

/// Largest length or count that the 4-byte prefix can carry.
pub const MAX_LEN: usize = 0xffff_ffff;

fn push_bytes(out: &mut Vec<u8>, src: &[u8])
    ensures
        final(out)@ == old(out)@ + src@,
{
    let mut i: usize = 0;
    while i < src.len()
        invariant
            0 <= i <= src@.len(),
            out@ == old(out)@ + src@.subrange(0, i as int),
        decreases src@.len() - i,
    {
        out.push(src[i]);
        i = i + 1;
        assert(out@ =~= old(out)@ + src@.subrange(0, i as int));
    }
    assert(src@.subrange(0, src@.len() as int) =~= src@);
}

fn push_identity(out: &mut Vec<u8>, id: &Identity)
    ensures
        final(out)@ == old(out)@ + id@,
{
    let mut i: usize = 0;
    while i < 32
        invariant
            0 <= i <= 32,
            id@.len() == 32,
            out@ == old(out)@ + id@.subrange(0, i as int),
        decreases 32 - i,
    {
        out.push(id.bytes[i]);
        i = i + 1;
        assert(out@ =~= old(out)@ + id@.subrange(0, i as int));
    }
    assert(id@.subrange(0, 32) =~= id@);
}

fn push_len(out: &mut Vec<u8>, n: usize)
    requires
        n <= MAX_LEN,
    ensures
        final(out)@ == old(out)@ + enc_len(n as nat),
{
    let b = u32_to_le_bytes(n as u32);
    push_bytes(out, b.as_slice());
}

fn push_text(out: &mut Vec<u8>, t: &Vec<u8>)
    requires
        t@.len() <= MAX_LEN,
    ensures
        final(out)@ == old(out)@ + enc_text(t@),
{
    push_len(out, t.len());
    push_bytes(out, t.as_slice());
    assert(final(out)@ =~= old(out)@ + enc_text(t@));
}

fn read_len(src: &[u8], pos: usize) -> (r: Result<(usize, usize), ProgramError>)
    requires
        pos <= src@.len(),
    ensures
        parse_len(rest_of(src@, pos as int)) matches Some((n, rest)) ==> (r matches Ok((v, p))
            && v == n && pos <= p <= src@.len() && rest_of(src@, p as int) == rest),
        parse_len(rest_of(src@, pos as int)) is None ==> r == Err::<(usize, usize), ProgramError>(
            ProgramError::DecodeError,
        ),
{
    if src.len() - pos < 4 {
        return Err(ProgramError::DecodeError);
    }
    let v = u32_from_le_bytes(slice_subrange(src, pos, pos + 4));
    assert(rest_of(src@, pos as int).subrange(0, 4) =~= src@.subrange(pos as int, pos + 4));
    assert(rest_of(src@, pos as int).subrange(4, rest_of(src@, pos as int).len() as int) =~= rest_of(
        src@,
        pos + 4,
    ));
    Ok((v as usize, pos + 4))
}

fn read_text(src: &[u8], pos: usize) -> (r: Result<(Vec<u8>, usize), ProgramError>)
    requires
        pos <= src@.len(),
    ensures
        parse_text(rest_of(src@, pos as int)) matches Some((t, rest)) ==> (r matches Ok((v, p))
            && v@ == t && pos <= p <= src@.len() && rest_of(src@, p as int) == rest),
        parse_text(rest_of(src@, pos as int)) is None ==> r == Err::<(Vec<u8>, usize), ProgramError>(
            ProgramError::DecodeError,
        ),
{
    let (n, p) = match read_len(src, pos) {
        Ok(x) => x,
        Err(e) => return Err(e),
    };
    if src.len() - p < n {
        return Err(ProgramError::DecodeError);
    }
    let t = slice_to_vec(slice_subrange(src, p, p + n));
    let ghost r = rest_of(src@, p as int);
    assert(r.subrange(0, n as int) =~= src@.subrange(p as int, p + n));
    assert(r.subrange(n as int, r.len() as int) =~= rest_of(src@, p + n));
    Ok((t, p + n))
}

fn read_u64(src: &[u8], pos: usize) -> (r: Result<(u64, usize), ProgramError>)
    requires
        pos <= src@.len(),
    ensures
        parse_u64(rest_of(src@, pos as int)) matches Some((n, rest)) ==> (r matches Ok((v, p))
            && v == n && pos <= p <= src@.len() && rest_of(src@, p as int) == rest),
        parse_u64(rest_of(src@, pos as int)) is None ==> r == Err::<(u64, usize), ProgramError>(
            ProgramError::DecodeError,
        ),
{
    if src.len() - pos < 8 {
        return Err(ProgramError::DecodeError);
    }
    let v = u64_from_le_bytes(slice_subrange(src, pos, pos + 8));
    assert(rest_of(src@, pos as int).subrange(0, 8) =~= src@.subrange(pos as int, pos + 8));
    assert(rest_of(src@, pos as int).subrange(8, rest_of(src@, pos as int).len() as int) =~= rest_of(
        src@,
        pos + 8,
    ));
    Ok((v, pos + 8))
}

fn read_identity(src: &[u8], pos: usize) -> (r: Result<(Identity, usize), ProgramError>)
    requires
        pos <= src@.len(),
    ensures
        parse_identity(rest_of(src@, pos as int)) matches Some((n, rest)) ==> (r matches Ok((v, p))
            && v@ == n && pos <= p <= src@.len() && rest_of(src@, p as int) == rest),
        parse_identity(rest_of(src@, pos as int)) is None ==> r == Err::<(Identity, usize), ProgramError>(
            ProgramError::DecodeError,
        ),
{
    if src.len() - pos < 32 {
        return Err(ProgramError::DecodeError);
    }
    let v = Identity::from_slice(src, pos);
    assert(rest_of(src@, pos as int).subrange(0, 32) =~= src@.subrange(pos as int, pos + 32));
    assert(rest_of(src@, pos as int).subrange(32, rest_of(src@, pos as int).len() as int) =~= rest_of(
        src@,
        pos + 32,
    ));
    Ok((v, pos + 32))
}

proof fn lemma_balance_list_fails_on(k: nat, n: nat, s: Seq<u8>)
    requires
        k <= n,
        parse_balance_list(k, s) is None,
    ensures
        parse_balance_list(n, s) is None,
    decreases n,
{
    if k < n {
        lemma_balance_list_fails_on(k, (n - 1) as nat, s);
    }
}

proof fn lemma_name_list_fails_on(k: nat, n: nat, s: Seq<u8>)
    requires
        k <= n,
        parse_name_list(k, s) is None,
    ensures
        parse_name_list(n, s) is None,
    decreases n,
{
    if k < n {
        lemma_name_list_fails_on(k, (n - 1) as nat, s);
    }
}

fn read_balances(src: &[u8], pos: usize, n: usize) -> (r: Result<(Vec<Balance>, usize), ProgramError>)
    requires
        pos <= src@.len(),
    ensures
        parse_balance_list(n as nat, rest_of(src@, pos as int)) matches Some((es, rest)) ==> (r matches Ok((v, p))
            && v@.map_values(|b: Balance| b@) == es && pos <= p <= src@.len() && rest_of(src@, p as int) == rest),
        parse_balance_list(n as nat, rest_of(src@, pos as int)) is None ==> r == Err::<(Vec<Balance>, usize), ProgramError>(
            ProgramError::DecodeError,
        ),
{
    let ghost s0 = rest_of(src@, pos as int);
    let mut out: Vec<Balance> = Vec::new();
    let mut p = pos;
    let mut i: usize = 0;
    assert(out@.map_values(|b: Balance| b@) =~= Seq::<(Seq<u8>, u64)>::empty());
    while i < n
        invariant
            0 <= i <= n,
            pos <= p <= src@.len(),
            s0 == rest_of(src@, pos as int),
            parse_balance_list(i as nat, s0) == Some((out@.map_values(|b: Balance| b@), rest_of(src@, p as int))),
        decreases n - i,
    {
        let (holder, p1) = match read_identity(src, p) {
            Ok(x) => x,
            Err(e) => {
                proof { lemma_balance_list_fails_on((i + 1) as nat, n as nat, s0); }
                return Err(e);
            },
        };
        let (amount, p2) = match read_u64(src, p1) {
            Ok(x) => x,
            Err(e) => {
                proof { lemma_balance_list_fails_on((i + 1) as nat, n as nat, s0); }
                return Err(e);
            },
        };
        out.push(Balance { holder, amount });
        p = p2;
        i = i + 1;
        assert(out@.map_values(|b: Balance| b@) =~= parse_balance_list((i - 1) as nat, s0)->Some_0.0.push((holder@, amount)));
    }
    Ok((out, p))
}

fn read_names(src: &[u8], pos: usize, n: usize) -> (r: Result<(Vec<OwnerName>, usize), ProgramError>)
    requires
        pos <= src@.len(),
    ensures
        parse_name_list(n as nat, rest_of(src@, pos as int)) matches Some((es, rest)) ==> (r matches Ok((v, p))
            && v@.map_values(|e: OwnerName| e@) == es && pos <= p <= src@.len() && rest_of(src@, p as int) == rest),
        parse_name_list(n as nat, rest_of(src@, pos as int)) is None ==> r == Err::<(Vec<OwnerName>, usize), ProgramError>(
            ProgramError::DecodeError,
        ),
{
    let ghost s0 = rest_of(src@, pos as int);
    let mut out: Vec<OwnerName> = Vec::new();
    let mut p = pos;
    let mut i: usize = 0;
    assert(out@.map_values(|e: OwnerName| e@) =~= Seq::<(Seq<u8>, Seq<u8>)>::empty());
    while i < n
        invariant
            0 <= i <= n,
            pos <= p <= src@.len(),
            s0 == rest_of(src@, pos as int),
            parse_name_list(i as nat, s0) == Some((out@.map_values(|e: OwnerName| e@), rest_of(src@, p as int))),
        decreases n - i,
    {
        let (holder, p1) = match read_identity(src, p) {
            Ok(x) => x,
            Err(e) => {
                proof { lemma_name_list_fails_on((i + 1) as nat, n as nat, s0); }
                return Err(e);
            },
        };
        let (name, p2) = match read_text(src, p1) {
            Ok(x) => x,
            Err(e) => {
                proof { lemma_name_list_fails_on((i + 1) as nat, n as nat, s0); }
                return Err(e);
            },
        };
        let ghost nm = name@;
        out.push(OwnerName { holder, name });
        p = p2;
        i = i + 1;
        assert(out@.map_values(|e: OwnerName| e@) =~= parse_name_list((i - 1) as nat, s0)->Some_0.0.push((holder@, nm)));
    }
    Ok((out, p))
}

impl Token {
    /// Whether every length and count of the token fits its 4-byte prefix.
    pub fn is_encodable(&self) -> (r: bool)
        ensures
            r == encodable(self@),
    {
        if self.name.len() > MAX_LEN || self.symbol.len() > MAX_LEN || self.balances.len() > MAX_LEN
            || self.owner_names.len() > MAX_LEN {
            return false;
        }
        let ghost nv = self@.owner_names;
        let mut i: usize = 0;
        while i < self.owner_names.len()
            invariant
                0 <= i <= self.owner_names@.len(),
                nv == self@.owner_names,
                forall|j: int| 0 <= j < i ==> (#[trigger] nv[j]).1.len() <= u32::MAX,
            decreases self.owner_names@.len() - i,
        {
            if self.owner_names[i].name.len() > MAX_LEN {
                assert(nv[i as int].1.len() > u32::MAX);
                return false;
            }
            i = i + 1;
        }
        assert forall|j: int| 0 <= j < self@.balances.len() implies (#[trigger] self@.balances[j]).0.len() == 32 by {
            assert(self@.balances[j].0 == self.balances@[j].holder.bytes@);
        }
        assert forall|j: int| 0 <= j < nv.len() implies (#[trigger] nv[j]).0.len() == 32 && nv[j].1.len() <= u32::MAX by {
            assert(nv[j].0 == self.owner_names@[j].holder.bytes@);
        }
        true
    }

    /// The token's bytes, tag first.
    pub fn encode(&self) -> (r: Vec<u8>)
        requires
            encodable(self@),
        ensures
            r@ == encode_token(self@),
    {
        let mut out: Vec<u8> = Vec::new();
        out.push(TOKEN_TAG);
        push_text(&mut out, &self.name);
        push_text(&mut out, &self.symbol);
        let supply = u64_to_le_bytes(self.total_supply);
        push_bytes(&mut out, supply.as_slice());
        out.push(self.decimals);
        push_identity(&mut out, &self.owner);
        push_len(&mut out, self.balances.len());
        let ghost bv = self@.balances;
        let ghost head = out@;
        let mut i: usize = 0;
        assert(bv.subrange(0, 0) =~= Seq::<(Seq<u8>, u64)>::empty());
        assert(out@ =~= head + enc_balance_list(bv.subrange(0, 0)));
        while i < self.balances.len()
            invariant
                0 <= i <= self.balances@.len(),
                bv == self@.balances,
                out@ == head + enc_balance_list(bv.subrange(0, i as int)),
            decreases self.balances@.len() - i,
        {
            let b = self.balances[i];
            push_identity(&mut out, &b.holder);
            let amount = u64_to_le_bytes(b.amount);
            push_bytes(&mut out, amount.as_slice());
            proof {
                assert(bv.subrange(0, i + 1).drop_last() =~= bv.subrange(0, i as int));
                assert(bv[i as int] == b@);
            }
            i = i + 1;
            assert(out@ =~= head + enc_balance_list(bv.subrange(0, i as int)));
        }
        assert(bv.subrange(0, bv.len() as int) =~= bv);
        push_len(&mut out, self.owner_names.len());
        let ghost nv = self@.owner_names;
        let ghost head2 = out@;
        let mut k: usize = 0;
        assert(nv.subrange(0, 0) =~= Seq::<(Seq<u8>, Seq<u8>)>::empty());
        assert(out@ =~= head2 + enc_name_list(nv.subrange(0, 0)));
        while k < self.owner_names.len()
            invariant
                0 <= k <= self.owner_names@.len(),
                nv == self@.owner_names,
                encodable(self@),
                out@ == head2 + enc_name_list(nv.subrange(0, k as int)),
            decreases self.owner_names@.len() - k,
        {
            let e = &self.owner_names[k];
            proof {
                assert(nv[k as int] == e@);
                assert(e.name@.len() <= u32::MAX);
            }
            push_identity(&mut out, &e.holder);
            push_text(&mut out, &e.name);
            proof {
                assert(nv.subrange(0, k + 1).drop_last() =~= nv.subrange(0, k as int));
            }
            k = k + 1;
            assert(out@ =~= head2 + enc_name_list(nv.subrange(0, k as int)));
        }
        assert(nv.subrange(0, nv.len() as int) =~= nv);
        assert(out@ =~= encode_token(self@));
        out
    }

    /// Reads the token that a buffer holds; bytes after its encoding are
    /// ignored. A buffer without the tag, or too short for what its prefixes
    /// announce, is rejected.
    pub fn decode(src: &[u8]) -> (r: Result<Token, ProgramError>)
        ensures
            parse_token(src@) matches Some(t) ==> (r matches Ok(tok) && tok@ == t),
            parse_token(src@) is None ==> r == Err::<Token, ProgramError>(ProgramError::DecodeError),
    {
        if src.len() == 0 || src[0] != TOKEN_TAG {
            return Err(ProgramError::DecodeError);
        }
        let (name, p1) = match read_text(src, 1) {
            Ok(x) => x,
            Err(e) => return Err(e),
        };
        let (symbol, p2) = match read_text(src, p1) {
            Ok(x) => x,
            Err(e) => return Err(e),
        };
        let (total_supply, p3) = match read_u64(src, p2) {
            Ok(x) => x,
            Err(e) => return Err(e),
        };
        if src.len() - p3 < 1 {
            return Err(ProgramError::DecodeError);
        }
        let decimals = src[p3];
        proof {
            let r1 = rest_of(src@, p3 as int);
            assert(r1.subrange(1, r1.len() as int) =~= rest_of(src@, p3 + 1));
            assert(r1[0] == decimals);
        }
        let (owner, p4) = match read_identity(src, p3 + 1) {
            Ok(x) => x,
            Err(e) => return Err(e),
        };
        let (nb, p5) = match read_len(src, p4) {
            Ok(x) => x,
            Err(e) => return Err(e),
        };
        let (balances, p6) = match read_balances(src, p5, nb) {
            Ok(x) => x,
            Err(e) => return Err(e),
        };
        let (nn, p7) = match read_len(src, p6) {
            Ok(x) => x,
            Err(e) => return Err(e),
        };
        let (owner_names, _p8) = match read_names(src, p7, nn) {
            Ok(x) => x,
            Err(e) => return Err(e),
        };
        Ok(Token { name, symbol, total_supply, decimals, owner, balances, owner_names })
    }
}

proof fn lemma_len_round_trip(n: nat, r: Seq<u8>)
    requires
        n <= u32::MAX,
    ensures
        parse_len(enc_len(n) + r) == Some((n, r)),
{
    lemma_auto_spec_u32_to_from_le_bytes();
    let e = enc_len(n) + r;
    assert(e.subrange(0, 4) =~= enc_len(n));
    assert(e.subrange(4, e.len() as int) =~= r);
}

proof fn lemma_text_round_trip(t: Seq<u8>, r: Seq<u8>)
    requires
        t.len() <= u32::MAX,
    ensures
        parse_text(enc_text(t) + r) == Some((t, r)),
{
    assert(enc_text(t) + r =~= enc_len(t.len()) + (t + r));
    lemma_len_round_trip(t.len(), t + r);
    assert((t + r).subrange(0, t.len() as int) =~= t);
    assert((t + r).subrange(t.len() as int, (t + r).len() as int) =~= r);
}

proof fn lemma_u64_round_trip(v: u64, r: Seq<u8>)
    ensures
        parse_u64(spec_u64_to_le_bytes(v) + r) == Some((v, r)),
{
    lemma_auto_spec_u64_to_from_le_bytes();
    let e = spec_u64_to_le_bytes(v) + r;
    assert(e.subrange(0, 8) =~= spec_u64_to_le_bytes(v));
    assert(e.subrange(8, e.len() as int) =~= r);
}

proof fn lemma_identity_round_trip(k: Seq<u8>, r: Seq<u8>)
    requires
        k.len() == 32,
    ensures
        parse_identity(k + r) == Some((k, r)),
{
    assert((k + r).subrange(0, 32) =~= k);
    assert((k + r).subrange(32, (k + r).len() as int) =~= r);
}

proof fn lemma_balance_list_round_trip(s: BalancesView, r: Seq<u8>)
    requires
        forall|i: int| 0 <= i < s.len() ==> (#[trigger] s[i]).0.len() == 32,
    ensures
        parse_balance_list(s.len(), enc_balance_list(s) + r) == Some((s, r)),
    decreases s.len(),
{
    if s.len() == 0 {
        assert(enc_balance_list(s) + r =~= r);
        assert(s =~= Seq::<(Seq<u8>, u64)>::empty());
    } else {
        let p = s.drop_last();
        let e = s.last();
        let rest = enc_balance(e) + r;
        assert(enc_balance_list(s) + r =~= enc_balance_list(p) + rest);
        assert(forall|i: int| 0 <= i < p.len() ==> p[i] == s[i]);
        lemma_balance_list_round_trip(p, rest);
        assert(s[s.len() - 1].0.len() == 32);
        assert(rest =~= e.0 + (spec_u64_to_le_bytes(e.1) + r));
        lemma_identity_round_trip(e.0, spec_u64_to_le_bytes(e.1) + r);
        lemma_u64_round_trip(e.1, r);
        assert(p.push(e) =~= s);
    }
}

proof fn lemma_name_list_round_trip(s: NamesView, r: Seq<u8>)
    requires
        forall|i: int|
            0 <= i < s.len() ==> (#[trigger] s[i]).0.len() == 32 && s[i].1.len() <= u32::MAX,
    ensures
        parse_name_list(s.len(), enc_name_list(s) + r) == Some((s, r)),
    decreases s.len(),
{
    if s.len() == 0 {
        assert(enc_name_list(s) + r =~= r);
        assert(s =~= Seq::<(Seq<u8>, Seq<u8>)>::empty());
    } else {
        let p = s.drop_last();
        let e = s.last();
        let rest = enc_name(e) + r;
        assert(enc_name_list(s) + r =~= enc_name_list(p) + rest);
        assert(forall|i: int| 0 <= i < p.len() ==> p[i] == s[i]);
        lemma_name_list_round_trip(p, rest);
        assert(s[s.len() - 1].0.len() == 32);
        assert(rest =~= e.0 + (enc_text(e.1) + r));
        lemma_identity_round_trip(e.0, enc_text(e.1) + r);
        lemma_text_round_trip(e.1, r);
        assert(p.push(e) =~= s);
    }
}

/// Decoding the encoding of any encodable token gives that token back,
/// whatever bytes follow the encoding in the buffer.
pub proof fn lemma_token_round_trip(t: TokenView, tail: Seq<u8>)
    requires
        encodable(t),
    ensures
        parse_token(encode_token(t) + tail) == Some(t),
{
    let r6 = enc_name_list(t.owner_names) + tail;
    let r5 = enc_len(t.owner_names.len()) + r6;
    let r4 = enc_balance_list(t.balances) + r5;
    let r3 = enc_len(t.balances.len()) + r4;
    let r2 = t.owner + r3;
    let r1 = seq![t.decimals] + r2;
    let rs = spec_u64_to_le_bytes(t.total_supply) + r1;
    let rsym = enc_text(t.symbol) + rs;
    let rname = enc_text(t.name) + rsym;
    let full = seq![TOKEN_TAG] + rname;
    assert(encode_token(t) + tail =~= full);
    assert(full.subrange(1, full.len() as int) =~= rname);
    lemma_text_round_trip(t.name, rsym);
    lemma_text_round_trip(t.symbol, rs);
    lemma_u64_round_trip(t.total_supply, r1);
    assert(r1.subrange(1, r1.len() as int) =~= r2);
    lemma_identity_round_trip(t.owner, r3);
    lemma_len_round_trip(t.balances.len(), r4);
    lemma_balance_list_round_trip(t.balances, r5);
    lemma_len_round_trip(t.owner_names.len(), r6);
    lemma_name_list_round_trip(t.owner_names, tail);
}

} // verus!
