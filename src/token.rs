use vstd::prelude::*;
use crate::auth::require_signer;
use crate::error::ProgramError;
use crate::identity::Identity;

verus! {

/// Abstract balance table: (holder, amount) pairs in stored order.
pub type BalancesView = Seq<(Seq<u8>, u64)>;

/// Abstract name table: (holder, display name) pairs in stored order.
pub type NamesView = Seq<(Seq<u8>, Seq<u8>)>;

/// `i` is the first position of a table whose key is `k`.
pub open spec fn is_first<V>(s: Seq<(Seq<u8>, V)>, k: Seq<u8>, i: int) -> bool {
    &&& 0 <= i < s.len()
    &&& s[i].0 == k
    &&& forall|j: int| 0 <= j < i ==> s[j].0 != k
}

/// Whether some entry of a table has key `k`.
pub open spec fn has_key<V>(s: Seq<(Seq<u8>, V)>, k: Seq<u8>) -> bool {
    exists|i: int| 0 <= i < s.len() && s[i].0 == k
}

/// The first position whose key is `k` (meaningful when `has_key(s, k)`).
pub open spec fn first_index<V>(s: Seq<(Seq<u8>, V)>, k: Seq<u8>) -> int {
    choose|i: int| is_first(s, k, i)
}

/// Keys of a table are pairwise distinct.
pub open spec fn keys_unique<V>(s: Seq<(Seq<u8>, V)>) -> bool {
    forall|i: int, j: int| 0 <= i < s.len() && 0 <= j < s.len() && i != j ==> s[i].0 != s[j].0
}

/// The sum of all amounts of a balance table.
pub open spec fn total_balance(s: BalancesView) -> int
    decreases s.len(),
{
    if s.len() == 0 {
        0
    } else {
        total_balance(s.drop_last()) + s.last().1
    }
}

/// The balance table after `from` gives `amount` to `to`, in the absence of
/// any error: `from` is debited in place, and `to` is credited in place or
/// appended when it has no entry yet.
pub open spec fn transferred(s: BalancesView, from: Seq<u8>, to: Seq<u8>, amount: u64) -> BalancesView {
    let i = first_index(s, from);
    let debited = s.update(i, (from, (s[i].1 - amount) as u64));
    if has_key(s, to) {
        let j = first_index(s, to);
        debited.update(j, (to, (s[j].1 + amount) as u64))
    } else {
        debited.push((to, amount))
    }
}

/// What a transfer does to a token: the first failing check, in order
/// (signature, distinct accounts, known sender, sufficient balance, credit
/// overflow), or the token with `transferred` balances.
pub open spec fn transfer_result(t: TokenView, from: Seq<u8>, from_signed: bool, to: Seq<u8>, amount: u64) -> Result<TokenView, ProgramError> {
    let s = t.balances;
    if !from_signed {
        Err(ProgramError::MissingSignature)
    } else if from == to {
        Err(ProgramError::SameAccount)
    } else if !has_key(s, from) {
        Err(ProgramError::InvalidAccountData)
    } else if s[first_index(s, from)].1 < amount {
        Err(ProgramError::InsufficientBalance)
    } else if has_key(s, to) && s[first_index(s, to)].1 + amount > u64::MAX {
        Err(ProgramError::InvalidAccountData)
    } else {
        Ok(TokenView { balances: transferred(s, from, to, amount), ..t })
    }
}

/// What a name annotation does to a token.
pub open spec fn rename_result(t: TokenView, holder: Seq<u8>, holder_signed: bool, name: Seq<u8>) -> Result<TokenView, ProgramError> {
    if !holder_signed {
        Err(ProgramError::MissingSignature)
    } else {
        Ok(TokenView { owner_names: renamed(t.owner_names, holder, name), ..t })
    }
}

/// The token that creation makes.
pub open spec fn created(name: Seq<u8>, symbol: Seq<u8>, total_supply: u64, decimals: u8, owner: Seq<u8>) -> TokenView {
    TokenView {
        name,
        symbol,
        total_supply,
        decimals,
        owner,
        balances: seq![(owner, total_supply)],
        owner_names: Seq::empty(),
    }
}

/// The name table after `holder` is annotated with `name`.
pub open spec fn renamed(s: NamesView, holder: Seq<u8>, name: Seq<u8>) -> NamesView {
    if has_key(s, holder) {
        s.update(first_index(s, holder), (holder, name))
    } else {
        s.push((holder, name))
    }
}

/// One holder's balance.
#[derive(Clone, Copy, Debug)]
pub struct Balance {
    pub holder: Identity,
    pub amount: u64,
}

impl View for Balance {
    type V = (Seq<u8>, u64);

    open spec fn view(&self) -> (Seq<u8>, u64) {
        (self.holder@, self.amount)
    }
}

/// A display-name annotation of one holder.
#[derive(Debug)]
pub struct OwnerName {
    pub holder: Identity,
    pub name: Vec<u8>,
}

impl View for OwnerName {
    type V = (Seq<u8>, Seq<u8>);

    open spec fn view(&self) -> (Seq<u8>, Seq<u8>) {
        (self.holder@, self.name@)
    }
}

/// The abstract value of a token.
pub struct TokenView {
    pub name: Seq<u8>,
    pub symbol: Seq<u8>,
    pub total_supply: u64,
    pub decimals: u8,
    pub owner: Seq<u8>,
    pub balances: BalancesView,
    pub owner_names: NamesView,
}

/// A token: metadata fixed at creation, a balance table and a name table.
/// Text fields are held as their bytes.
#[derive(Debug)]
pub struct Token {
    pub name: Vec<u8>,
    pub symbol: Vec<u8>,
    pub total_supply: u64,
    pub decimals: u8,
    pub owner: Identity,
    pub balances: Vec<Balance>,
    pub owner_names: Vec<OwnerName>,
}

impl View for Token {
    type V = TokenView;

    open spec fn view(&self) -> TokenView {
        TokenView {
            name: self.name@,
            symbol: self.symbol@,
            total_supply: self.total_supply,
            decimals: self.decimals,
            owner: self.owner@,
            balances: self.balances@.map_values(|b: Balance| b@),
            owner_names: self.owner_names@.map_values(|n: OwnerName| n@),
        }
    }
}

impl TokenView {
    /// Keys of both tables are unique, and the balances never exceed the supply.
    pub open spec fn wf(self) -> bool {
        &&& keys_unique(self.balances)
        &&& keys_unique(self.owner_names)
        &&& total_balance(self.balances) <= self.total_supply
    }
}

/// Finds the first balance entry of `holder`.
fn find_balance(balances: &Vec<Balance>, holder: &Identity) -> (r: Option<usize>)
    ensures
        r matches Some(i) ==> is_first(balances@.map_values(|b: Balance| b@), holder@, i as int),
        r is None ==> !has_key(balances@.map_values(|b: Balance| b@), holder@),
{
    let ghost s = balances@.map_values(|b: Balance| b@);
    let mut i: usize = 0;
    while i < balances.len()
        invariant
            0 <= i <= balances@.len(),
            s == balances@.map_values(|b: Balance| b@),
            forall|j: int| 0 <= j < i ==> s[j].0 != holder@,
        decreases balances@.len() - i,
    {
        if balances[i].holder.same_as(holder) {
            return Some(i);
        }
        i = i + 1;
    }
    None
}

/// Finds the first name entry of `holder`.
fn find_name(names: &Vec<OwnerName>, holder: &Identity) -> (r: Option<usize>)
    ensures
        r matches Some(i) ==> is_first(names@.map_values(|n: OwnerName| n@), holder@, i as int),
        r is None ==> !has_key(names@.map_values(|n: OwnerName| n@), holder@),
{
    let ghost s = names@.map_values(|n: OwnerName| n@);
    let mut i: usize = 0;
    while i < names.len()
        invariant
            0 <= i <= names@.len(),
            s == names@.map_values(|n: OwnerName| n@),
            forall|j: int| 0 <= j < i ==> s[j].0 != holder@,
        decreases names@.len() - i,
    {
        if names[i].holder.same_as(holder) {
            return Some(i);
        }
        i = i + 1;
    }
    None
}

/// A first position is the one that `first_index` picks.
proof fn lemma_first_index<V>(s: Seq<(Seq<u8>, V)>, k: Seq<u8>, i: int)
    requires
        is_first(s, k, i),
    ensures
        first_index(s, k) == i,
        has_key(s, k),
{
    let c = first_index(s, k);
    assert(is_first(s, k, c));
    if c < i {
        assert(s[c].0 != k);
    } else if i < c {
        assert(s[i].0 != k);
    }
}

proof fn lemma_has_key_first<V>(s: Seq<(Seq<u8>, V)>, k: Seq<u8>)
    requires
        has_key(s, k),
    ensures
        is_first(s, k, first_index(s, k)),
    decreases s.len(),
{
    let p = s.drop_last();
    assert(forall|j: int| 0 <= j < p.len() ==> p[j] == s[j]);
    if has_key(p, k) {
        lemma_has_key_first(p, k);
        let i = first_index(p, k);
        assert(is_first(s, k, i));
        lemma_first_index(s, k, i);
    } else {
        let n = s.len() - 1;
        let w = choose|i: int| 0 <= i < s.len() && s[i].0 == k;
        if w < n {
            assert(p[w].0 == k);
        }
        assert forall|j: int| 0 <= j < n implies s[j].0 != k by {
            assert(p[j].0 != k);
        }
        assert(is_first(s, k, n));
        lemma_first_index(s, k, n);
    }
}

proof fn lemma_total_update(s: BalancesView, i: int, e: (Seq<u8>, u64))
    requires
        0 <= i < s.len(),
    ensures
        total_balance(s.update(i, e)) == total_balance(s) - s[i].1 + e.1,
    decreases s.len(),
{
    let u = s.update(i, e);
    if i == s.len() - 1 {
        assert(u.drop_last() =~= s.drop_last());
    } else {
        lemma_total_update(s.drop_last(), i, e);
        assert(u.drop_last() =~= s.drop_last().update(i, e));
    }
}

proof fn lemma_total_push(s: BalancesView, e: (Seq<u8>, u64))
    ensures
        total_balance(s.push(e)) == total_balance(s) + e.1,
{
    assert(s.push(e).drop_last() =~= s);
}

proof fn lemma_entry_le_total(s: BalancesView, i: int)
    requires
        0 <= i < s.len(),
    ensures
        s[i].1 <= total_balance(s),
        total_balance(s) >= 0,
    decreases s.len(),
{
    lemma_total_nonneg(s.drop_last());
    if i < s.len() - 1 {
        lemma_entry_le_total(s.drop_last(), i);
    }
}

proof fn lemma_total_nonneg(s: BalancesView)
    ensures
        total_balance(s) >= 0,
    decreases s.len(),
{
    if s.len() > 0 {
        lemma_total_nonneg(s.drop_last());
    }
}

proof fn lemma_pair_le_total(s: BalancesView, i: int, j: int)
    requires
        0 <= i < s.len(),
        0 <= j < s.len(),
        i != j,
    ensures
        s[i].1 + s[j].1 <= total_balance(s),
    decreases s.len(),
{
    let n = s.len() - 1;
    if i == n {
        lemma_entry_le_total(s.drop_last(), j);
    } else if j == n {
        lemma_entry_le_total(s.drop_last(), i);
    } else {
        lemma_pair_le_total(s.drop_last(), i, j);
    }
}

/// On a well-formed token, a transfer that passes the signature, distinct
/// account, known sender and sufficient balance checks never meets a credit
/// overflow; it keeps the sum of all balances exactly, so no value is minted
/// or burnt, and the token stays well formed. Any sequence of transfers
/// therefore keeps every balance within the supply.
pub proof fn lemma_transfer_conserves(t: TokenView, from: Seq<u8>, to: Seq<u8>, amount: u64)
    requires
        t.wf(),
        from != to,
        has_key(t.balances, from),
        t.balances[first_index(t.balances, from)].1 >= amount,
    ensures
        !(has_key(t.balances, to) && t.balances[first_index(t.balances, to)].1 + amount > u64::MAX),
        total_balance(transferred(t.balances, from, to, amount)) == total_balance(t.balances),
        (TokenView { balances: transferred(t.balances, from, to, amount), ..t }).wf(),
{
    let s = t.balances;
    let i = first_index(s, from);
    lemma_has_key_first(s, from);
    let debited = s.update(i, (from, (s[i].1 - amount) as u64));
    lemma_total_update(s, i, (from, (s[i].1 - amount) as u64));
    let r = transferred(s, from, to, amount);
    if has_key(s, to) {
        let j = first_index(s, to);
        lemma_has_key_first(s, to);
        lemma_pair_le_total(s, i, j);
        lemma_total_update(debited, j, (to, (s[j].1 + amount) as u64));
        assert(keys_unique(r)) by {
            assert forall|a: int, b: int| 0 <= a < r.len() && 0 <= b < r.len() && a != b implies r[a].0 != r[b].0 by {
                assert(r[a].0 == s[a].0);
                assert(r[b].0 == s[b].0);
            }
        }
    } else {
        lemma_total_push(debited, (to, amount));
        assert(keys_unique(r)) by {
            assert forall|a: int, b: int| 0 <= a < r.len() && 0 <= b < r.len() && a != b implies r[a].0 != r[b].0 by {
                if a < s.len() {
                    assert(r[a].0 == s[a].0);
                }
                if b < s.len() {
                    assert(r[b].0 == s[b].0);
                }
            }
        }
    }
}

impl Token {
    /// A freshly created token: the owner holds the whole supply and no
    /// holder is annotated yet.
    pub fn new(name: Vec<u8>, symbol: Vec<u8>, total_supply: u64, decimals: u8, owner: Identity) -> (r: Token)
        ensures
            r@ == created(name@, symbol@, total_supply, decimals, owner@),
            r@.wf(),
    {
        let mut balances: Vec<Balance> = Vec::new();
        balances.push(Balance { holder: owner, amount: total_supply });
        let r = Token { name, symbol, total_supply, decimals, owner, balances, owner_names: Vec::new() };
        assert(r@.balances =~= seq![(owner@, total_supply)]);
        assert(r@.owner_names =~= Seq::<(Seq<u8>, Seq<u8>)>::empty());
        assert(r@.balances.drop_last() =~= Seq::<(Seq<u8>, u64)>::empty());
        assert(total_balance(Seq::<(Seq<u8>, u64)>::empty()) == 0);
        assert(total_balance(r@.balances) == total_supply);
        assert(r@ == created(name@, symbol@, total_supply, decimals, owner@));
        r
    }

    /// Moves `amount` from `from` to `to`. Fails, leaving the token as it
    /// was, when `from` did not sign, when `from` and `to` are the same, when
    /// `from` has no entry, when its balance is below `amount`, or when the
    /// credit would overflow (a table that breaks the supply bound).
    pub fn transfer(&mut self, from: &Identity, from_signed: bool, to: &Identity, amount: u64) -> (r: Result<(), ProgramError>)
        ensures
            match transfer_result(old(self)@, from@, from_signed, to@, amount) {
                Ok(t) => r is Ok && final(self)@ == t,
                Err(e) => r == Err::<(), ProgramError>(e) && final(self)@ == old(self)@,
            },
    {
        match require_signer(from_signed) {
            Ok(()) => {},
            Err(e) => return Err(e),
        }
        if from.same_as(to) {
            return Err(ProgramError::SameAccount);
        }
        let ghost s = self@.balances;
        let ghost t0 = self@;
        let i = match find_balance(&self.balances, from) {
            Some(i) => i,
            None => return Err(ProgramError::InvalidAccountData),
        };
        proof { lemma_first_index(s, from@, i as int); }
        let from_balance = self.balances[i].amount;
        if from_balance < amount {
            return Err(ProgramError::InsufficientBalance);
        }
        let target = find_balance(&self.balances, to);
        match target {
            Some(j) => {
                proof { lemma_first_index(s, to@, j as int); }
                let to_balance = self.balances[j].amount;
                if to_balance > u64::MAX - amount {
                    return Err(ProgramError::InvalidAccountData);
                }
                self.balances.set(i, Balance { holder: *from, amount: from_balance - amount });
                self.balances.set(j, Balance { holder: *to, amount: to_balance + amount });
            },
            None => {
                self.balances.set(i, Balance { holder: *from, amount: from_balance - amount });
                self.balances.push(Balance { holder: *to, amount });
            },
        }
        assert(self@.balances =~= transferred(s, from@, to@, amount));
        assert(self@ == transfer_result(t0, from@, from_signed, to@, amount)->Ok_0);
        Ok(())
    }

    /// Records `name` as the display name of `holder`, replacing an earlier
    /// one. Only the holder's own signature is asked for.
    pub fn set_owner_name(&mut self, holder: &Identity, holder_signed: bool, name: Vec<u8>) -> (r: Result<(), ProgramError>)
        ensures
            match rename_result(old(self)@, holder@, holder_signed, name@) {
                Ok(t) => r is Ok && final(self)@ == t,
                Err(e) => r == Err::<(), ProgramError>(e) && final(self)@ == old(self)@,
            },
    {
        match require_signer(holder_signed) {
            Ok(()) => {},
            Err(e) => return Err(e),
        }
        let ghost s = self@.owner_names;
        let ghost nm = name@;
        let ghost t0 = self@;
        match find_name(&self.owner_names, holder) {
            Some(i) => {
                proof { lemma_first_index(s, holder@, i as int); }
                self.owner_names.set(i, OwnerName { holder: *holder, name });
            },
            None => {
                self.owner_names.push(OwnerName { holder: *holder, name });
            },
        }
        assert(self@.owner_names =~= renamed(s, holder@, nm));
        assert(self@ == rename_result(t0, holder@, holder_signed, nm)->Ok_0);
        Ok(())
    }
}

} // verus!
