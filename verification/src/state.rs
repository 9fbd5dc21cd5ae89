//! The world state (accounts and chain metadata), a set of pending account
//! changes, and the execution of transactions against the state through
//! such a set.
use vstd::prelude::*;
use crate::account::{deposit_check, withdraw_check, Account, AccountView};
use crate::crypto::Address;
use crate::error::{AccountError, StateError};
use crate::map::{
    entries_to_map, has_key, key_index, keys_distinct, lemma_entry_in_map, lemma_push_entry, ByteMap,
};
use crate::codec::{le64, push_bytes};
use crate::crypto::{bytes32_order, bytes_lt, sha256, ByteOrder};
use crate::transaction::{verify_result, Transaction, TxView};

verus! {

/// The accounts of a map of `Account`s, by their views.
pub open spec fn account_views(m: Map<Seq<u8>, Account>) -> Map<Seq<u8>, AccountView> {
    m.map_values(|a: Account| a@)
}

/// The abstract value of the world state.
pub struct StateView {
    pub accounts: Map<Seq<u8>, AccountView>,
    pub block_height: u64,
    pub last_block_hash: Seq<u8>,
}

#[derive(Debug)]
pub struct State {
    accounts: ByteMap<Account>,
    block_height: u64,
    last_block_hash: crate::crypto::Hash,
}

impl View for State {
    type V = StateView;

    closed spec fn view(&self) -> StateView {
        StateView {
            accounts: account_views(self.accounts@),
            block_height: self.block_height,
            last_block_hash: self.last_block_hash@,
        }
    }
}

/// The account that an address has for the purpose of receiving funds:
/// the one stored, or an empty one.
pub open spec fn account_or_empty(m: Map<Seq<u8>, AccountView>, k: Seq<u8>) -> AccountView {
    if m.contains_key(k) {
        m[k]
    } else {
        AccountView { balance: 0, nonce: 0 }
    }
}

proof fn lemma_views_insert(m: Map<Seq<u8>, Account>, k: Seq<u8>, a: Account)
    ensures
        account_views(m.insert(k, a)) == account_views(m).insert(k, a@),
{
    assert(account_views(m.insert(k, a)) =~= account_views(m).insert(k, a@));
}

/// Entries whose keys strictly increase.
pub open spec fn keys_sorted<V>(s: Seq<(Seq<u8>, V)>) -> bool {
    forall|i: int, j: int| 0 <= i < j < s.len() ==> bytes_lt(#[trigger] s[i].0, #[trigger] s[j].0)
}

/// The bytes of one account in the state root: the address (with its
/// eight-byte length), the balance and the nonce.
pub open spec fn account_record(k: Seq<u8>, a: AccountView) -> Seq<u8> {
    le64(32) + k + le64(a.balance) + le64(a.nonce)
}

/// The records of a list of accounts, one after another.
pub open spec fn account_records(s: Seq<(Seq<u8>, AccountView)>) -> Seq<u8>
    decreases s.len(),
{
    if s.len() == 0 {
        Seq::empty()
    } else {
        account_records(s.drop_last()) + account_record(s.last().0, s.last().1)
    }
}

/// The bytes hashed into the state root: the number of accounts, then
/// their records in address order.
pub open spec fn state_root_payload(s: Seq<(Seq<u8>, AccountView)>) -> Seq<u8> {
    le64(s.len() as u64) + account_records(s)
}

/// The views of a list of (address bytes, balance, nonce) entries.
pub open spec fn entry_views(s: Seq<(Vec<u8>, u64, u64)>) -> Seq<(Seq<u8>, u64, u64)> {
    s.map_values(|e: (Vec<u8>, u64, u64)| (e.0@, e.1, e.2))
}

/// The bincode encoding of a list of (bytes, u64, u64) entries, without its
/// leading length: each entry as its bytes' eight-byte length, the bytes,
/// and the two integers, eight little-endian bytes each.
pub open spec fn entry_list_records(s: Seq<(Seq<u8>, u64, u64)>) -> Seq<u8>
    decreases s.len(),
{
    if s.len() == 0 {
        Seq::empty()
    } else {
        entry_list_records(s.drop_last()) + le64(s.last().0.len() as u64) + s.last().0 + le64(
            s.last().1,
        ) + le64(s.last().2)
    }
}

/// The entries of the state root for a list of accounts.
pub open spec fn account_entries(s: Seq<(Seq<u8>, AccountView)>) -> Seq<(Seq<u8>, u64, u64)> {
    s.map_values(|e: (Seq<u8>, AccountView)| (e.0, e.1.balance, e.1.nonce))
}

/// With 32-byte addresses, the encoding of the account entries is the
/// accounts' records.
proof fn lemma_account_entries_records(s: Seq<(Seq<u8>, AccountView)>)
    requires
        forall|i: int| 0 <= i < s.len() ==> (#[trigger] s[i]).0.len() == 32,
    ensures
        entry_list_records(account_entries(s)) == account_records(s),
    decreases s.len(),
{
    if s.len() > 0 {
        assert(account_entries(s).drop_last() =~= account_entries(s.drop_last()));
        lemma_account_entries_records(s.drop_last());
        assert(s.last().0.len() == 32);
    }
}

/// Calls `bincode::serialize` on a slice of (bytes, balance, nonce)
/// entries. In that function's configuration (no byte limit, fixed-width
/// little-endian integers) a slice or a `Vec` is its length as eight
/// little-endian bytes followed by its elements, a tuple its elements one
/// after another, and a `u64` eight little-endian bytes; writing into a
/// `Vec` cannot fail, so the result is always `Some`.
#[verifier::external_body]
fn bincode_account_list(entries: &[(Vec<u8>, u64, u64)]) -> (res: Option<Vec<u8>>)
    ensures
        res is Some,
        res.unwrap()@ == le64(entries@.len() as u64) + entry_list_records(entry_views(entries@)),
{
    bincode::serialize(entries).ok()
}

/// The view of an account, as a function value.
pub open spec fn account_view_of() -> spec_fn(Account) -> AccountView {
    |a: Account| a@
}

/// The state root is determined by the accounts alone: two address-sorted
/// lists of the same accounts are the same list.
pub proof fn law_sorted_accounts_unique(s1: Seq<(Seq<u8>, AccountView)>, s2: Seq<(Seq<u8>, AccountView)>)
    requires
        keys_sorted(s1),
        keys_sorted(s2),
        entries_to_map(s1) == entries_to_map(s2),
    ensures
        s1 == s2,
    decreases s1.len(),
{
    lemma_sorted_distinct(s1);
    lemma_sorted_distinct(s2);
    if s1.len() == 0 {
        if s2.len() > 0 {
            lemma_entry_in_map(s2, 0);
            assert(entries_to_map(s1).contains_key(s2[0].0));
        }
        assert(s1 =~= s2);
    } else if s2.len() == 0 {
        lemma_entry_in_map(s1, 0);
        assert(entries_to_map(s2).contains_key(s1[0].0));
    } else {
        let l1 = s1.last();
        let l2 = s2.last();
        lemma_entry_in_map(s1, s1.len() - 1);
        lemma_entry_in_map(s2, s2.len() - 1);
        assert(l1.0 == l2.0) by {
            if l1.0 != l2.0 {
                // the larger of the two last keys is missing from the other list
                let i2 = key_index(s2, l1.0);
                let i1 = key_index(s1, l2.0);
                assert(entries_to_map(s2).contains_key(l1.0));
                assert(entries_to_map(s1).contains_key(l2.0));
                lemma_entry_in_map(s2, i2);
                lemma_entry_in_map(s1, i1);
                assert(i2 < s2.len() - 1);
                assert(i1 < s1.len() - 1);
                assert(bytes_lt(l1.0, l2.0));
                assert(bytes_lt(l2.0, l1.0));
                crate::crypto::lemma_bytes_lt_transitive(l1.0, l2.0, l1.0);
            }
        }
        assert(l1.1 == l2.1);
        let d1 = s1.drop_last();
        let d2 = s2.drop_last();
        assert(keys_sorted(d1));
        assert(keys_sorted(d2));
        lemma_sorted_distinct(d1);
        lemma_sorted_distinct(d2);
        crate::map::lemma_remove_entry(s1, s1.len() - 1);
        crate::map::lemma_remove_entry(s2, s2.len() - 1);
        assert(s1.remove(s1.len() - 1) =~= d1);
        assert(s2.remove(s2.len() - 1) =~= d2);
        law_sorted_accounts_unique(d1, d2);
        assert(s1 =~= d1.push(l1));
        assert(s2 =~= d2.push(l2));
    }
}

/// Sorted keys are distinct.
pub proof fn lemma_sorted_distinct<V>(s: Seq<(Seq<u8>, V)>)
    requires
        keys_sorted(s),
    ensures
        keys_distinct(s),
{
    assert forall|i: int, j: int| 0 <= i < j < s.len() implies #[trigger] s[i].0 != #[trigger] s[j].0 by {
        assert(bytes_lt(s[i].0, s[j].0));
        crate::crypto::lemma_bytes_lt_irreflexive(s[i].0);
    }
}

/// The entries of a list of (address, account) pairs.
pub open spec fn sorted_view(v: Seq<([u8; 32], Account)>) -> Seq<(Seq<u8>, Account)> {
    v.map_values(|e: ([u8; 32], Account)| (e.0@, e.1))
}

impl State {
    #[verifier::type_invariant]
    spec fn inv(&self) -> bool {
        self.accounts.wf()
    }

    /// The state before any block: no accounts, height zero, a zero hash.
    pub fn new() -> (res: State)
        ensures
            res@.accounts == Map::<Seq<u8>, AccountView>::empty(),
            res@.block_height == 0,
            res@.last_block_hash == Seq::new(32, |i: int| 0u8),
    {
        let res = State {
            accounts: ByteMap::new(),
            block_height: 0,
            last_block_hash: crate::crypto::Hash::zero(),
        };
        assert(res@.accounts =~= Map::<Seq<u8>, AccountView>::empty());
        res
    }

    pub fn block_height(&self) -> (res: u64)
        ensures
            res == self@.block_height,
    {
        self.block_height
    }

    pub fn last_block_hash(&self) -> (res: crate::crypto::Hash)
        ensures
            res@ == self@.last_block_hash,
    {
        self.last_block_hash
    }

    pub fn get_account(&self, address: &Address) -> (res: Option<&Account>)
        ensures
            res is None <==> !self@.accounts.contains_key(address@),
            res matches Some(a) ==> a@ == self@.accounts[address@],
    {
        proof {
            use_type_invariant(self);
        }
        self.accounts.get(&(address.0).0)
    }

    pub fn get_balance(&self, address: &Address) -> (res: Option<u64>)
        ensures
            res is None <==> !self@.accounts.contains_key(address@),
            res matches Some(b) ==> b == self@.accounts[address@].balance,
    {
        match self.get_account(address) {
            Some(a) => Some(a.balance()),
            None => None,
        }
    }

    pub fn get_nonce(&self, address: &Address) -> (res: Option<u64>)
        ensures
            res is None <==> !self@.accounts.contains_key(address@),
            res matches Some(n) ==> n == self@.accounts[address@].nonce,
    {
        match self.get_account(address) {
            Some(a) => Some(a.nonce()),
            None => None,
        }
    }

    pub(crate) fn set_account(&mut self, address: Address, account: Account)
        ensures
            final(self)@ == (StateView {
                accounts: old(self)@.accounts.insert(address@, account@),
                ..old(self)@
            }),
    {
        proof {
            use_type_invariant(&*self);
            lemma_views_insert(self.accounts@, address@, account);
        }
        let mut m = ByteMap::new();
        std::mem::swap(&mut m, &mut self.accounts);
        m.insert((address.0).0, account);
        self.accounts = m;
    }

    pub(crate) fn set_block_metadata(&mut self, height: u64, hash: crate::crypto::Hash)
        ensures
            final(self)@ == (StateView {
                block_height: height,
                last_block_hash: hash@,
                ..old(self)@
            }),
    {
        proof {
            use_type_invariant(&*self);
        }
        self.block_height = height;
        self.last_block_hash = hash;
    }

    /// Credits an address directly (genesis allocations, miner rewards); an
    /// address without an account gets one.
    pub fn credit(&mut self, address: Address, amount: u64) -> (res: Result<(), StateError>)
        ensures
            ({
                let cur = account_or_empty(old(self)@.accounts, address@);
                match deposit_check(cur.balance, amount) {
                    Ok(()) => res is Ok && final(self)@ == (StateView {
                        accounts: old(self)@.accounts.insert(
                            address@,
                            AccountView { balance: (cur.balance + amount) as u64, nonce: cur.nonce },
                        ),
                        ..old(self)@
                    }),
                    Err(e) => res == Err::<(), StateError>(StateError::Account(e)) && final(self)@
                        == old(self)@,
                }
            }),
    {
        proof {
            use_type_invariant(&*self);
        }
        let mut account = match self.accounts.get(&(address.0).0) {
            Some(a) => *a,
            None => Account::empty(),
        };
        match account.deposit(amount) {
            Ok(()) => {},
            Err(e) => {
                return Err(StateError::Account(e));
            },
        }
        self.set_account(address, account);
        Ok(())
    }

    /// A deterministic hash of every account: the accounts sorted by
    /// address, each with its balance and nonce.
    pub fn state_root(&self) -> (res: crate::crypto::Hash)
        ensures
            exists|s: Seq<(Seq<u8>, AccountView)>|
                keys_sorted(s) && entries_to_map(s) == self@.accounts && res@ == sha256(
                    state_root_payload(s),
                ),
    {
        proof {
            use_type_invariant(self);
        }
        let ghost es = self.accounts.entries();
        let n = self.accounts.len();
        let mut sorted: Vec<([u8; 32], Account)> = Vec::new();
        let mut i: usize = 0;
        proof {
            crate::map::lemma_empty_entries(Seq::<(Seq<u8>, Account)>::empty());
            crate::map::lemma_empty_entries(es.take(0));
            assert(es.take(0) =~= Seq::<(Seq<u8>, Account)>::empty());
            assert(sorted_view(sorted@) =~= Seq::<(Seq<u8>, Account)>::empty());
        }
        while i < n
            invariant
                es == self.accounts.entries(),
                keys_distinct(es),
                n == es.len(),
                i <= n,
                keys_sorted(sorted_view(sorted@)),
                keys_distinct(sorted_view(sorted@)),
                entries_to_map(sorted_view(sorted@)) == entries_to_map(es.take(i as int)),
            decreases n - i,
        {
            let k = self.accounts.key_at(i);
            let a = *self.accounts.value_at(i);
            let ghost sv = sorted_view(sorted@);
            proof {
                let t = es.take(i as int);
                assert(es.take(i + 1) =~= t.push(es[i as int]));
                assert(keys_distinct(t));
                assert(!has_key(t, k@)) by {
                    if has_key(t, k@) {
                        let j = key_index(t, k@);
                        assert(es[j].0 != es[i as int].0);
                    }
                }
                lemma_push_entry(t, k@, a);
                assert(!has_key(sv, k@)) by {
                    if has_key(sv, k@) {
                        let j = key_index(sv, k@);
                        lemma_entry_in_map(sv, j);
                        assert(entries_to_map(t).contains_key(k@));
                    }
                }
            }
            let mut p: usize = 0;
            while p < sorted.len() && bytes32_order(&sorted[p].0, &k) == ByteOrder::Less
                invariant
                    sv == sorted_view(sorted@),
                    p <= sv.len(),
                    forall|j: int| 0 <= j < p ==> bytes_lt(#[trigger] sv[j].0, k@),
                decreases sv.len() - p,
            {
                p += 1;
            }
            proof {
                if p < sv.len() {
                    assert(!bytes_lt(sv[p as int].0, k@));
                    assert(sv[p as int].0 != k@);
                    crate::crypto::lemma_bytes_lt_total(sv[p as int].0, k@);
                    assert(bytes_lt(k@, sv[p as int].0));
                }
                crate::map::lemma_insert_entry(sv, p as int, k@, a);
                let nv = sv.insert(p as int, (k@, a));
                assert forall|x: int, y: int| 0 <= x < y < nv.len() implies bytes_lt(
                    #[trigger] nv[x].0,
                    #[trigger] nv[y].0,
                ) by {
                    if x < p && y < p {
                        assert(nv[x] == sv[x] && nv[y] == sv[y]);
                    } else if x < p && y == p {
                        assert(nv[x] == sv[x]);
                    } else if x < p {
                        assert(nv[x] == sv[x] && nv[y] == sv[y - 1]);
                        assert(bytes_lt(sv[x].0, k@));
                        if y - 1 == p {
                            crate::crypto::lemma_bytes_lt_transitive(sv[x].0, k@, sv[y - 1].0);
                        } else {
                            assert(bytes_lt(sv[p as int].0, sv[y - 1].0));
                            crate::crypto::lemma_bytes_lt_transitive(k@, sv[p as int].0, sv[y - 1].0);
                            crate::crypto::lemma_bytes_lt_transitive(sv[x].0, k@, sv[y - 1].0);
                        }
                    } else if x == p {
                        assert(nv[y] == sv[y - 1]);
                        if y - 1 > p {
                            assert(bytes_lt(sv[p as int].0, sv[y - 1].0));
                            crate::crypto::lemma_bytes_lt_transitive(k@, sv[p as int].0, sv[y - 1].0);
                        }
                    } else {
                        assert(nv[x] == sv[x - 1] && nv[y] == sv[y - 1]);
                    }
                }
            }
            sorted.insert(p, (k, a));
            assert(sorted_view(sorted@) =~= sv.insert(p as int, (k@, a)));
            i += 1;
        }
        assert(es.take(n as int) =~= es);
        let ghost sv = sorted_view(sorted@);
        let ghost s = crate::map::entries_map_values(sv, account_view_of());
        proof {
            crate::map::lemma_entries_map_values(sv, account_view_of());
            assert(entries_to_map(sv).map_values(account_view_of()) =~= account_views(self.accounts@));
            assert forall|x: int, y: int| 0 <= x < y < s.len() implies bytes_lt(
                #[trigger] s[x].0,
                #[trigger] s[y].0,
            ) by {
                assert(sv[x].0 == s[x].0);
                assert(sv[y].0 == s[y].0);
            }
        }
        let mut list: Vec<(Vec<u8>, u64, u64)> = Vec::new();
        let mut j: usize = 0;
        assert(s.take(0) =~= Seq::<(Seq<u8>, AccountView)>::empty());
        while j < sorted.len()
            invariant
                sv == sorted_view(sorted@),
                s == crate::map::entries_map_values(sv, account_view_of()),
                j <= sorted@.len(),
                entry_views(list@) == account_entries(s.take(j as int)),
                forall|x: int| 0 <= x < s.len() ==> (#[trigger] s[x]).0.len() == 32,
            decreases sorted@.len() - j,
        {
            let (k, a) = sorted[j];
            let mut kb: Vec<u8> = Vec::new();
            push_bytes(&mut kb, k.as_slice());
            assert(kb@ =~= k@);
            let ghost old_list = list@;
            list.push((kb, a.balance(), a.nonce()));
            proof {
                assert(s[j as int] == (k@, a@));
                assert(list@ == old_list.push((kb, a@.balance, a@.nonce)));
                assert(entry_views(list@) =~= entry_views(old_list).push((k@, a@.balance, a@.nonce)));
                assert(s.take(j + 1) =~= s.take(j as int).push(s[j as int]));
                assert(entry_views(list@) =~= account_entries(s.take(j + 1)));
            }
            j += 1;
        }
        assert(s.take(j as int) =~= s);
        proof {
            lemma_account_entries_records(s);
            assert(list@.len() == s.len());
        }
        let out = bincode_account_list(list.as_slice()).unwrap();
        crate::crypto::Hash::digest(out.as_slice())
    }
}

impl Clone for State {
    fn clone(&self) -> (res: State)
        ensures
            res@ == self@,
    {
        proof {
            use_type_invariant(self);
        }
        State {
            accounts: self.accounts.clone(),
            block_height: self.block_height,
            last_block_hash: self.last_block_hash,
        }
    }
}

impl Default for State {
    fn default() -> (res: State)
        ensures
            res@.accounts == Map::<Seq<u8>, AccountView>::empty(),
            res@.block_height == 0,
            res@.last_block_hash == Seq::new(32, |i: int| 0u8),
    {
        State::new()
    }
}

/// Account changes that are not yet written into a `State`.
#[derive(Debug)]
pub struct StateDiff {
    accounts: ByteMap<Account>,
}

impl View for StateDiff {
    type V = Map<Seq<u8>, AccountView>;

    closed spec fn view(&self) -> Map<Seq<u8>, AccountView> {
        account_views(self.accounts@)
    }
}

impl StateDiff {
    #[verifier::type_invariant]
    spec fn inv(&self) -> bool {
        self.accounts.wf()
    }

    pub fn new() -> (res: StateDiff)
        ensures
            res@ == Map::<Seq<u8>, AccountView>::empty(),
    {
        let res = StateDiff { accounts: ByteMap::new() };
        assert(res@ =~= Map::<Seq<u8>, AccountView>::empty());
        res
    }

    pub fn get(&self, address: &Address) -> (res: Option<&Account>)
        ensures
            res is None <==> !self@.contains_key(address@),
            res matches Some(a) ==> a@ == self@[address@],
    {
        proof {
            use_type_invariant(self);
        }
        self.accounts.get(&(address.0).0)
    }

    pub fn insert(&mut self, address: Address, account: Account)
        ensures
            final(self)@ == old(self)@.insert(address@, account@),
    {
        proof {
            use_type_invariant(&*self);
            lemma_views_insert(self.accounts@, address@, account);
        }
        let mut m = ByteMap::new();
        std::mem::swap(&mut m, &mut self.accounts);
        m.insert((address.0).0, account);
        self.accounts = m;
    }

    pub fn is_empty(&self) -> (res: bool)
        ensures
            res == (self@.dom() == Set::<Seq<u8>>::empty()),
    {
        proof {
            use_type_invariant(self);
        }
        let res = self.accounts.is_empty();
        proof {
            if res {
                assert(self@.dom() =~= Set::<Seq<u8>>::empty());
            } else {
                lemma_entry_in_map(self.accounts.entries(), 0);
                assert(self@.dom().contains(self.accounts.entries()[0].0));
            }
        }
        res
    }

    /// Writes every change into `state`; accounts that the diff does not
    /// mention stay as they were.
    pub fn commit_into(self, state: &mut State)
        ensures
            final(state)@ == (StateView {
                accounts: old(state)@.accounts.union_prefer_right(self@),
                ..old(state)@
            }),
    {
        proof {
            use_type_invariant(&self);
        }
        let ghost s = self.accounts.entries();
        let n = self.accounts.len();
        assert(s.subrange(0, 0) =~= Seq::<(Seq<u8>, Account)>::empty());
        proof {
            crate::map::lemma_empty_entries(s.subrange(0, 0));
            assert(old(state)@.accounts.union_prefer_right(account_views(entries_to_map(s.subrange(0, 0)))) =~= old(state)@.accounts);
        }
        let mut i: usize = 0;
        while i < n
            invariant
                n == s.len(),
                s == self.accounts.entries(),
                keys_distinct(s),
                i <= n,
                state@ == (StateView {
                    accounts: old(state)@.accounts.union_prefer_right(
                        account_views(entries_to_map(s.subrange(0, i as int))),
                    ),
                    ..old(state)@
                }),
            decreases n - i,
        {
            let k = self.accounts.key_at(i);
            let a = *self.accounts.value_at(i);
            state.set_account(Address(crate::crypto::PublicKey(k)), a);
            proof {
                let p = s.subrange(0, i as int);
                assert(s.subrange(0, i + 1) =~= p.push(s[i as int]));
                assert(keys_distinct(p));
                assert(!has_key(p, s[i as int].0)) by {
                    if has_key(p, s[i as int].0) {
                        let j = choose|j: int| 0 <= j < p.len() && #[trigger] p[j].0 == s[i as int].0;
                        assert(s[j].0 != s[i as int].0);
                    }
                }
                lemma_push_entry(p, s[i as int].0, s[i as int].1);
                lemma_views_insert(entries_to_map(p), s[i as int].0, s[i as int].1);
                assert(state@.accounts =~= old(state)@.accounts.union_prefer_right(
                    account_views(entries_to_map(s.subrange(0, i + 1))),
                ));
            }
            i += 1;
        }
        assert(s.subrange(0, n as int) =~= s);
    }
}

impl Clone for StateDiff {
    fn clone(&self) -> (res: StateDiff)
        ensures
            res@ == self@,
    {
        proof {
            use_type_invariant(self);
        }
        StateDiff { accounts: self.accounts.clone() }
    }
}

impl Default for StateDiff {
    fn default() -> (res: StateDiff)
        ensures
            res@ == Map::<Seq<u8>, AccountView>::empty(),
    {
        StateDiff::new()
    }
}

/// The account of `k` seen through pending changes: the diff first, then
/// the committed state.
pub open spec fn lookup(
    diff: Map<Seq<u8>, AccountView>,
    state: Map<Seq<u8>, AccountView>,
    k: Seq<u8>,
) -> Option<AccountView> {
    if diff.contains_key(k) {
        Some(diff[k])
    } else if state.contains_key(k) {
        Some(state[k])
    } else {
        None
    }
}

/// `lookup`, with an empty account where there is none.
pub open spec fn lookup_or_empty(
    diff: Map<Seq<u8>, AccountView>,
    state: Map<Seq<u8>, AccountView>,
    k: Seq<u8>,
) -> AccountView {
    match lookup(diff, state, k) {
        Some(a) => a,
        None => AccountView { balance: 0, nonce: 0 },
    }
}

/// What validating transaction `t` against the pending view gives: a valid
/// signature, an existing sender whose nonce is the transaction's, funds for
/// amount and fee, and room in the receiver's balance.
pub open spec fn validate_spec(
    diff: Map<Seq<u8>, AccountView>,
    state: Map<Seq<u8>, AccountView>,
    t: TxView,
) -> Result<(), StateError> {
    match verify_result(t) {
        Err(e) => Err(StateError::Transaction(e)),
        Ok(()) => match lookup(diff, state, t.sender@) {
            None => Err(StateError::AccountNotFound),
            Some(s) => if s.nonce != t.nonce {
                Err(StateError::InvalidNonce { expected: s.nonce, got: t.nonce })
            } else {
                match withdraw_check(s.balance, t.amount, t.fee) {
                    Err(e) => Err(StateError::Account(e)),
                    Ok(()) => match deposit_check(
                        lookup_or_empty(diff, state, t.receiver@).balance,
                        t.amount,
                    ) {
                        Err(e) => Err(StateError::Account(e)),
                        Ok(()) => Ok(()),
                    },
                }
            },
        },
    }
}

#[verifier::opaque]
/// What executing transaction `t` gives: the fee it pays and the pending
/// changes after it (the sender pays amount and fee and advances its nonce,
/// the receiver gets the amount), or the error, with no change.
pub open spec fn execute_spec(
    diff: Map<Seq<u8>, AccountView>,
    state: Map<Seq<u8>, AccountView>,
    t: TxView,
) -> Result<(u64, Map<Seq<u8>, AccountView>), StateError> {
    match validate_spec(diff, state, t) {
        Err(e) => Err(e),
        Ok(()) => {
            let s = lookup_or_empty(diff, state, t.sender@);
            let r = lookup_or_empty(diff, state, t.receiver@);
            if s.nonce == u64::MAX {
                Err(StateError::Account(AccountError::NonceOverflow))
            } else {
                Ok(
                    (
                        t.fee,
                        diff.insert(
                            t.sender@,
                            AccountView {
                                balance: (s.balance - t.amount - t.fee) as u64,
                                nonce: (s.nonce + 1) as u64,
                            },
                        ).insert(
                            t.receiver@,
                            AccountView { balance: (r.balance + t.amount) as u64, nonce: r.nonce },
                        ),
                    ),
                )
            }
        },
    }
}

/// Executing `txs` in order from pending changes `diff`, adding their fees to
/// `total`: the outcome and the pending changes at the end (those of the
/// transactions before a failing one stay).
pub open spec fn execute_all_spec(
    diff: Map<Seq<u8>, AccountView>,
    state: Map<Seq<u8>, AccountView>,
    txs: Seq<TxView>,
    total: u64,
) -> (Result<u64, StateError>, Map<Seq<u8>, AccountView>)
    decreases txs.len(),
{
    if txs.len() == 0 {
        (Ok(total), diff)
    } else {
        match execute_spec(diff, state, txs[0]) {
            Err(e) => (Err(e), diff),
            Ok((fee, d)) => if total + fee > u64::MAX {
                (Err(StateError::FeeOverflow), d)
            } else {
                execute_all_spec(d, state, txs.drop_first(), (total + fee) as u64)
            },
        }
    }
}

/// Executing a transaction moves funds without creating any: what the
/// sender and the receiver hold together drops by exactly the fee, and the
/// sender's nonce advances by one.
pub proof fn law_execution_conserves_funds(
    diff: Map<Seq<u8>, AccountView>,
    state: Map<Seq<u8>, AccountView>,
    t: TxView,
)
    requires
        execute_spec(diff, state, t) is Ok,
    ensures
        ({
            let d = execute_spec(diff, state, t).unwrap().1;
            let s0 = lookup_or_empty(diff, state, t.sender@);
            let r0 = lookup_or_empty(diff, state, t.receiver@);
            &&& t.sender@ != t.receiver@
            &&& d[t.sender@].balance + d[t.receiver@].balance + t.fee == s0.balance + r0.balance
            &&& d[t.sender@].nonce == s0.nonce + 1
            &&& d[t.receiver@].nonce == r0.nonce
            &&& execute_spec(diff, state, t).unwrap().0 == t.fee
        }),
{
    reveal(execute_spec);
}

/// The sum of the fees of `txs`.
pub open spec fn fee_sum(txs: Seq<TxView>) -> int
    decreases txs.len(),
{
    if txs.len() == 0 {
        0
    } else {
        txs[0].fee + fee_sum(txs.drop_first())
    }
}

/// The total that executing a list of transactions reports is the running
/// total plus the sum of their fees, and it fits in a `u64`; a failure is
/// never a block error.
pub proof fn law_execute_all_total_is_fee_sum(
    diff: Map<Seq<u8>, AccountView>,
    state: Map<Seq<u8>, AccountView>,
    txs: Seq<TxView>,
    total: u64,
)
    ensures
        execute_all_spec(diff, state, txs, total).0 matches Ok(f) ==> f == total + fee_sum(txs),
        !(execute_all_spec(diff, state, txs, total).0 matches Err(StateError::Block(_))),
    decreases txs.len(),
{
    reveal(execute_spec);
    if txs.len() > 0 {
        match execute_spec(diff, state, txs[0]) {
            Err(_) => {},
            Ok((fee, d)) => {
                if total + fee <= u64::MAX {
                    law_execute_all_total_is_fee_sum(d, state, txs.drop_first(), (total + fee) as u64);
                }
            },
        }
    }
}

/// A transaction executes only with exactly its sender's current nonce, and
/// moves that nonce one past it; so the same transaction executed again
/// right after is refused (no replay).
pub proof fn law_execute_takes_exact_nonce(
    diff: Map<Seq<u8>, AccountView>,
    state: Map<Seq<u8>, AccountView>,
    t: TxView,
)
    ensures
        execute_spec(diff, state, t) is Ok ==> lookup(diff, state, t.sender@) is Some
            && lookup(diff, state, t.sender@).unwrap().nonce == t.nonce,
        execute_spec(diff, state, t) is Ok ==> lookup(
            execute_spec(diff, state, t).unwrap().1,
            state,
            t.sender@,
        ) == Some(
            AccountView {
                balance: (lookup(diff, state, t.sender@).unwrap().balance - t.amount - t.fee) as u64,
                nonce: (t.nonce + 1) as u64,
            },
        ),
        execute_spec(diff, state, t) is Ok ==> execute_spec(
            execute_spec(diff, state, t).unwrap().1,
            state,
            t,
        ) is Err,
{
    reveal(execute_spec);
    if execute_spec(diff, state, t) is Ok {
        let d = execute_spec(diff, state, t).unwrap().1;
        assert(t.sender@ != t.receiver@);
        assert(d.contains_key(t.sender@));
        assert(d[t.sender@].nonce == t.nonce + 1);
    }
}

/// Executing transactions never writes the pending change of an address
/// that none of them sends from or to.
pub proof fn lemma_execute_all_untouched(
    diff: Map<Seq<u8>, AccountView>,
    state: Map<Seq<u8>, AccountView>,
    txs: Seq<TxView>,
    total: u64,
    k: Seq<u8>,
)
    requires
        forall|i: int| 0 <= i < txs.len() ==> k != (#[trigger] txs[i]).sender@ && k != txs[i].receiver@,
    ensures
        execute_all_spec(diff, state, txs, total).1.contains_key(k) == diff.contains_key(k),
        diff.contains_key(k) ==> execute_all_spec(diff, state, txs, total).1[k] == diff[k],
    decreases txs.len(),
{
    reveal(execute_spec);
    if txs.len() > 0 {
        match execute_spec(diff, state, txs[0]) {
            Err(_) => {},
            Ok((fee, d)) => {
                assert(k != txs[0].sender@ && k != txs[0].receiver@);
                if total + fee <= u64::MAX {
                    assert forall|i: int| 0 <= i < txs.drop_first().len() implies k != (
                    #[trigger] txs.drop_first()[i]).sender@ && k != txs.drop_first()[i].receiver@ by {
                        assert(txs.drop_first()[i] == txs[i + 1]);
                    }
                    lemma_execute_all_untouched(d, state, txs.drop_first(), (total + fee) as u64, k);
                }
            },
        }
    }
}

/// The views of a sequence of transactions.
pub open spec fn tx_views(txs: Seq<Transaction>) -> Seq<TxView> {
    txs.map_values(|t: Transaction| t@)
}

/// Executes transactions against a state without changing it: every change
/// goes into a `StateDiff`.
pub struct ExecutionContext<'a> {
    state: &'a State,
    diff: StateDiff,
}

impl<'a> ExecutionContext<'a> {
    /// The committed state read through.
    pub closed spec fn base(&self) -> StateView {
        self.state@
    }

    /// The pending changes.
    pub closed spec fn changes(&self) -> Map<Seq<u8>, AccountView> {
        self.diff@
    }

    pub fn new(state: &'a State) -> (res: ExecutionContext<'a>)
        ensures
            res.base() == state@,
            res.changes() == Map::<Seq<u8>, AccountView>::empty(),
    {
        ExecutionContext { state, diff: StateDiff::new() }
    }

    /// The account of `address` with the pending changes applied.
    pub fn get_account(&self, address: &Address) -> (res: Option<Account>)
        ensures
            res is None <==> lookup(self.changes(), self.base().accounts, address@) is None,
            res matches Some(a) ==> lookup(self.changes(), self.base().accounts, address@) == Some(
                a@,
            ),
    {
        match self.diff.get(address) {
            Some(a) => Some(*a),
            None => match self.state.get_account(address) {
                Some(a) => Some(*a),
                None => None,
            },
        }
    }

    fn get_required_account(&self, address: &Address) -> (res: Result<Account, StateError>)
        ensures
            res is Err <==> lookup(self.changes(), self.base().accounts, address@) is None,
            res matches Err(e) ==> e == StateError::AccountNotFound,
            res matches Ok(a) ==> lookup(self.changes(), self.base().accounts, address@) == Some(
                a@,
            ),
    {
        match self.get_account(address) {
            Some(a) => Ok(a),
            None => Err(StateError::AccountNotFound),
        }
    }

    fn get_account_or_empty(&self, address: &Address) -> (res: Account)
        ensures
            res@ == lookup_or_empty(self.changes(), self.base().accounts, address@),
    {
        match self.get_account(address) {
            Some(a) => a,
            None => Account::empty(),
        }
    }

    pub fn set_account(&mut self, address: Address, account: Account)
        ensures
            final(self).base() == old(self).base(),
            final(self).changes() == old(self).changes().insert(address@, account@),
    {
        self.diff.insert(address, account);
    }

    /// Credits `amount` to `address` (an empty account if it has none).
    pub fn credit(&mut self, address: Address, amount: u64) -> (res: Result<(), StateError>)
        ensures
            final(self).base() == old(self).base(),
            ({
                let cur = lookup_or_empty(old(self).changes(), old(self).base().accounts, address@);
                match deposit_check(cur.balance, amount) {
                    Ok(()) => res is Ok && final(self).changes() == old(self).changes().insert(
                        address@,
                        AccountView { balance: (cur.balance + amount) as u64, nonce: cur.nonce },
                    ),
                    Err(e) => res == Err::<(), StateError>(StateError::Account(e))
                        && final(self).changes() == old(self).changes(),
                }
            }),
    {
        let mut account = self.get_account_or_empty(&address);
        match account.deposit(amount) {
            Ok(()) => {},
            Err(e) => {
                return Err(StateError::Account(e));
            },
        }
        self.set_account(address, account);
        Ok(())
    }

    fn validate_transaction(&self, tx: &Transaction) -> (res: Result<(), StateError>)
        ensures
            res == validate_spec(self.changes(), self.base().accounts, tx@),
    {
        match tx.verify() {
            Ok(()) => {},
            Err(e) => {
                return Err(StateError::Transaction(e));
            },
        }
        let sender_address = Address::from(*tx.sender());
        let receiver_address = Address::from(*tx.receiver());
        let sender = self.get_required_account(&sender_address)?;
        if sender.nonce() != tx.nonce() {
            return Err(StateError::InvalidNonce { expected: sender.nonce(), got: tx.nonce() });
        }
        match sender.can_withdraw(tx.amount(), tx.fee()) {
            Ok(()) => {},
            Err(e) => {
                return Err(StateError::Account(e));
            },
        }
        let receiver = self.get_account_or_empty(&receiver_address);
        match receiver.can_deposit(tx.amount()) {
            Ok(()) => {},
            Err(e) => {
                return Err(StateError::Account(e));
            },
        }
        Ok(())
    }

    /// Validates and applies one transaction to the pending changes and
    /// returns its fee; on an error nothing changes.
    pub fn execute_transaction(&mut self, tx: &Transaction) -> (res: Result<u64, StateError>)
        ensures
            final(self).base() == old(self).base(),
            match execute_spec(old(self).changes(), old(self).base().accounts, tx@) {
                Ok((fee, d)) => res == Ok::<u64, StateError>(fee) && final(self).changes() == d,
                Err(e) => res == Err::<u64, StateError>(e) && final(self).changes() == old(
                    self,
                ).changes(),
            },
    {
        reveal(execute_spec);
        self.validate_transaction(tx)?;
        let sender_address = Address::from(*tx.sender());
        let receiver_address = Address::from(*tx.receiver());
        let mut sender = self.get_required_account(&sender_address)?;
        let mut receiver = self.get_account_or_empty(&receiver_address);
        match sender.withdraw(tx.amount(), tx.fee()) {
            Ok(()) => {},
            Err(e) => {
                return Err(StateError::Account(e));
            },
        }
        match sender.increment_nonce() {
            Ok(()) => {},
            Err(e) => {
                return Err(StateError::Account(e));
            },
        }
        match receiver.deposit(tx.amount()) {
            Ok(()) => {},
            Err(e) => {
                return Err(StateError::Account(e));
            },
        }
        self.set_account(sender_address, sender);
        self.set_account(receiver_address, receiver);
        Ok(tx.fee())
    }

    /// Executes `transactions` in order and returns the sum of their fees;
    /// it stops at the first error (the changes of the transactions before
    /// it stay pending).
    pub fn execute_transactions(&mut self, transactions: &[Transaction]) -> (res: Result<
        u64,
        StateError,
    >)
        ensures
            final(self).base() == old(self).base(),
            (res, final(self).changes()) == execute_all_spec(
                old(self).changes(),
                old(self).base().accounts,
                tx_views(transactions@),
                0,
            ),
    {
        let ghost txs = tx_views(transactions@);
        let mut total_fee: u64 = 0;
        let mut i: usize = 0;
        assert(txs.subrange(0, txs.len() as int) =~= txs);
        while i < transactions.len()
            invariant
                i <= transactions@.len(),
                txs == tx_views(transactions@),
                self.base() == old(self).base(),
                execute_all_spec(old(self).changes(), old(self).base().accounts, txs, 0)
                    == execute_all_spec(
                    self.changes(),
                    self.base().accounts,
                    txs.subrange(i as int, txs.len() as int),
                    total_fee,
                ),
            decreases transactions@.len() - i,
        {
            let ghost rest = txs.subrange(i as int, txs.len() as int);
            assert(rest[0] == transactions@[i as int]@);
            assert(rest.drop_first() =~= txs.subrange(i + 1, txs.len() as int));
            let fee = self.execute_transaction(&transactions[i])?;
            total_fee = match total_fee.checked_add(fee) {
                Some(t) => t,
                None => {
                    return Err(StateError::FeeOverflow);
                },
            };
            i += 1;
        }
        assert(txs.subrange(i as int, txs.len() as int) =~= Seq::<TxView>::empty());
        Ok(total_fee)
    }

    /// The pending changes, for committing.
    pub fn into_diff(self) -> (res: StateDiff)
        ensures
            res@ == self.changes(),
    {
        self.diff
    }
}

} // verus!
