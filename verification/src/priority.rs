//! The priority of executable transactions, and the fee-first selection
//! that merges the nonce-ordered queues of all senders.
use vstd::prelude::*;
use core::cmp::Ordering;
use crate::crypto::{bytes32_order, bytes_lt, Address, ByteOrder};
use vstd::std_specs::cmp::PartialOrdSpecImpl;

verus! {

/// The abstract value of a priority entry.
pub struct EntryView {
    pub fee: u64,
    pub sender: Seq<u8>,
    pub nonce: u64,
    pub hash: Seq<u8>,
}

/// The priority order: by fee, then by sender, then by nonce, then by
/// transaction hash. `entry_gt(a, b)` holds when `a` comes before `b`.
pub open spec fn entry_gt(a: EntryView, b: EntryView) -> bool {
    ||| a.fee > b.fee
    ||| a.fee == b.fee && bytes_lt(b.sender, a.sender)
    ||| a.fee == b.fee && a.sender == b.sender && a.nonce > b.nonce
    ||| a.fee == b.fee && a.sender == b.sender && a.nonce == b.nonce && bytes_lt(b.hash, a.hash)
}

/// A candidate for selection: the front transaction of one sender.
#[derive(Debug, Clone, Copy, PartialEq, Eq, Ord)]
pub struct PriorityEntry {
    fee: u64,
    sender: Address,
    nonce: u64,
    tx_hash: crate::crypto::Hash,
}

impl View for PriorityEntry {
    type V = EntryView;

    closed spec fn view(&self) -> EntryView {
        EntryView { fee: self.fee, sender: self.sender@, nonce: self.nonce, hash: self.tx_hash@ }
    }
}

impl PriorityEntry {
    pub fn new(fee: u64, sender: Address, nonce: u64, tx_hash: crate::crypto::Hash) -> (res:
        PriorityEntry)
        ensures
            res@ == (EntryView { fee, sender: sender@, nonce, hash: tx_hash@ }),
            res.sender() == sender,
            res.tx_hash() == tx_hash,
    {
        PriorityEntry { fee, sender, nonce, tx_hash }
    }

    pub fn fee(&self) -> (res: u64)
        ensures
            res == self@.fee,
    {
        self.fee
    }

    #[verifier::when_used_as_spec(spec_sender)]
    pub fn sender(&self) -> (res: Address)
        ensures
            res@ == self@.sender,
            res == self.spec_sender(),
    {
        self.sender
    }

    pub closed spec fn spec_sender(&self) -> Address {
        self.sender
    }

    pub fn nonce(&self) -> (res: u64)
        ensures
            res == self@.nonce,
    {
        self.nonce
    }

    #[verifier::when_used_as_spec(spec_tx_hash)]
    pub fn tx_hash(&self) -> (res: crate::crypto::Hash)
        ensures
            res@ == self@.hash,
            res == self.spec_tx_hash(),
    {
        self.tx_hash
    }

    pub closed spec fn spec_tx_hash(&self) -> crate::crypto::Hash {
        self.tx_hash
    }

    /// Whether this entry comes before `other` in the priority order (the
    /// order that the derived `Ord` gives, greatest first).
    pub fn outranks(&self, other: &PriorityEntry) -> (res: bool)
        ensures
            res == entry_gt(self@, other@),
    {
        if self.fee != other.fee {
            return self.fee > other.fee;
        }
        match bytes32_order(&(self.sender.0).0, &(other.sender.0).0) {
            ByteOrder::Greater => {
                return true;
            },
            ByteOrder::Less => {
                return false;
            },
            ByteOrder::Equal => {},
        }
        if self.nonce != other.nonce {
            return self.nonce > other.nonce;
        }
        match bytes32_order(&self.tx_hash.0, &other.tx_hash.0) {
            ByteOrder::Greater => true,
            _ => false,
        }
    }
}

/// The comparison of two entries in the priority order: `Greater` when
/// `a` comes first, `Less` when `b` does, `Equal` otherwise (the same
/// entry).
pub open spec fn entry_order(a: EntryView, b: EntryView) -> Option<Ordering> {
    if entry_gt(a, b) {
        Some(Ordering::Greater)
    } else if entry_gt(b, a) {
        Some(Ordering::Less)
    } else {
        Some(Ordering::Equal)
    }
}

impl PartialOrd for PriorityEntry {
    /// Compares by fee, then sender, then nonce, then transaction hash, as
    /// the derived `Ord` does.
    fn partial_cmp(&self, other: &PriorityEntry) -> (res: Option<Ordering>) {
        if self.outranks(other) {
            Some(Ordering::Greater)
        } else if other.outranks(self) {
            Some(Ordering::Less)
        } else {
            Some(Ordering::Equal)
        }
    }
}

impl PartialOrdSpecImpl for PriorityEntry {
    open spec fn obeys_partial_cmp_spec() -> bool {
        true
    }

    open spec fn partial_cmp_spec(&self, other: &PriorityEntry) -> Option<Ordering> {
        entry_order(self@, other@)
    }
}

/// The priority order is a strict total order on entries: no entry comes
/// before itself, of two entries at most one comes first, two different
/// entries are ordered one way or the other, and a higher fee always comes
/// first.
pub proof fn law_priority_order_total(a: EntryView, b: EntryView)
    requires
        a.sender.len() == b.sender.len(),
        a.hash.len() == b.hash.len(),
    ensures
        !entry_gt(a, a),
        !(entry_gt(a, b) && entry_gt(b, a)),
        a != b ==> entry_gt(a, b) || entry_gt(b, a),
        entry_order(a, b) == Some(Ordering::Equal) <==> a == b,
        a.fee > b.fee ==> entry_order(a, b) == Some(Ordering::Greater),
{
    crate::crypto::lemma_bytes_lt_irreflexive(a.sender);
    crate::crypto::lemma_bytes_lt_irreflexive(a.hash);
    if bytes_lt(a.sender, b.sender) && bytes_lt(b.sender, a.sender) {
        crate::crypto::lemma_bytes_lt_transitive(a.sender, b.sender, a.sender);
    }
    if bytes_lt(a.hash, b.hash) && bytes_lt(b.hash, a.hash) {
        crate::crypto::lemma_bytes_lt_transitive(a.hash, b.hash, a.hash);
    }
    if a != b {
        if a.sender != b.sender {
            crate::crypto::lemma_bytes_lt_total(a.sender, b.sender);
        }
        if a.hash != b.hash {
            crate::crypto::lemma_bytes_lt_total(a.hash, b.hash);
        }
    }
}

/// The priority order is transitive.
pub proof fn law_priority_order_transitive(a: EntryView, b: EntryView, c: EntryView)
    requires
        entry_gt(a, b),
        entry_gt(b, c),
    ensures
        entry_gt(a, c),
{
    if a.fee == b.fee && b.fee == c.fee {
        if bytes_lt(b.sender, a.sender) && bytes_lt(c.sender, b.sender) {
            crate::crypto::lemma_bytes_lt_transitive(c.sender, b.sender, a.sender);
        }
        if a.sender == b.sender && b.sender == c.sender && a.nonce == b.nonce && b.nonce == c.nonce {
            crate::crypto::lemma_bytes_lt_transitive(c.hash, b.hash, a.hash);
        }
    }
}

/// Among the first `n` lists, the position of the one whose head comes
/// first in the priority order (`None` when all of them are empty).
pub open spec fn best_head(lists: Seq<Seq<EntryView>>, n: nat) -> Option<int>
    decreases n,
{
    if n == 0 {
        None
    } else {
        let i = n - 1;
        let b = best_head(lists, (n - 1) as nat);
        if lists[i].len() == 0 {
            b
        } else {
            match b {
                None => Some(i),
                Some(j) => if entry_gt(lists[i][0], lists[j][0]) {
                    Some(i)
                } else {
                    Some(j)
                },
            }
        }
    }
}

/// Fee-first selection of at most `limit` entries from nonce-ordered
/// lists: each step takes the head that comes first in the priority order
/// and makes the next entry of that list available.
pub open spec fn select_entries(lists: Seq<Seq<EntryView>>, limit: nat) -> Seq<EntryView>
    decreases limit,
{
    if limit == 0 {
        Seq::empty()
    } else {
        match best_head(lists, lists.len()) {
            None => Seq::empty(),
            Some(j) => seq![lists[j][0]] + select_entries(
                lists.update(j, lists[j].drop_first()),
                (limit - 1) as nat,
            ),
        }
    }
}

/// The best head is a non-empty list among the first `n`.
pub proof fn lemma_best_head_valid(lists: Seq<Seq<EntryView>>, n: nat)
    requires
        n <= lists.len(),
    ensures
        best_head(lists, n) matches Some(j) ==> 0 <= j < n && lists[j].len() > 0,
        best_head(lists, n) is None ==> forall|i: int| 0 <= i < n ==> #[trigger] lists[i].len() == 0,
    decreases n,
{
    if n > 0 {
        lemma_best_head_valid(lists, (n - 1) as nat);
    }
}

/// Whether an entry was sent by `sender`.
pub open spec fn sent_by(sender: Seq<u8>) -> spec_fn(EntryView) -> bool {
    |e: EntryView| e.sender == sender
}

/// The entries of `s` that a given sender sent, in order.
pub open spec fn entries_of(s: Seq<EntryView>, sender: Seq<u8>) -> Seq<EntryView> {
    s.filter(sent_by(sender))
}

/// The lists are per sender: every entry of list `i` was sent by `keys[i]`,
/// and no two lists have the same sender.
pub open spec fn lists_per_sender(lists: Seq<Seq<EntryView>>, keys: Seq<Seq<u8>>) -> bool {
    &&& lists.len() == keys.len()
    &&& forall|i: int, k: int|
        0 <= i < lists.len() && 0 <= k < lists[i].len() ==> #[trigger] lists[i][k].sender == keys[i]
    &&& forall|i: int, j: int| 0 <= i < j < keys.len() ==> #[trigger] keys[i] != #[trigger] keys[j]
}

/// Selection keeps each sender's order: what it takes from one sender is
/// the beginning of that sender's list, in that order. With lists in
/// nonce order, no transaction is selected before a lower nonce of its
/// sender.
pub proof fn law_selection_takes_prefix_of_each_sender(
    lists: Seq<Seq<EntryView>>,
    keys: Seq<Seq<u8>>,
    limit: nat,
    i: int,
)
    requires
        lists_per_sender(lists, keys),
        0 <= i < lists.len(),
    ensures
        entries_of(select_entries(lists, limit), keys[i]).len() <= lists[i].len(),
        entries_of(select_entries(lists, limit), keys[i]) == lists[i].take(
            entries_of(select_entries(lists, limit), keys[i]).len() as int,
        ),
    decreases limit,
{
    let out = select_entries(lists, limit);
    let p = sent_by(keys[i]);
    if limit == 0 || best_head(lists, lists.len()) is None {
        assert(out =~= Seq::<EntryView>::empty());
        assert(out.filter(p) =~= Seq::<EntryView>::empty()) by {
            reveal(Seq::filter);
        }
        assert(lists[i].take(0) =~= Seq::<EntryView>::empty());
    } else {
        let j = best_head(lists, lists.len()).unwrap();
        lemma_best_head_valid(lists, lists.len());
        let h = lists[j][0];
        let lists2 = lists.update(j, lists[j].drop_first());
        assert(lists_per_sender(lists2, keys)) by {
            assert forall|a: int, k: int|
                0 <= a < lists2.len() && 0 <= k < lists2[a].len() implies #[trigger] lists2[a][k].sender
                == keys[a] by {
                if a == j {
                    assert(lists2[a][k] == lists[j][k + 1]);
                }
            }
        }
        law_selection_takes_prefix_of_each_sender(lists2, keys, (limit - 1) as nat, i);
        let rest = select_entries(lists2, (limit - 1) as nat);
        assert(out == seq![h] + rest);
        Seq::filter_distributes_over_add(seq![h], rest, p);
        let hs = seq![h];
        assert(hs.drop_last() =~= Seq::<EntryView>::empty());
        assert(hs.drop_last().filter(p) =~= Seq::<EntryView>::empty()) by {
            reveal(Seq::filter);
        }
        assert(h.sender == keys[j]);
        if j == i {
            assert(hs.filter(p) =~= hs) by {
                reveal(Seq::filter);
            }
            let r = rest.filter(p);
            assert(r == lists2[i].take(r.len() as int));
            assert(hs + r =~= lists[i].take(r.len() + 1 as int));
        } else {
            assert(keys[j] != keys[i]) by {
                if j < i {
                } else {
                }
            }
            assert(hs.filter(p) =~= Seq::<EntryView>::empty()) by {
                reveal(Seq::filter);
            }
            assert(lists2[i] == lists[i]);
            assert(Seq::<EntryView>::empty() + rest.filter(p) =~= rest.filter(p));
        }
    }
}

/// The number of entries over all lists.
pub open spec fn total_len(lists: Seq<Seq<EntryView>>) -> nat
    decreases lists.len(),
{
    if lists.len() == 0 {
        0
    } else {
        total_len(lists.drop_last()) + lists.last().len()
    }
}

/// Replacing one list changes the total by the difference of lengths.
proof fn lemma_total_len_update(lists: Seq<Seq<EntryView>>, j: int, l: Seq<EntryView>)
    requires
        0 <= j < lists.len(),
    ensures
        total_len(lists.update(j, l)) == total_len(lists) - lists[j].len() + l.len(),
    decreases lists.len(),
{
    let u = lists.update(j, l);
    if j == lists.len() - 1 {
        assert(u.drop_last() =~= lists.drop_last());
    } else {
        assert(u.drop_last() =~= lists.drop_last().update(j, l));
        lemma_total_len_update(lists.drop_last(), j, l);
    }
}

/// Lists that are all empty hold no entries.
proof fn lemma_total_len_empty(lists: Seq<Seq<EntryView>>)
    requires
        forall|i: int| 0 <= i < lists.len() ==> #[trigger] lists[i].len() == 0,
    ensures
        total_len(lists) == 0,
    decreases lists.len(),
{
    if lists.len() > 0 {
        lemma_total_len_empty(lists.drop_last());
    }
}

/// Selection takes as many entries as it may: `limit`, or every entry
/// when the lists hold fewer.
pub proof fn law_selection_length(lists: Seq<Seq<EntryView>>, limit: nat)
    ensures
        select_entries(lists, limit).len() == if limit < total_len(lists) {
            limit
        } else {
            total_len(lists)
        },
    decreases limit,
{
    if limit > 0 {
        lemma_best_head_valid(lists, lists.len());
        match best_head(lists, lists.len()) {
            None => {
                lemma_total_len_empty(lists);
            },
            Some(j) => {
                lemma_total_len_update(lists, j, lists[j].drop_first());
                law_selection_length(lists.update(j, lists[j].drop_first()), (limit - 1) as nat);
            },
        }
    }
}

/// The best head comes first among all heads: no other list's head is
/// before it in the priority order.
proof fn lemma_best_head_is_first(lists: Seq<Seq<EntryView>>, n: nat)
    requires
        n <= lists.len(),
    ensures
        best_head(lists, n) matches Some(j) ==> forall|i: int|
            0 <= i < n && lists[i].len() > 0 ==> !entry_gt(#[trigger] lists[i][0], lists[j][0]),
    decreases n,
{
    if n > 0 {
        let k = n - 1;
        lemma_best_head_is_first(lists, (n - 1) as nat);
        lemma_best_head_valid(lists, (n - 1) as nat);
        if lists[k].len() > 0 {
            crate::crypto::lemma_bytes_lt_irreflexive(lists[k][0].sender);
            crate::crypto::lemma_bytes_lt_irreflexive(lists[k][0].hash);
            match best_head(lists, (n - 1) as nat) {
                None => {},
                Some(jb) => {
                    if entry_gt(lists[k][0], lists[jb][0]) {
                        assert forall|i: int| 0 <= i < n && lists[i].len() > 0 implies !entry_gt(
                            #[trigger] lists[i][0],
                            lists[k][0],
                        ) by {
                            if i < k && entry_gt(lists[i][0], lists[k][0]) {
                                law_priority_order_transitive(lists[i][0], lists[k][0], lists[jb][0]);
                            }
                        }
                    }
                },
            }
        }
    }
}

/// Each step of selection takes the head that comes first: the first entry
/// selected is the head of some list, and no list's head comes before it
/// in the priority order.
pub proof fn law_selection_takes_first_head(lists: Seq<Seq<EntryView>>, limit: nat)
    requires
        limit > 0,
        exists|i: int| 0 <= i < lists.len() && #[trigger] lists[i].len() > 0,
    ensures
        select_entries(lists, limit).len() > 0,
        exists|j: int| 0 <= j < lists.len() && lists[j].len() > 0 && select_entries(lists, limit)[0] == #[trigger] lists[j][0],
        forall|i: int|
            0 <= i < lists.len() && lists[i].len() > 0 ==> !entry_gt(
                #[trigger] lists[i][0],
                select_entries(lists, limit)[0],
            ),
{
    lemma_best_head_valid(lists, lists.len());
    lemma_best_head_is_first(lists, lists.len());
    let j = best_head(lists, lists.len()).unwrap();
    assert(select_entries(lists, limit)[0] == lists[j][0]);
}

} // verus!
