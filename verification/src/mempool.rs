//! The pool of transactions waiting to be mined: every pending transaction
//! by id, one nonce-ordered queue per sender, and the funds that each
//! sender's queued transactions reserve.
use vstd::prelude::*;
use crate::account::AccountView;
use crate::account_queue::{queue_push, AccountQueue, QueueView};
use crate::crypto::Address;
use crate::error::{AccountError, TransactionError};
use crate::map::{
    entries_insert, entries_remove, entries_to_map, has_key, key_index, keys_distinct, lemma_entry_in_map,
    ByteMap,
};
use crate::priority::{best_head, select_entries, EntryView, PriorityEntry};
use crate::state::State;
use crate::transaction::{tx_id_of, verify_result, Transaction, TxView};

verus! {

/// The abstract value of a mempool, with every map as its entries in order.
pub struct MempoolView {
    /// Pending transactions by id.
    pub pending: Seq<(Seq<u8>, Transaction)>,
    /// The queue of each sender.
    pub accounts: Seq<(Seq<u8>, QueueView)>,
    /// The funds reserved by each sender's queued transactions.
    pub balances: Seq<(Seq<u8>, u64)>,
}

/// The queue views of a list of (sender, queue) entries.
pub open spec fn queue_views(s: Seq<(Seq<u8>, AccountQueue)>) -> Seq<(Seq<u8>, QueueView)> {
    s.map_values(|e: (Seq<u8>, AccountQueue)| (e.0, e.1@))
}

/// What `add_transaction` does: its outcome, and the pool after it.
pub open spec fn add_spec(
    m: MempoolView,
    accounts: Map<Seq<u8>, AccountView>,
    tx: Transaction,
) -> (Result<(), TransactionError>, MempoolView) {
    let t = tx@;
    let sender = t.sender@;
    match verify_result(t) {
        Err(e) => (Err(e), m),
        Ok(()) => if !accounts.contains_key(sender) {
            (Err(TransactionError::Account(AccountError::AccountNotFound)), m)
        } else {
            let acct = accounts[sender];
            let queues = entries_to_map(m.accounts);
            let expected = if queues.contains_key(sender) {
                queues[sender].next
            } else {
                acct.nonce
            };
            let reserved_map = entries_to_map(m.balances);
            let reserved: u64 = if reserved_map.contains_key(sender) {
                reserved_map[sender]
            } else {
                0
            };
            if t.nonce != expected {
                (Err(TransactionError::InvalidNonce { expected, got: t.nonce }), m)
            } else if t.amount + t.fee > u64::MAX {
                (Err(TransactionError::Account(AccountError::CostOverflow)), m)
            } else if reserved + t.amount + t.fee > u64::MAX {
                (Err(TransactionError::Account(AccountError::CostOverflow)), m)
            } else if acct.balance < reserved + t.amount + t.fee {
                (
                    Err(
                        TransactionError::Account(
                            AccountError::InsufficientBalance {
                                required: (reserved + t.amount + t.fee) as u64,
                                available: acct.balance,
                            },
                        ),
                    ),
                    m,
                )
            } else {
                let id = tx_id_of(t);
                let q = if queues.contains_key(sender) {
                    queues[sender]
                } else {
                    QueueView { next: acct.nonce, txs: Seq::empty() }
                };
                let (r, q2) = queue_push(q, expected, id);
                let m2 = MempoolView {
                    pending: entries_insert(m.pending, id, tx),
                    accounts: entries_insert(m.accounts, sender, q2),
                    balances: m.balances,
                };
                match r {
                    Err(e) => (Err(e), m2),
                    Ok(()) => (
                        Ok(()),
                        MempoolView {
                            balances: entries_insert(
                                m.balances,
                                sender,
                                (reserved + t.amount + t.fee) as u64,
                            ),
                            ..m2
                        },
                    ),
                }
            }
        },
    }
}

/// A sender without a queue in the pool is accepted only at its account's
/// nonce; and a verified transaction at that nonce whose cost the balance
/// covers (with nothing reserved yet) is accepted.
pub proof fn law_add_first_takes_account_nonce(
    m: MempoolView,
    accounts: Map<Seq<u8>, AccountView>,
    tx: Transaction,
)
    requires
        !entries_to_map(m.accounts).contains_key(tx@.sender@),
    ensures
        add_spec(m, accounts, tx).0 is Ok ==> accounts.contains_key(tx@.sender@) && tx@.nonce
            == accounts[tx@.sender@].nonce,
        verify_result(tx@) is Ok && accounts.contains_key(tx@.sender@) && tx@.nonce
            == accounts[tx@.sender@].nonce && tx@.nonce < u64::MAX
            && !entries_to_map(m.balances).contains_key(tx@.sender@) && tx@.amount + tx@.fee
            <= accounts[tx@.sender@].balance ==> add_spec(m, accounts, tx).0 is Ok,
{
}

/// A sender that already has a queue is accepted only at the queue's next
/// nonce.
pub proof fn law_add_takes_queue_next(m: MempoolView, accounts: Map<Seq<u8>, AccountView>, tx: Transaction)
    requires
        entries_to_map(m.accounts).contains_key(tx@.sender@),
    ensures
        add_spec(m, accounts, tx).0 is Ok ==> tx@.nonce == entries_to_map(m.accounts)[tx@.sender@].next,
{
}

/// Every candidate that selection ranks carries its pending transaction's
/// fee (not its amount, nor its cost).
pub proof fn law_candidate_fee_is_tx_fee(m: MempoolView, i: int, k: int)
    requires
        0 <= i < candidate_lists(m).len(),
        0 <= k < candidate_lists(m)[i].len(),
    ensures
        candidate_lists(m)[i][k].fee == entries_to_map(m.pending)[candidate_lists(m)[i][k].hash]@.fee,
        candidate_lists(m)[i][k].sender == m.accounts[i].0,
        entries_to_map(m.pending).contains_key(candidate_lists(m)[i][k].hash),
{
    lemma_ready_prefix_pending(m.accounts[i].1.txs, entries_to_map(m.pending));
}

/// The first transaction selected pays a fee at least as high as the front
/// transaction of every sender whose front transaction is pending.
pub proof fn law_first_selected_has_top_fee(m: MempoolView, limit: nat, i: int)
    requires
        limit > 0,
        0 <= i < m.accounts.len(),
        m.accounts[i].1.txs.len() > 0,
        entries_to_map(m.pending).contains_key(m.accounts[i].1.txs[0].1),
    ensures
        prioritized_spec(m, limit).len() > 0,
        prioritized_spec(m, limit)[0]@.fee >= entries_to_map(m.pending)[m.accounts[i].1.txs[0].1]@.fee,
{
    let pm = entries_to_map(m.pending);
    let lists = candidate_lists(m);
    let txs = m.accounts[i].1.txs;
    assert(ready_prefix(txs, pm)[0] == txs[0]);
    assert(lists[i].len() > 0);
    assert(lists[i][0].fee == pm[txs[0].1]@.fee);
    crate::priority::law_selection_takes_first_head(lists, limit);
    let first = select_entries(lists, limit)[0];
    let j = choose|j: int| 0 <= j < lists.len() && lists[j].len() > 0 && first == #[trigger] lists[j][0];
    law_candidate_fee_is_tx_fee(m, j, 0);
    assert(!crate::priority::entry_gt(lists[i][0], first));
    reveal(prioritized_spec);
}

/// The beginning of a queue whose transactions are all pending: selection
/// of a sender stops at the first queued hash that is not pending.
pub open spec fn ready_prefix(txs: Seq<(u64, Seq<u8>)>, pending: Map<Seq<u8>, Transaction>) -> Seq<
    (u64, Seq<u8>),
>
    decreases txs.len(),
{
    if txs.len() == 0 || !pending.contains_key(txs[0].1) {
        Seq::empty()
    } else {
        seq![txs[0]] + ready_prefix(txs.drop_first(), pending)
    }
}

/// The priority entry of a queued transaction of `sender`.
pub open spec fn candidate(sender: Seq<u8>, p: (u64, Seq<u8>), pending: Map<Seq<u8>, Transaction>) -> EntryView {
    EntryView { fee: pending[p.1]@.fee, sender, nonce: p.0, hash: p.1 }
}

/// The entries that a sender offers to selection, in nonce order.
pub open spec fn account_candidates(
    sender: Seq<u8>,
    txs: Seq<(u64, Seq<u8>)>,
    pending: Map<Seq<u8>, Transaction>,
) -> Seq<EntryView> {
    ready_prefix(txs, pending).map_values(|p: (u64, Seq<u8>)| candidate(sender, p, pending))
}

/// The candidate lists of all senders, in the order of the queues.
pub open spec fn candidate_lists(m: MempoolView) -> Seq<Seq<EntryView>> {
    m.accounts.map_values(
        |e: (Seq<u8>, QueueView)| account_candidates(e.0, e.1.txs, entries_to_map(m.pending)),
    )
}

/// What `get_prioritized_transactions` returns: the fee-first selection of
/// at most `limit` transactions over the senders' queues.
#[verifier::opaque]
pub open spec fn prioritized_spec(m: MempoolView, limit: nat) -> Seq<Transaction> {
    select_entries(candidate_lists(m), limit).map_values(
        |e: EntryView| entries_to_map(m.pending)[e.hash],
    )
}

/// The lists with the first `pos[i]` entries of list `i` taken.
pub open spec fn remaining_lists(lists: Seq<Seq<EntryView>>, pos: Seq<usize>) -> Seq<Seq<EntryView>> {
    Seq::new(lists.len(), |i: int| lists[i].skip(pos[i] as int))
}

/// The views of a vector of entry lists.
pub open spec fn list_views(lists: Seq<Vec<PriorityEntry>>) -> Seq<Seq<EntryView>> {
    lists.map_values(|v: Vec<PriorityEntry>| v@.map_values(|e: PriorityEntry| e@))
}

/// Every hash that the ready part of a queue holds is pending.
proof fn lemma_ready_prefix_pending(txs: Seq<(u64, Seq<u8>)>, pending: Map<Seq<u8>, Transaction>)
    ensures
        forall|k: int|
            0 <= k < ready_prefix(txs, pending).len() ==> pending.contains_key(
                #[trigger] ready_prefix(txs, pending)[k].1,
            ),
        ready_prefix(txs, pending).len() <= txs.len(),
    decreases txs.len(),
{
    if txs.len() > 0 && pending.contains_key(txs[0].1) {
        lemma_ready_prefix_pending(txs.drop_first(), pending);
        let r = ready_prefix(txs.drop_first(), pending);
        assert forall|k: int|
            0 <= k < ready_prefix(txs, pending).len() implies pending.contains_key(
                #[trigger] ready_prefix(txs, pending)[k].1,
            ) by {
            if k > 0 {
                assert(ready_prefix(txs, pending)[k] == r[k - 1]);
            }
        }
    }
}

/// The pending transactions grouped by sender: one group per sender, in the
/// order of the sender's first transaction, each in pool order.
pub open spec fn group_by_sender(txs: Seq<Transaction>) -> Seq<(Seq<u8>, Seq<Transaction>)>
    decreases txs.len(),
{
    if txs.len() == 0 {
        Seq::empty()
    } else {
        let g = group_by_sender(txs.drop_last());
        let t = txs.last();
        let k = t@.sender@;
        if has_key(g, k) {
            g.update(key_index(g, k), (k, g[key_index(g, k)].1.push(t)))
        } else {
            g.push((k, seq![t]))
        }
    }
}

/// `s` with `x` put after every transaction whose nonce is not above its
/// own, and before the others.
pub open spec fn insert_by_nonce(s: Seq<Transaction>, x: Transaction) -> Seq<Transaction>
    decreases s.len(),
{
    if s.len() == 0 {
        seq![x]
    } else if x@.nonce < s.last()@.nonce {
        insert_by_nonce(s.drop_last(), x).push(s.last())
    } else {
        s.push(x)
    }
}

/// The stable sort of `s` by nonce.
pub open spec fn sort_by_nonce(s: Seq<Transaction>) -> Seq<Transaction>
    decreases s.len(),
{
    if s.len() == 0 {
        s
    } else {
        insert_by_nonce(sort_by_nonce(s.drop_last()), s.last())
    }
}

/// Rebuilding one sender's queue from its transactions in nonce order: a
/// transaction with the next expected nonce whose cost, added to what is
/// already reserved, the balance covers is queued and reserved; others are
/// skipped. The outcome is the queue and the reserved total, or the error
/// that stops the rebuild.
pub open spec fn reserve_spec(txs: Seq<Transaction>, q: QueueView, reserved: u64, balance: u64) -> Result<
    (QueueView, u64),
    TransactionError,
>
    decreases txs.len(),
{
    if txs.len() == 0 {
        Ok((q, reserved))
    } else {
        let t = txs[0]@;
        let rest = txs.drop_first();
        if t.nonce != q.next {
            reserve_spec(rest, q, reserved, balance)
        } else if t.amount + t.fee > u64::MAX {
            Err(TransactionError::Account(AccountError::CostOverflow))
        } else if reserved + t.amount + t.fee > u64::MAX {
            Err(TransactionError::Account(AccountError::CostOverflow))
        } else if reserved + t.amount + t.fee > balance {
            reserve_spec(rest, q, reserved, balance)
        } else {
            let (r, q2) = queue_push(q, t.nonce, tx_id_of(t));
            match r {
                Err(e) => Err(e),
                Ok(()) => reserve_spec(rest, q2, (reserved + t.amount + t.fee) as u64, balance),
            }
        }
    }
}

/// Rebuilding the queues and reservations group by group: the outcome, the
/// queues and the reservations (those of the groups before an error stay).
/// A sender without an account stops the rebuild; an empty queue or a zero
/// reservation is not stored.
pub open spec fn rebuild_spec(
    groups: Seq<(Seq<u8>, Seq<Transaction>)>,
    accounts: Map<Seq<u8>, AccountView>,
    qs: Seq<(Seq<u8>, QueueView)>,
    bs: Seq<(Seq<u8>, u64)>,
) -> (Result<(), TransactionError>, Seq<(Seq<u8>, QueueView)>, Seq<(Seq<u8>, u64)>)
    decreases groups.len(),
{
    if groups.len() == 0 {
        (Ok(()), qs, bs)
    } else {
        let k = groups[0].0;
        if !accounts.contains_key(k) {
            (Err(TransactionError::Account(AccountError::AccountNotFound)), qs, bs)
        } else {
            match reserve_spec(
                sort_by_nonce(groups[0].1),
                QueueView { next: accounts[k].nonce, txs: Seq::empty() },
                0,
                accounts[k].balance,
            ) {
                Err(e) => (Err(e), qs, bs),
                Ok((q, r)) => rebuild_spec(
                    groups.drop_first(),
                    accounts,
                    if q.txs.len() > 0 {
                        entries_insert(qs, k, q)
                    } else {
                        qs
                    },
                    if r > 0 {
                        entries_insert(bs, k, r)
                    } else {
                        bs
                    },
                ),
            }
        }
    }
}

/// The transactions of the pool, in pool order.
pub open spec fn pending_txs(m: MempoolView) -> Seq<Transaction> {
    m.pending.map_values(|e: (Seq<u8>, Transaction)| e.1)
}

/// What `rebuild_reservations` gives: its outcome and the pool after it
/// (the pending transactions do not change).
#[verifier::opaque]
pub open spec fn rebuild_result(m: MempoolView, accounts: Map<Seq<u8>, AccountView>) -> (
    Result<(), TransactionError>,
    MempoolView,
) {
    let (r, qs, bs) = rebuild_spec(group_by_sender(pending_txs(m)), accounts, Seq::empty(), Seq::empty());
    (r, MempoolView { pending: m.pending, accounts: qs, balances: bs })
}

/// A rebuild reads only the pending transactions and the accounts: the
/// queues and reservations it starts from do not matter, the pending
/// transactions stay, and a second rebuild gives what the first gave.
pub proof fn law_rebuild_reads_only_pending(m1: MempoolView, m2: MempoolView, accounts: Map<Seq<u8>, AccountView>)
    requires
        m1.pending == m2.pending,
    ensures
        rebuild_result(m1, accounts) == rebuild_result(m2, accounts),
        rebuild_result(m1, accounts).1.pending == m1.pending,
        rebuild_result(rebuild_result(m1, accounts).1, accounts) == rebuild_result(m1, accounts),
{
    reveal(rebuild_result);
}

/// The pending entries without the transactions of `txs`, removed by id in
/// order.
#[verifier::opaque]
pub open spec fn remove_ids(pending: Seq<(Seq<u8>, Transaction)>, txs: Seq<Transaction>) -> Seq<
    (Seq<u8>, Transaction),
>
    decreases txs.len(),
{
    if txs.len() == 0 {
        pending
    } else {
        remove_ids(entries_remove(pending, tx_id_of(txs[0]@)), txs.drop_first())
    }
}

/// The queued transactions that are pending, in queue order.
pub open spec fn queued_pending(txs: Seq<(u64, Seq<u8>)>, pending: Map<Seq<u8>, Transaction>) -> Seq<
    Transaction,
>
    decreases txs.len(),
{
    if txs.len() == 0 {
        Seq::empty()
    } else {
        (if pending.contains_key(txs[0].1) {
            seq![pending[txs[0].1]]
        } else {
            Seq::empty()
        }) + queued_pending(txs.drop_first(), pending)
    }
}

/// The queued and pending transactions of every sender, sender after
/// sender, each in nonce order.
pub open spec fn nonce_ordered_spec(
    accounts: Seq<(Seq<u8>, QueueView)>,
    pending: Map<Seq<u8>, Transaction>,
) -> Seq<Transaction>
    decreases accounts.len(),
{
    if accounts.len() == 0 {
        Seq::empty()
    } else {
        queued_pending(accounts[0].1.txs, pending) + nonce_ordered_spec(accounts.drop_first(), pending)
    }
}

/// Inserts `x` into `v` where `insert_by_nonce` puts it.
fn insert_by_nonce_vec(v: &mut Vec<Transaction>, x: Transaction)
    ensures
        final(v)@ == insert_by_nonce(old(v)@, x),
{
    let ghost s = old(v)@;
    let mut j = v.len();
    assert(s.take(j as int) =~= s);
    assert(s.skip(j as int) =~= Seq::<Transaction>::empty());
    assert(insert_by_nonce(s, x) =~= insert_by_nonce(s.take(j as int), x) + s.skip(j as int));
    while j > 0 && x.nonce() < v[j - 1].nonce()
        invariant
            v@ == s,
            j <= s.len(),
            insert_by_nonce(s, x) == insert_by_nonce(s.take(j as int), x) + s.skip(j as int),
        decreases j,
    {
        proof {
            let t = s.take(j as int);
            assert(t.last() == s[j - 1]);
            assert(t.drop_last() =~= s.take(j - 1));
            assert(insert_by_nonce(t, x) == insert_by_nonce(s.take(j - 1), x).push(s[j - 1]));
            assert(s.skip(j - 1) =~= seq![s[j - 1]] + s.skip(j as int));
            assert(insert_by_nonce(s.take(j - 1), x).push(s[j - 1]) + s.skip(j as int)
                =~= insert_by_nonce(s.take(j - 1), x) + s.skip(j - 1));
        }
        j -= 1;
    }
    proof {
        let t = s.take(j as int);
        if j > 0 {
            assert(t.last() == s[j - 1]);
        }
        assert(insert_by_nonce(t, x) == t.push(x));
        assert(t.push(x) + s.skip(j as int) =~= s.insert(j as int, x));
    }
    v.insert(j, x);
}

/// The transactions of `txs` sorted by nonce, stably.
fn sorted_by_nonce(txs: &Vec<Transaction>) -> (res: Vec<Transaction>)
    ensures
        res@ == sort_by_nonce(txs@),
{
    let mut out: Vec<Transaction> = Vec::new();
    let mut i: usize = 0;
    assert(txs@.take(0) =~= Seq::<Transaction>::empty());
    while i < txs.len()
        invariant
            i <= txs@.len(),
            out@ == sort_by_nonce(txs@.take(i as int)),
        decreases txs@.len() - i,
    {
        insert_by_nonce_vec(&mut out, txs[i]);
        proof {
            let t = txs@.take(i + 1);
            assert(t.drop_last() =~= txs@.take(i as int));
            assert(t.last() == txs@[i as int]);
        }
        i += 1;
    }
    assert(txs@.take(txs@.len() as int) =~= txs@);
    out
}

/// Rebuilds one sender's queue and reserved total from its transactions in
/// nonce order.
#[verifier::rlimit(30)]
fn reserve_sender(sorted: &Vec<Transaction>, state_nonce: u64, balance: u64) -> (res: Result<
    (AccountQueue, u64),
    TransactionError,
>)
    ensures
        match reserve_spec(sorted@, QueueView { next: state_nonce, txs: Seq::empty() }, 0, balance) {
            Ok((q, r)) => res matches Ok((queue, reserved)) && queue@ == q && reserved == r
                && queue@.wf(),
            Err(e) => res == Err::<(AccountQueue, u64), TransactionError>(e),
        },
{
    let ghost s = sorted@;
    let mut queue = AccountQueue::new(state_nonce);
    let mut reserved: u64 = 0;
    let mut i: usize = 0;
    assert(s.skip(0) =~= s);
    while i < sorted.len()
        invariant
            s == sorted@,
            i <= s.len(),
            queue@.wf(),
            reserve_spec(s, QueueView { next: state_nonce, txs: Seq::empty() }, 0, balance)
                == reserve_spec(s.skip(i as int), queue@, reserved, balance),
        decreases s.len() - i,
    {
        let tx = sorted[i];
        let ghost rest = s.skip(i as int);
        assert(rest[0] == tx);
        assert(rest.drop_first() =~= s.skip(i + 1));
        let expected_nonce = queue.next_accepted_nonce();
        if tx.nonce() != expected_nonce {
            i += 1;
            continue;
        }
        let cost = match tx.amount().checked_add(tx.fee()) {
            Some(c) => c,
            None => {
                return Err(TransactionError::Account(AccountError::CostOverflow));
            },
        };
        let new_reserved = match reserved.checked_add(cost) {
            Some(r) => r,
            None => {
                return Err(TransactionError::Account(AccountError::CostOverflow));
            },
        };
        if new_reserved > balance {
            i += 1;
            continue;
        }
        let tx_hash = tx.id();
        match queue.push(tx.nonce(), tx_hash) {
            Ok(()) => {},
            Err(e) => {
                return Err(e);
            },
        }
        reserved = new_reserved;
        i += 1;
    }
    assert(s.skip(i as int) =~= Seq::<Transaction>::empty());
    Ok((queue, reserved))
}

/// A queue holds consecutive nonces from `start`, and accepts the one after
/// them next.
pub open spec fn contiguous_from(q: QueueView, start: u64) -> bool {
    &&& forall|i: int| 0 <= i < q.txs.len() ==> #[trigger] q.txs[i].0 == start + i
    &&& q.next == start + q.txs.len()
}

/// Rebuilding a sender's queue only accepts a contiguous run of nonces
/// (state nonce 5: 5 and 6 are kept, 8 is not when 7 is missing), and never
/// reserves more than the balance.
pub proof fn law_reserve_contiguous_within_balance(
    txs: Seq<Transaction>,
    q: QueueView,
    reserved: u64,
    balance: u64,
    start: u64,
)
    requires
        contiguous_from(q, start),
        reserved <= balance,
    ensures
        reserve_spec(txs, q, reserved, balance) matches Ok((q2, r)) ==> contiguous_from(q2, start)
            && r <= balance,
    decreases txs.len(),
{
    if txs.len() > 0 {
        let t = txs[0]@;
        let rest = txs.drop_first();
        if t.nonce != q.next {
            law_reserve_contiguous_within_balance(rest, q, reserved, balance, start);
        } else if t.amount + t.fee > u64::MAX || reserved + t.amount + t.fee > u64::MAX {
        } else if reserved + t.amount + t.fee > balance {
            law_reserve_contiguous_within_balance(rest, q, reserved, balance, start);
        } else {
            let (r, q2) = queue_push(q, t.nonce, tx_id_of(t));
            if r is Ok {
                if q.txs.len() > 0 {
                    assert(q.txs.last().0 == start + q.txs.len() - 1);
                }
                assert(contiguous_from(q2, start));
                law_reserve_contiguous_within_balance(
                    rest,
                    q2,
                    (reserved + t.amount + t.fee) as u64,
                    balance,
                    start,
                );
            }
        }
    }
}

/// Every queue belongs to an account, holds consecutive nonces from that
/// account's nonce, and is not empty.
pub open spec fn queues_well(qs: Seq<(Seq<u8>, QueueView)>, accounts: Map<Seq<u8>, AccountView>) -> bool {
    forall|i: int|
        0 <= i < qs.len() ==> accounts.contains_key(#[trigger] qs[i].0) && contiguous_from(
            qs[i].1,
            accounts[qs[i].0].nonce,
        ) && qs[i].1.txs.len() > 0
}

/// Every reservation belongs to an account, is positive and is within the
/// account's balance.
pub open spec fn balances_well(bs: Seq<(Seq<u8>, u64)>, accounts: Map<Seq<u8>, AccountView>) -> bool {
    forall|i: int|
        0 <= i < bs.len() ==> accounts.contains_key(#[trigger] bs[i].0) && 0 < bs[i].1
            <= accounts[bs[i].0].balance
}

proof fn lemma_insert_queue_well(
    qs: Seq<(Seq<u8>, QueueView)>,
    accounts: Map<Seq<u8>, AccountView>,
    k: Seq<u8>,
    q: QueueView,
)
    requires
        queues_well(qs, accounts),
        accounts.contains_key(k),
        contiguous_from(q, accounts[k].nonce),
        q.txs.len() > 0,
    ensures
        queues_well(entries_insert(qs, k, q), accounts),
{
    let qs2 = entries_insert(qs, k, q);
    if has_key(qs, k) {
        let j = key_index(qs, k);
        assert forall|i: int| 0 <= i < qs2.len() implies accounts.contains_key(#[trigger] qs2[i].0)
            && contiguous_from(qs2[i].1, accounts[qs2[i].0].nonce) && qs2[i].1.txs.len() > 0 by {
            if i != j {
                assert(qs2[i] == qs[i]);
            }
        }
    } else {
        assert forall|i: int| 0 <= i < qs2.len() implies accounts.contains_key(#[trigger] qs2[i].0)
            && contiguous_from(qs2[i].1, accounts[qs2[i].0].nonce) && qs2[i].1.txs.len() > 0 by {
            if i < qs.len() {
                assert(qs2[i] == qs[i]);
            }
        }
    }
}

proof fn lemma_insert_balance_well(
    bs: Seq<(Seq<u8>, u64)>,
    accounts: Map<Seq<u8>, AccountView>,
    k: Seq<u8>,
    r: u64,
)
    requires
        balances_well(bs, accounts),
        accounts.contains_key(k),
        0 < r <= accounts[k].balance,
    ensures
        balances_well(entries_insert(bs, k, r), accounts),
{
    let bs2 = entries_insert(bs, k, r);
    if has_key(bs, k) {
        let j = key_index(bs, k);
        assert forall|i: int| 0 <= i < bs2.len() implies accounts.contains_key(#[trigger] bs2[i].0)
            && 0 < bs2[i].1 <= accounts[bs2[i].0].balance by {
            if i != j {
                assert(bs2[i] == bs[i]);
            }
        }
    } else {
        assert forall|i: int| 0 <= i < bs2.len() implies accounts.contains_key(#[trigger] bs2[i].0)
            && 0 < bs2[i].1 <= accounts[bs2[i].0].balance by {
            if i < bs.len() {
                assert(bs2[i] == bs[i]);
            }
        }
    }
}

proof fn lemma_rebuild_spec_well(
    groups: Seq<(Seq<u8>, Seq<Transaction>)>,
    accounts: Map<Seq<u8>, AccountView>,
    qs: Seq<(Seq<u8>, QueueView)>,
    bs: Seq<(Seq<u8>, u64)>,
)
    requires
        queues_well(qs, accounts),
        balances_well(bs, accounts),
    ensures
        queues_well(rebuild_spec(groups, accounts, qs, bs).1, accounts),
        balances_well(rebuild_spec(groups, accounts, qs, bs).2, accounts),
    decreases groups.len(),
{
    if groups.len() > 0 {
        let k = groups[0].0;
        if accounts.contains_key(k) {
            let q0 = QueueView { next: accounts[k].nonce, txs: Seq::empty() };
            let sorted = sort_by_nonce(groups[0].1);
            law_reserve_contiguous_within_balance(sorted, q0, 0, accounts[k].balance, accounts[k].nonce);
            match reserve_spec(sorted, q0, 0, accounts[k].balance) {
                Err(_) => {},
                Ok((q, r)) => {
                    let qs2 = if q.txs.len() > 0 { entries_insert(qs, k, q) } else { qs };
                    let bs2 = if r > 0 { entries_insert(bs, k, r) } else { bs };
                    if q.txs.len() > 0 {
                        lemma_insert_queue_well(qs, accounts, k, q);
                    }
                    if r > 0 {
                        lemma_insert_balance_well(bs, accounts, k, r);
                    }
                    lemma_rebuild_spec_well(groups.drop_first(), accounts, qs2, bs2);
                },
            }
        }
    }
}

/// The total cost (amount plus fee) of queued pairs, each transaction
/// looked up by its hash among the pending ones.
pub open spec fn queue_cost(txs: Seq<(u64, Seq<u8>)>, pending: Map<Seq<u8>, Transaction>) -> int
    decreases txs.len(),
{
    if txs.len() == 0 {
        0
    } else {
        queue_cost(txs.drop_last(), pending) + pending[txs.last().1]@.amount + pending[txs.last().1]@.fee
    }
}

/// Every queue of positive cost has a reservation equal to that cost.
pub open spec fn reservations_cover(
    qs: Seq<(Seq<u8>, QueueView)>,
    bs: Seq<(Seq<u8>, u64)>,
    pending: Map<Seq<u8>, Transaction>,
) -> bool {
    forall|k: Seq<u8>|
        #[trigger] entries_to_map(qs).contains_key(k) && queue_cost(entries_to_map(qs)[k].txs, pending) > 0
            ==> entries_to_map(bs).contains_key(k) && entries_to_map(bs)[k] == queue_cost(
            entries_to_map(qs)[k].txs,
            pending,
        )
}

/// Each of `txs` is the pending transaction kept under its own id.
pub open spec fn all_pending_by_id(txs: Seq<Transaction>, pending: Map<Seq<u8>, Transaction>) -> bool {
    forall|j: int|
        0 <= j < txs.len() ==> pending.contains_key(tx_id_of((#[trigger] txs[j])@)) && pending[tx_id_of(
            txs[j]@,
        )] == txs[j]
}

proof fn lemma_entries_insert_map<V>(s: Seq<(Seq<u8>, V)>, k: Seq<u8>, v: V)
    requires
        keys_distinct(s),
    ensures
        keys_distinct(entries_insert(s, k, v)),
        entries_to_map(entries_insert(s, k, v)) == entries_to_map(s).insert(k, v),
{
    if has_key(s, k) {
        let i = key_index(s, k);
        crate::map::lemma_update_entry(s, i, v);
    } else {
        crate::map::lemma_push_entry(s, k, v);
    }
}

proof fn lemma_insert_by_nonce_pending(s: Seq<Transaction>, x: Transaction, pending: Map<Seq<u8>, Transaction>)
    requires
        all_pending_by_id(s, pending),
        all_pending_by_id(seq![x], pending),
    ensures
        all_pending_by_id(insert_by_nonce(s, x), pending),
    decreases s.len(),
{
    if s.len() == 0 {
    } else if x@.nonce < s.last()@.nonce {
        assert(all_pending_by_id(s.drop_last(), pending)) by {
            assert forall|j: int| 0 <= j < s.drop_last().len() implies pending.contains_key(tx_id_of((#[trigger] s.drop_last()[j])@)) && pending[tx_id_of(s.drop_last()[j]@)] == s.drop_last()[j] by {
                assert(s.drop_last()[j] == s[j]);
            }
        }
        lemma_insert_by_nonce_pending(s.drop_last(), x, pending);
        let r = insert_by_nonce(s.drop_last(), x);
        assert forall|j: int| 0 <= j < r.push(s.last()).len() implies pending.contains_key(tx_id_of((#[trigger] r.push(s.last())[j])@)) && pending[tx_id_of(r.push(s.last())[j]@)] == r.push(s.last())[j] by {
            if j < r.len() {
                assert(r.push(s.last())[j] == r[j]);
            } else {
                assert(s.last() == s[s.len() - 1]);
            }
        }
    } else {
        assert forall|j: int| 0 <= j < s.push(x).len() implies pending.contains_key(tx_id_of((#[trigger] s.push(x)[j])@)) && pending[tx_id_of(s.push(x)[j]@)] == s.push(x)[j] by {
            if j < s.len() {
                assert(s.push(x)[j] == s[j]);
            } else {
                assert(seq![x][0] == x);
            }
        }
    }
}

proof fn lemma_sort_by_nonce_pending(s: Seq<Transaction>, pending: Map<Seq<u8>, Transaction>)
    requires
        all_pending_by_id(s, pending),
    ensures
        all_pending_by_id(sort_by_nonce(s), pending),
    decreases s.len(),
{
    if s.len() > 0 {
        assert(all_pending_by_id(s.drop_last(), pending)) by {
            assert forall|j: int| 0 <= j < s.drop_last().len() implies pending.contains_key(tx_id_of((#[trigger] s.drop_last()[j])@)) && pending[tx_id_of(s.drop_last()[j]@)] == s.drop_last()[j] by {
                assert(s.drop_last()[j] == s[j]);
            }
        }
        lemma_sort_by_nonce_pending(s.drop_last(), pending);
        assert(all_pending_by_id(seq![s.last()], pending)) by {
            assert(seq![s.last()][0] == s[s.len() - 1]);
        }
        lemma_insert_by_nonce_pending(sort_by_nonce(s.drop_last()), s.last(), pending);
    }
}

proof fn lemma_group_by_sender_pending(txs: Seq<Transaction>, pending: Map<Seq<u8>, Transaction>)
    requires
        all_pending_by_id(txs, pending),
    ensures
        forall|g: int|
            0 <= g < group_by_sender(txs).len() ==> all_pending_by_id(#[trigger] group_by_sender(txs)[g].1, pending),
    decreases txs.len(),
{
    if txs.len() > 0 {
        let d = txs.drop_last();
        assert(all_pending_by_id(d, pending)) by {
            assert forall|j: int| 0 <= j < d.len() implies pending.contains_key(tx_id_of((#[trigger] d[j])@)) && pending[tx_id_of(d[j]@)] == d[j] by {
                assert(d[j] == txs[j]);
            }
        }
        lemma_group_by_sender_pending(d, pending);
        let g = group_by_sender(d);
        let t = txs.last();
        let k = t@.sender@;
        assert(pending.contains_key(tx_id_of(txs[txs.len() - 1]@)));
        if has_key(g, k) {
            let i = key_index(g, k);
            let ng = g.update(i, (k, g[i].1.push(t)));
            assert(all_pending_by_id(g[i].1, pending));
            assert forall|a: int| 0 <= a < ng.len() implies all_pending_by_id(#[trigger] ng[a].1, pending) by {
                if a != i {
                    assert(ng[a] == g[a]);
                } else {
                    let l = g[i].1.push(t);
                    assert forall|j: int| 0 <= j < l.len() implies pending.contains_key(tx_id_of((#[trigger] l[j])@)) && pending[tx_id_of(l[j]@)] == l[j] by {
                        if j < g[i].1.len() {
                            assert(l[j] == g[i].1[j]);
                        }
                    }
                }
            }
        } else {
            let ng = g.push((k, seq![t]));
            assert forall|a: int| 0 <= a < ng.len() implies all_pending_by_id(#[trigger] ng[a].1, pending) by {
                if a < g.len() {
                    assert(ng[a] == g[a]);
                } else {
                    assert(seq![t][0] == t);
                }
            }
        }
    }
}

/// Reserving from a contiguous queue adds to the reservation exactly the
/// cost of what it queues.
proof fn lemma_reserve_cost(
    txs: Seq<Transaction>,
    q: QueueView,
    reserved: u64,
    balance: u64,
    start: u64,
    pending: Map<Seq<u8>, Transaction>,
)
    requires
        contiguous_from(q, start),
        all_pending_by_id(txs, pending),
    ensures
        reserve_spec(txs, q, reserved, balance) matches Ok((q2, r2)) ==> r2 - reserved == queue_cost(
            q2.txs,
            pending,
        ) - queue_cost(q.txs, pending),
    decreases txs.len(),
{
    if txs.len() > 0 {
        let t = txs[0]@;
        let rest = txs.drop_first();
        assert(all_pending_by_id(rest, pending)) by {
            assert forall|j: int| 0 <= j < rest.len() implies pending.contains_key(tx_id_of((#[trigger] rest[j])@)) && pending[tx_id_of(rest[j]@)] == rest[j] by {
                assert(rest[j] == txs[j + 1]);
            }
        }
        if t.nonce != q.next {
            lemma_reserve_cost(rest, q, reserved, balance, start, pending);
        } else if t.amount + t.fee > u64::MAX || reserved + t.amount + t.fee > u64::MAX {
        } else if reserved + t.amount + t.fee > balance {
            lemma_reserve_cost(rest, q, reserved, balance, start, pending);
        } else {
            let (r, q2) = queue_push(q, t.nonce, tx_id_of(t));
            if r is Ok {
                if q.txs.len() > 0 {
                    assert(q.txs.last().0 == start + q.txs.len() - 1);
                }
                assert(q2.txs == q.txs.push((t.nonce, tx_id_of(t))));
                assert(q2.txs.drop_last() =~= q.txs);
                assert(pending[tx_id_of(t)] == txs[0]);
                assert(contiguous_from(q2, start));
                lemma_reserve_cost(rest, q2, (reserved + t.amount + t.fee) as u64, balance, start, pending);
            }
        }
    }
}

proof fn lemma_rebuild_covers(
    groups: Seq<(Seq<u8>, Seq<Transaction>)>,
    accounts: Map<Seq<u8>, AccountView>,
    qs: Seq<(Seq<u8>, QueueView)>,
    bs: Seq<(Seq<u8>, u64)>,
    pending: Map<Seq<u8>, Transaction>,
)
    requires
        keys_distinct(qs),
        keys_distinct(bs),
        reservations_cover(qs, bs, pending),
        forall|g: int| 0 <= g < groups.len() ==> all_pending_by_id(#[trigger] groups[g].1, pending),
    ensures
        reservations_cover(rebuild_spec(groups, accounts, qs, bs).1, rebuild_spec(groups, accounts, qs, bs).2, pending),
    decreases groups.len(),
{
    if groups.len() > 0 {
        let k = groups[0].0;
        if accounts.contains_key(k) {
            let q0 = QueueView { next: accounts[k].nonce, txs: Seq::empty() };
            let sorted = sort_by_nonce(groups[0].1);
            assert(all_pending_by_id(groups[0].1, pending));
            lemma_sort_by_nonce_pending(groups[0].1, pending);
            lemma_reserve_cost(sorted, q0, 0, accounts[k].balance, accounts[k].nonce, pending);
            match reserve_spec(sorted, q0, 0, accounts[k].balance) {
                Err(_) => {},
                Ok((q, r)) => {
                    assert(queue_cost(q0.txs, pending) == 0);
                    let qs2 = if q.txs.len() > 0 { entries_insert(qs, k, q) } else { qs };
                    let bs2 = if r > 0 { entries_insert(bs, k, r) } else { bs };
                    if q.txs.len() > 0 {
                        lemma_entries_insert_map(qs, k, q);
                    }
                    if r > 0 {
                        lemma_entries_insert_map(bs, k, r);
                    }
                    if q.txs.len() == 0 {
                        assert(queue_cost(q.txs, pending) == 0);
                    }
                    assert(reservations_cover(qs2, bs2, pending)) by {
                        assert forall|k2: Seq<u8>|
                            #[trigger] entries_to_map(qs2).contains_key(k2) && queue_cost(entries_to_map(qs2)[k2].txs, pending) > 0
                            implies entries_to_map(bs2).contains_key(k2) && entries_to_map(bs2)[k2] == queue_cost(
                                entries_to_map(qs2)[k2].txs,
                                pending,
                            ) by {
                            if k2 != k {
                                assert(entries_to_map(qs).contains_key(k2));
                            }
                        }
                    }
                    assert forall|g: int| 0 <= g < groups.drop_first().len() implies all_pending_by_id(#[trigger] groups.drop_first()[g].1, pending) by {
                        assert(groups.drop_first()[g] == groups[g + 1]);
                    }
                    lemma_rebuild_covers(groups.drop_first(), accounts, qs2, bs2, pending);
                },
            }
        }
    }
}

/// After a rebuild, every sender whose queue costs anything has a
/// reservation, and it equals the total cost (amount plus fee) of the
/// transactions in that queue.
pub proof fn law_rebuild_reserves_queue_costs(m: MempoolView, accounts: Map<Seq<u8>, AccountView>, k: Seq<u8>)
    requires
        keys_distinct(m.pending),
        ids_match(m.pending),
    ensures
        ({
            let r = rebuild_result(m, accounts).1;
            let qmap = entries_to_map(r.accounts);
            let bmap = entries_to_map(r.balances);
            let pm = entries_to_map(m.pending);
            qmap.contains_key(k) && queue_cost(qmap[k].txs, pm) > 0 ==> bmap.contains_key(k)
                && bmap[k] == queue_cost(qmap[k].txs, pm)
        }),
{
    reveal(rebuild_result);
    let pm = entries_to_map(m.pending);
    let txs = pending_txs(m);
    assert(all_pending_by_id(txs, pm)) by {
        assert forall|j: int| 0 <= j < txs.len() implies pm.contains_key(tx_id_of((#[trigger] txs[j])@)) && pm[tx_id_of(txs[j]@)] == txs[j] by {
            crate::map::lemma_entry_in_map(m.pending, j);
            assert(m.pending[j].0 == tx_id_of(m.pending[j].1@));
        }
    }
    lemma_group_by_sender_pending(txs, pm);
    let e1 = Seq::<(Seq<u8>, QueueView)>::empty();
    let e2 = Seq::<(Seq<u8>, u64)>::empty();
    assert(reservations_cover(e1, e2, pm)) by {
        assert forall|k2: Seq<u8>| #[trigger] entries_to_map(e1).contains_key(k2) implies false by {
            let i = key_index(e1, k2);
        }
    }
    lemma_rebuild_covers(group_by_sender(txs), accounts, e1, e2, pm);
}

/// After a rebuild (complete or stopped by an error), every queue belongs
/// to an account and holds consecutive nonces from that account's nonce,
/// and every reservation is within the account's balance.
pub proof fn law_rebuild_keeps_contiguous_queues(m: MempoolView, accounts: Map<Seq<u8>, AccountView>)
    ensures
        queues_well(rebuild_result(m, accounts).1.accounts, accounts),
        balances_well(rebuild_result(m, accounts).1.balances, accounts),
{
    reveal(rebuild_result);
    lemma_rebuild_spec_well(group_by_sender(pending_txs(m)), accounts, Seq::empty(), Seq::empty());
}

/// A transaction is only accepted when the balance covers everything its
/// sender has pending: after an accepted transaction the sender's
/// reservation is the previous one plus the transaction's cost, and at most
/// the balance.
pub proof fn law_add_reserves_within_balance(
    m: MempoolView,
    accounts: Map<Seq<u8>, AccountView>,
    tx: Transaction,
)
    requires
        keys_distinct(m.balances),
        add_spec(m, accounts, tx).0 is Ok,
    ensures
        ({
            let sender = tx@.sender@;
            let before = entries_to_map(m.balances);
            let after = entries_to_map(add_spec(m, accounts, tx).1.balances);
            let reserved: int = if before.contains_key(sender) { before[sender] as int } else { 0 };
            &&& accounts.contains_key(sender)
            &&& after.contains_key(sender)
            &&& after[sender] == reserved + tx@.amount + tx@.fee
            &&& after[sender] <= accounts[sender].balance
        }),
{
    let sender = tx@.sender@;
    let t = tx@;
    let bmap = entries_to_map(m.balances);
    let reserved: u64 = if bmap.contains_key(sender) { bmap[sender] } else { 0 };
    let total = (reserved + t.amount + t.fee) as u64;
    if has_key(m.balances, sender) {
        let j = key_index(m.balances, sender);
        lemma_entry_in_map(m.balances, j);
        crate::map::lemma_update_entry(m.balances, j, total);
    } else {
        crate::map::lemma_push_entry(m.balances, sender, total);
    }
}

/// The ready part of a queue is its beginning.
proof fn lemma_ready_prefix_is_prefix(txs: Seq<(u64, Seq<u8>)>, pending: Map<Seq<u8>, Transaction>)
    ensures
        ready_prefix(txs, pending).len() <= txs.len(),
        forall|k: int| 0 <= k < ready_prefix(txs, pending).len() ==> #[trigger] ready_prefix(txs, pending)[k] == txs[k],
    decreases txs.len(),
{
    if txs.len() > 0 && pending.contains_key(txs[0].1) {
        lemma_ready_prefix_is_prefix(txs.drop_first(), pending);
        let r = ready_prefix(txs.drop_first(), pending);
        assert forall|k: int| 0 <= k < ready_prefix(txs, pending).len() implies #[trigger] ready_prefix(txs, pending)[k] == txs[k] by {
            if k > 0 {
                assert(ready_prefix(txs, pending)[k] == r[k - 1]);
            }
        }
    }
}

/// Selection returns `limit` transactions, or every ready one when fewer
/// are ready.
pub proof fn law_prioritized_count(m: MempoolView, limit: nat)
    ensures
        prioritized_spec(m, limit).len() == if limit < crate::priority::total_len(candidate_lists(m)) {
            limit
        } else {
            crate::priority::total_len(candidate_lists(m))
        },
{
    reveal(prioritized_spec);
    crate::priority::law_selection_length(candidate_lists(m), limit);
}

/// Fee priority never breaks a sender's nonce order: the transactions that
/// selection takes from one sender are the first ones of that sender's
/// queue, in nonce order. (Alice's nonce 1 with fee 50 cannot come before
/// her nonce 0 with fee 5.)
pub proof fn law_prioritized_respects_nonce_order(m: MempoolView, limit: nat, i: int)
    requires
        keys_distinct(m.accounts),
        0 <= i < m.accounts.len(),
        m.accounts[i].1.wf(),
    ensures
        ({
            let picked = crate::priority::entries_of(select_entries(candidate_lists(m), limit), m.accounts[i].0);
            let queue = m.accounts[i].1.txs;
            &&& picked.len() <= queue.len()
            &&& forall|k: int| 0 <= k < picked.len() ==> (#[trigger] picked[k]).nonce == queue[k].0 && picked[k].hash == queue[k].1
            &&& forall|a: int, b: int| 0 <= a < b < picked.len() ==> #[trigger] picked[a].nonce < #[trigger] picked[b].nonce
        }),
{
    let lists = candidate_lists(m);
    let keys = m.accounts.map_values(|e: (Seq<u8>, QueueView)| e.0);
    let pm = entries_to_map(m.pending);
    assert(crate::priority::lists_per_sender(lists, keys)) by {
        assert forall|a: int, k: int| 0 <= a < lists.len() && 0 <= k < lists[a].len() implies #[trigger] lists[a][k].sender == keys[a] by {
            let r = ready_prefix(m.accounts[a].1.txs, pm);
            assert(lists[a][k] == candidate(m.accounts[a].0, r[k], pm));
        }
        assert forall|a: int, b: int| 0 <= a < b < keys.len() implies #[trigger] keys[a] != #[trigger] keys[b] by {
            assert(m.accounts[a].0 != m.accounts[b].0);
        }
    }
    crate::priority::law_selection_takes_prefix_of_each_sender(lists, keys, limit, i);
    let txs = m.accounts[i].1.txs;
    lemma_ready_prefix_is_prefix(txs, pm);
    let r = ready_prefix(txs, pm);
    let picked = crate::priority::entries_of(select_entries(lists, limit), m.accounts[i].0);
    assert forall|k: int| 0 <= k < picked.len() implies (#[trigger] picked[k]).nonce == txs[k].0 && picked[k].hash == txs[k].1 by {
        assert(picked[k] == lists[i][k]);
        assert(lists[i][k] == candidate(m.accounts[i].0, r[k], pm));
    }
    assert forall|a: int, b: int| 0 <= a < b < picked.len() implies #[trigger] picked[a].nonce < #[trigger] picked[b].nonce by {
        assert(picked[a].nonce == txs[a].0);
        assert(picked[b].nonce == txs[b].0);
    }
}

pub struct Mempool {
    pending_transactions: ByteMap<Transaction>,
    accounts: ByteMap<AccountQueue>,
    pending_balances: ByteMap<u64>,
}

impl View for Mempool {
    type V = MempoolView;

    closed spec fn view(&self) -> MempoolView {
        MempoolView {
            pending: self.pending_transactions.entries(),
            accounts: queue_views(self.accounts.entries()),
            balances: self.pending_balances.entries(),
        }
    }
}

/// Taking queue views keeps the keys and their positions.
proof fn lemma_queue_views(s: Seq<(Seq<u8>, AccountQueue)>, k: Seq<u8>)
    requires
        keys_distinct(s),
    ensures
        keys_distinct(queue_views(s)),
        has_key(queue_views(s), k) == has_key(s, k),
        has_key(s, k) ==> key_index(queue_views(s), k) == key_index(s, k),
        has_key(s, k) ==> entries_to_map(queue_views(s))[k] == entries_to_map(s)[k]@,
{
    let v = queue_views(s);
    assert forall|a: int, b: int| 0 <= a < b < v.len() implies #[trigger] v[a].0 != #[trigger] v[b].0 by {
        assert(s[a].0 != s[b].0);
    }
    if has_key(s, k) {
        let i = key_index(s, k);
        assert(v[i].0 == k);
        lemma_entry_in_map(v, i);
        lemma_entry_in_map(s, i);
    }
    if has_key(v, k) {
        let i = key_index(v, k);
        assert(s[i].0 == k);
    }
}

/// Setting a queue, then taking views, is setting its view.
proof fn lemma_queue_views_insert(s: Seq<(Seq<u8>, AccountQueue)>, k: Seq<u8>, q: AccountQueue)
    requires
        keys_distinct(s),
    ensures
        queue_views(entries_insert(s, k, q)) == entries_insert(queue_views(s), k, q@),
{
    lemma_queue_views(s, k);
    assert(queue_views(entries_insert(s, k, q)) =~= entries_insert(queue_views(s), k, q@));
}

/// Every pending transaction is kept under its own id.
pub open spec fn ids_match(pending: Seq<(Seq<u8>, Transaction)>) -> bool {
    forall|i: int| 0 <= i < pending.len() ==> (#[trigger] pending[i]).0 == tx_id_of(pending[i].1@)
}

impl Mempool {
    /// The maps have no key twice, every pending transaction is kept under
    /// its own id, and every queue is in nonce order.
    pub closed spec fn wf(&self) -> bool {
        &&& self.pending_transactions.wf()
        &&& ids_match(self.pending_transactions.entries())
        &&& self.accounts.wf()
        &&& self.pending_balances.wf()
        &&& forall|i: int|
            0 <= i < self.accounts.entries().len() ==> (#[trigger] self.accounts.entries()[i]).1@.wf()
    }

    /// A well-formed pool has no key twice in any of its maps, and every
    /// queue is in nonce order: what the laws on pools ask of their pool.
    pub proof fn lemma_wf_view(&self)
        requires
            self.wf(),
        ensures
            keys_distinct(self@.pending),
            keys_distinct(self@.accounts),
            keys_distinct(self@.balances),
            ids_match(self@.pending),
            forall|i: int| 0 <= i < self@.accounts.len() ==> (#[trigger] self@.accounts[i]).1.wf(),
    {
        if self.accounts.entries().len() > 0 {
            lemma_queue_views(self.accounts.entries(), self.accounts.entries()[0].0);
        } else {
            assert(self@.accounts =~= Seq::<(Seq<u8>, QueueView)>::empty());
        }
        assert forall|i: int| 0 <= i < self@.accounts.len() implies (#[trigger] self@.accounts[i]).1.wf() by {
            assert(self.accounts.entries()[i].1@.wf());
        }
    }

    pub fn new() -> (res: Mempool)
        ensures
            res.wf(),
            res@ == (MempoolView {
                pending: Seq::empty(),
                accounts: Seq::empty(),
                balances: Seq::empty(),
            }),
    {
        let res = Mempool {
            pending_transactions: ByteMap::new(),
            accounts: ByteMap::new(),
            pending_balances: ByteMap::new(),
        };
        assert(res@.accounts =~= Seq::<(Seq<u8>, QueueView)>::empty());
        res
    }

    /// The number of pending transactions.
    pub fn len(&self) -> (res: usize)
        ensures
            res == self@.pending.len(),
    {
        self.pending_transactions.len()
    }

    pub fn is_empty(&self) -> (res: bool)
        ensures
            res == (self@.pending.len() == 0),
    {
        self.pending_transactions.is_empty()
    }

    /// Accepts a transaction whose signature verifies, whose sender has an
    /// account, whose nonce is the next one the sender's queue accepts (the
    /// account's nonce when it has no queue), and whose cost, together with
    /// what the sender's queued transactions reserve, the balance covers.
    pub fn add_transaction(&mut self, tx: Transaction, state: &State) -> (res: Result<
        (),
        TransactionError,
    >)
        requires
            old(self).wf(),
        ensures
            final(self).wf(),
            (res, final(self)@) == add_spec(old(self)@, state@.accounts, tx),
    {
        tx.verify()?;
        let sender = Address::from(*tx.sender());
        let key = sender.as_bytes();
        let account = match state.get_account(&sender) {
            Some(a) => *a,
            None => {
                return Err(TransactionError::Account(AccountError::AccountNotFound));
            },
        };
        let state_nonce = account.nonce();
        let balance = account.balance();
        let queue_index = self.accounts.find(&key);
        proof {
            lemma_queue_views(self.accounts.entries(), key@);
            if has_key(self.pending_balances.entries(), key@) {
                lemma_entry_in_map(self.pending_balances.entries(), key_index(self.pending_balances.entries(), key@));
            }
        }
        let expected_nonce = match queue_index {
            Some(i) => {
                proof {
                    lemma_entry_in_map(self.accounts.entries(), i as int);
                }
                self.accounts.value_at(i).next_accepted_nonce()
            },
            None => state_nonce,
        };
        if tx.nonce() != expected_nonce {
            return Err(TransactionError::InvalidNonce { expected: expected_nonce, got: tx.nonce() });
        }
        let cost = match tx.amount().checked_add(tx.fee()) {
            Some(c) => c,
            None => {
                return Err(TransactionError::Account(AccountError::CostOverflow));
            },
        };
        let pending_cost: u64 = match self.pending_balances.get(&key) {
            Some(b) => *b,
            None => 0,
        };
        let total_required = match pending_cost.checked_add(cost) {
            Some(t) => t,
            None => {
                return Err(TransactionError::Account(AccountError::CostOverflow));
            },
        };
        if balance < total_required {
            return Err(
                TransactionError::Account(
                    AccountError::InsufficientBalance { required: total_required, available: balance },
                ),
            );
        }
        let tx_hash = tx.id();
        self.pending_transactions.insert(tx_hash.to_bytes(), tx);
        let pushed = match queue_index {
            Some(i) => {
                let mut queue = self.accounts.replace_at(i, AccountQueue::new(0));
                proof {
                    lemma_entry_in_map(old(self).accounts.entries(), i as int);
                }
                let r = queue.push(expected_nonce, tx_hash);
                self.accounts.replace_at(i, queue);
                proof {
                    lemma_queue_views_insert(old(self).accounts.entries(), key@, queue);
                    assert(self.accounts.entries() =~= entries_insert(old(self).accounts.entries(), key@, queue));
                    assert forall|j: int| 0 <= j < self.accounts.entries().len() implies (
                    #[trigger] self.accounts.entries()[j]).1@.wf() by {
                        if j != i {
                            assert(self.accounts.entries()[j] == old(self).accounts.entries()[j]);
                        }
                    }
                }
                r
            },
            None => {
                let mut queue = AccountQueue::new(state_nonce);
                let r = queue.push(expected_nonce, tx_hash);
                self.accounts.insert(key, queue);
                proof {
                    lemma_queue_views_insert(old(self).accounts.entries(), key@, queue);
                    assert forall|j: int| 0 <= j < self.accounts.entries().len() implies (
                    #[trigger] self.accounts.entries()[j]).1@.wf() by {
                        if j < old(self).accounts.entries().len() {
                            assert(self.accounts.entries()[j] == old(self).accounts.entries()[j]);
                        }
                    }
                }
                r
            },
        };
        pushed?;
        self.pending_balances.insert(key, total_required);
        Ok(())
    }

    /// The hashes of every candidate entry are pending.
    proof fn lemma_candidate_pending(&self, j: int, p: int)
        requires
            0 <= j < self@.accounts.len(),
            0 <= p < candidate_lists(self@)[j].len(),
        ensures
            entries_to_map(self@.pending).contains_key(candidate_lists(self@)[j][p].hash),
    {
        let pm = entries_to_map(self@.pending);
        lemma_ready_prefix_pending(self@.accounts[j].1.txs, pm);
        let r = ready_prefix(self@.accounts[j].1.txs, pm);
        assert(candidate_lists(self@)[j][p] == candidate(self@.accounts[j].0, r[p], pm));
    }

    /// The list whose next entry comes first in the priority order.
    fn best_candidate(
        lists: &Vec<Vec<PriorityEntry>>,
        pos: &Vec<usize>,
        Ghost(spec_lists): Ghost<Seq<Seq<EntryView>>>,
    ) -> (res: Option<usize>)
        requires
            list_views(lists@) == spec_lists,
            pos@.len() == spec_lists.len(),
            forall|a: int| 0 <= a < spec_lists.len() ==> #[trigger] pos@[a] <= spec_lists[a].len(),
        ensures
            res is None <==> best_head(remaining_lists(spec_lists, pos@), spec_lists.len()) is None,
            res matches Some(b) ==> best_head(remaining_lists(spec_lists, pos@), spec_lists.len())
                == Some(b as int),
    {
        let ghost cur = remaining_lists(spec_lists, pos@);
        let n = lists.len();
        let mut best: Option<usize> = None;
        let mut i: usize = 0;
        while i < n
            invariant
                n == spec_lists.len(),
                list_views(lists@) == spec_lists,
                pos@.len() == n,
                forall|a: int| 0 <= a < spec_lists.len() ==> #[trigger] pos@[a] <= spec_lists[a].len(),
                cur == remaining_lists(spec_lists, pos@),
                i <= n,
                best is None <==> best_head(cur, i as nat) is None,
                best matches Some(b) ==> best_head(cur, i as nat) == Some(b as int) && b < i
                    && pos@[b as int] < spec_lists[b as int].len(),
            decreases n - i,
        {
            assert(spec_lists[i as int] == lists@[i as int]@.map_values(|e: PriorityEntry| e@));
            if pos[i] < lists[i].len() {
                let cand = &lists[i][pos[i]];
                assert(cur[i as int][0] == cand@);
                match best {
                    None => {
                        best = Some(i);
                    },
                    Some(b) => {
                        assert(spec_lists[b as int] == lists@[b as int]@.map_values(|e: PriorityEntry| e@));
                        assert(cur[b as int][0] == lists@[b as int]@[pos@[b as int] as int]@);
                        if cand.outranks(&lists[b][pos[b]]) {
                            best = Some(i);
                        }
                    },
                }
            } else {
                assert(cur[i as int].len() == 0);
            }
            i += 1;
        }
        best
    }

    /// The candidate entries of the queue at position `i`.
    fn candidates_at(&self, i: usize) -> (res: Vec<PriorityEntry>)
        requires
            self.wf(),
            i < self@.accounts.len(),
        ensures
            res@.map_values(|e: PriorityEntry| e@) == account_candidates(
                self@.accounts[i as int].0,
                self@.accounts[i as int].1.txs,
                entries_to_map(self@.pending),
            ),
    {
        let key = self.accounts.key_at(i);
        let sender = Address(crate::crypto::PublicKey(key));
        let queue = self.accounts.value_at(i);
        let ghost txs = queue@.txs;
        let ghost pm = entries_to_map(self@.pending);
        let ghost k = key@;
        let n = queue.len();
        let mut out: Vec<PriorityEntry> = Vec::new();
        let mut j: usize = 0;
        assert(txs.skip(0) =~= txs);
        assert(out@.map_values(|e: PriorityEntry| e@) + account_candidates(k, txs.skip(0), pm)
            =~= account_candidates(k, txs, pm));
        while j < n && self.pending_transactions.contains_key(&queue.entry_at(j).1.0)
            invariant
                self.wf(),
                n == txs.len(),
                txs == self@.accounts[i as int].1.txs,
                k == self@.accounts[i as int].0,
                queue@.txs == txs,
                sender@ == k,
                pm == entries_to_map(self@.pending),
                self.pending_transactions@ == pm,
                j <= n,
                out@.map_values(|e: PriorityEntry| e@) + account_candidates(k, txs.skip(j as int), pm)
                    == account_candidates(k, txs, pm),
            decreases n - j,
        {
            let (nonce, hash) = queue.entry_at(j);
            let tx = self.pending_transactions.get(&hash.0).unwrap();
            let e = PriorityEntry::new(tx.fee(), sender, nonce, hash);
            let ghost before = out@.map_values(|e: PriorityEntry| e@);
            out.push(e);
            proof {
                let rest = txs.skip(j as int);
                assert(rest[0] == txs[j as int]);
                assert(rest.drop_first() =~= txs.skip(j + 1));
                assert(ready_prefix(rest, pm) == seq![rest[0]] + ready_prefix(txs.skip(j + 1), pm));
                assert(account_candidates(k, rest, pm) =~= seq![candidate(k, rest[0], pm)]
                    + account_candidates(k, txs.skip(j + 1), pm));
                assert(hash@ == rest[0].1);
                assert(nonce == rest[0].0);
                assert(sender@ == k);
                assert(*tx == pm[rest[0].1]);
                assert(e@ == candidate(k, rest[0], pm));
                assert(out@.map_values(|e: PriorityEntry| e@) =~= before.push(e@));
                assert(before.push(e@) + account_candidates(k, txs.skip(j + 1), pm) =~= before
                    + account_candidates(k, rest, pm));
            }
            j += 1;
        }
        proof {
            assert(ready_prefix(txs.skip(j as int), pm) =~= Seq::<(u64, Seq<u8>)>::empty());
            assert(account_candidates(k, txs.skip(j as int), pm) =~= Seq::<EntryView>::empty());
            assert(out@.map_values(|e: PriorityEntry| e@) + Seq::<EntryView>::empty()
                =~= out@.map_values(|e: PriorityEntry| e@));
        }
        out
    }

    /// Selects up to `limit` transactions for the next block: repeatedly
    /// the executable transaction (the front of a sender's queue) that comes
    /// first by fee, then sender, nonce and hash; a sender's next
    /// transaction becomes executable once its previous one is selected.
    /// The pool itself does not change.
    pub fn get_prioritized_transactions(&self, _state: &State, limit: usize) -> (res: Vec<
        Transaction,
    >)
        requires
            self.wf(),
        ensures
            res@ == prioritized_spec(self@, limit as nat),
    {
        reveal(prioritized_spec);
        let ghost lists_spec = candidate_lists(self@);
        let ghost pm = entries_to_map(self@.pending);
        let n = self.accounts.len();
        let mut lists: Vec<Vec<PriorityEntry>> = Vec::new();
        let mut i: usize = 0;
        assert(list_views(lists@) =~= lists_spec.take(0));
        while i < n
            invariant
                self.wf(),
                n == self@.accounts.len(),
                lists_spec == candidate_lists(self@),
                i <= n,
                list_views(lists@) == lists_spec.take(i as int),
            decreases n - i,
        {
            let c = self.candidates_at(i);
            let ghost before = lists@;
            lists.push(c);
            assert(lists_spec[i as int] == c@.map_values(|e: PriorityEntry| e@));
            assert(lists@ == before.push(c));
            assert(list_views(lists@) =~= list_views(before).push(c@.map_values(|e: PriorityEntry| e@)));
            assert(lists_spec.take(i + 1) =~= lists_spec.take(i as int).push(lists_spec[i as int]));
            i += 1;
        }
        assert(lists_spec.take(n as int) =~= lists_spec);
        let mut pos: Vec<usize> = Vec::new();
        let mut i: usize = 0;
        while i < n
            invariant
                i <= n,
                pos@.len() == i,
                forall|a: int| 0 <= a < i ==> pos@[a] == 0,
            decreases n - i,
        {
            pos.push(0);
            i += 1;
        }
        assert(remaining_lists(lists_spec, pos@) =~= lists_spec) by {
            assert forall|a: int| 0 <= a < lists_spec.len() implies remaining_lists(lists_spec, pos@)[a]
                =~= lists_spec[a] by {
                assert(lists_spec[a].skip(0) =~= lists_spec[a]);
            }
        }
        let mut result: Vec<Transaction> = Vec::new();
        let ghost mut chosen: Seq<EntryView> = Seq::empty();
        assert(chosen + select_entries(lists_spec, limit as nat) =~= select_entries(lists_spec, limit as nat));
        while result.len() < limit
            invariant
                self.wf(),
                n == lists_spec.len(),
                lists_spec == candidate_lists(self@),
                pm == entries_to_map(self@.pending),
                self.pending_transactions@ == pm,
                list_views(lists@) == lists_spec,
                pos@.len() == n,
                forall|a: int| 0 <= a < n ==> #[trigger] pos@[a] <= lists_spec[a].len(),
                result@.len() <= limit,
                select_entries(lists_spec, limit as nat) == chosen + select_entries(
                    remaining_lists(lists_spec, pos@),
                    (limit - result@.len()) as nat,
                ),
                result@ == chosen.map_values(|e: EntryView| pm[e.hash]),
            ensures
                result@ == select_entries(lists_spec, limit as nat).map_values(
                    |e: EntryView| pm[e.hash],
                ),
            decreases limit - result@.len(),
        {
            let ghost cur = remaining_lists(lists_spec, pos@);
            let best = Self::best_candidate(&lists, &pos, Ghost(lists_spec));
            match best {
                None => {
                    assert(select_entries(cur, (limit - result@.len()) as nat) =~= Seq::<EntryView>::empty());
                    assert(chosen + Seq::<EntryView>::empty() =~= chosen);
                    break;
                },
                Some(j) => {
                    proof {
                        crate::priority::lemma_best_head_valid(cur, cur.len());
                    }
                    let e = lists[j][pos[j]];
                    proof {
                        assert(lists_spec[j as int] == lists@[j as int]@.map_values(|e: PriorityEntry| e@));
                        assert(cur[j as int][0] == lists_spec[j as int][pos@[j as int] as int]);
                        assert(e@ == cur[j as int][0]);
                        self.lemma_candidate_pending(j as int, pos@[j as int] as int);
                    }
                    let ghost len0 = result@.len();
                    let tx = *self.pending_transactions.get(&e.tx_hash().0).unwrap();
                    result.push(tx);
                    let p = pos[j];
                    let lj = lists[j].len();
                    assert(p < lj);
                    pos.set(j, p + 1);
                    proof {
                        let next = remaining_lists(lists_spec, pos@);
                        assert(next =~= cur.update(j as int, cur[j as int].drop_first())) by {
                            assert(lists_spec[j as int].skip(p + 1) =~= lists_spec[j as int].skip(p as int).drop_first());
                        }
                        let k = (limit - len0) as nat;
                        assert(select_entries(cur, k) == seq![cur[j as int][0]] + select_entries(next, (k - 1) as nat));
                        chosen = chosen.push(e@);
                        assert(result@ =~= chosen.map_values(|e: EntryView| pm[e.hash]));
                    }
                },
            }
        }
        result
    }

    /// The pending transactions grouped by sender.
    fn group_pending(&self) -> (res: ByteMap<Vec<Transaction>>)
        requires
            self.wf(),
        ensures
            res.wf(),
            res.entries().map_values(|e: (Seq<u8>, Vec<Transaction>)| (e.0, e.1@)) == group_by_sender(
                pending_txs(self@),
            ),
    {
        let ghost all = pending_txs(self@);
        let mut groups: ByteMap<Vec<Transaction>> = ByteMap::new();
        let n = self.pending_transactions.len();
        let mut i: usize = 0;
        assert(groups.entries().map_values(|e: (Seq<u8>, Vec<Transaction>)| (e.0, e.1@)) =~= group_by_sender(all.take(0)));
        while i < n
            invariant
                self.wf(),
                all == pending_txs(self@),
                n == all.len(),
                i <= n,
                groups.wf(),
                groups.entries().map_values(|e: (Seq<u8>, Vec<Transaction>)| (e.0, e.1@))
                    == group_by_sender(all.take(i as int)),
            decreases n - i,
        {
            let tx = *self.pending_transactions.value_at(i);
            let key = tx.sender().as_bytes();
            let ghost before = groups.entries();
            let ghost gv = group_by_sender(all.take(i as int));
            proof {
                crate::map::lemma_same_keys(before, gv, key@);
                let t = all.take(i + 1);
                assert(t.drop_last() =~= all.take(i as int));
                assert(t.last() == tx);
            }
            match groups.find(&key) {
                Some(j) => {
                    let mut v = groups.replace_at(j, Vec::new());
                    v.push(tx);
                    groups.replace_at(j, v);
                    assert(groups.entries().map_values(|e: (Seq<u8>, Vec<Transaction>)| (e.0, e.1@))
                        =~= gv.update(j as int, (key@, gv[j as int].1.push(tx))));
                },
                None => {
                    let mut v: Vec<Transaction> = Vec::new();
                    v.push(tx);
                    groups.insert(key, v);
                    assert(groups.entries().map_values(|e: (Seq<u8>, Vec<Transaction>)| (e.0, e.1@))
                        =~= gv.push((key@, seq![tx])));
                },
            }
            i += 1;
        }
        assert(all.take(n as int) =~= all);
        groups
    }

    /// Rebuilds every queue and reservation from the pending transactions
    /// against the committed state: per sender (an account is required),
    /// from the account's nonce, only consecutive nonces that the balance
    /// covers are kept. The pending transactions do not change.
    pub fn rebuild_reservations(&mut self, state: &State) -> (res: Result<(), TransactionError>)
        requires
            old(self).wf(),
        ensures
            final(self).wf(),
            (res, final(self)@) == rebuild_result(old(self)@, state@.accounts),
    {
        reveal(rebuild_result);
        self.accounts.clear();
        self.pending_balances.clear();
        let groups = self.group_pending();
        let ghost gs = group_by_sender(pending_txs(self@));
        let ng = groups.len();
        let mut g: usize = 0;
        assert(gs.skip(0) =~= gs);
        assert(queue_views(self.accounts.entries()) =~= Seq::<(Seq<u8>, QueueView)>::empty());
        while g < ng
            invariant
                self.wf(),
                self@.pending == old(self)@.pending,
                gs == group_by_sender(pending_txs(old(self)@)),
                groups.wf(),
                groups.entries().map_values(|e: (Seq<u8>, Vec<Transaction>)| (e.0, e.1@)) == gs,
                ng == gs.len(),
                g <= ng,
                rebuild_result(old(self)@, state@.accounts) == ({
                    let (r, qs, bs) = rebuild_spec(gs.skip(g as int), state@.accounts, self@.accounts, self@.balances);
                    (r, MempoolView { pending: old(self)@.pending, accounts: qs, balances: bs })
                }),
            decreases ng - g,
        {
            let key = groups.key_at(g);
            let txs = groups.value_at(g);
            let ghost rest = gs.skip(g as int);
            assert(rest[0] == gs[g as int]);
            assert(rest[0].0 == key@);
            assert(rest[0].1 == txs@);
            assert(rest.drop_first() =~= gs.skip(g + 1));
            let sender = Address(crate::crypto::PublicKey(key));
            let account = match state.get_account(&sender) {
                Some(a) => *a,
                None => {
                    return Err(TransactionError::Account(AccountError::AccountNotFound));
                },
            };
            let sorted = sorted_by_nonce(txs);
            let (queue, reserved) = reserve_sender(&sorted, account.nonce(), account.balance())?;
            if !queue.is_empty() {
                proof {
                    lemma_queue_views_insert(self.accounts.entries(), key@, queue);
                }
                let ghost before = self.accounts.entries();
                self.accounts.insert(key, queue);
                proof {
                    assert forall|j: int| 0 <= j < self.accounts.entries().len() implies (
                    #[trigger] self.accounts.entries()[j]).1@.wf() by {
                        if has_key(before, key@) {
                            if j != key_index(before, key@) {
                                assert(self.accounts.entries()[j] == before[j]);
                            }
                        } else if j < before.len() {
                            assert(self.accounts.entries()[j] == before[j]);
                        }
                    }
                }
            }
            if reserved > 0 {
                self.pending_balances.insert(key, reserved);
            }
            g += 1;
        }
        assert(gs.skip(g as int) =~= Seq::<(Seq<u8>, Seq<Transaction>)>::empty());
        Ok(())
    }

    /// Removes the mined transactions (by id) and rebuilds the queues and
    /// reservations from what remains.
    pub fn remove_mined_transactions(&mut self, mined_txs: &[Transaction], state: &State) -> (res:
        Result<(), TransactionError>)
        requires
            old(self).wf(),
        ensures
            final(self).wf(),
            (res, final(self)@) == rebuild_result(
                MempoolView { pending: remove_ids(old(self)@.pending, mined_txs@), ..old(self)@ },
                state@.accounts,
            ),
    {
        reveal(remove_ids);
        let ghost mined = mined_txs@;
        let mut i: usize = 0;
        assert(mined.skip(0) =~= mined);
        while i < mined_txs.len()
            invariant
                self.wf(),
                mined == mined_txs@,
                i <= mined.len(),
                self@.accounts == old(self)@.accounts,
                self@.balances == old(self)@.balances,
                remove_ids(old(self)@.pending, mined) == remove_ids(self@.pending, mined.skip(i as int)),
            decreases mined.len() - i,
        {
            reveal(remove_ids);
            let tx_hash = mined_txs[i].id();
            assert(mined.skip(i as int)[0] == mined[i as int]);
            assert(mined.skip(i as int).drop_first() =~= mined.skip(i + 1));
            self.pending_transactions.remove(&tx_hash.0);
            i += 1;
        }
        assert(mined.skip(i as int) =~= Seq::<Transaction>::empty());
        self.rebuild_reservations(state)
    }

    /// With `limit == 0`: every queued transaction that is pending, sender
    /// after sender, each sender's in nonce order. With a positive `limit`
    /// the result is empty: the scan returns as soon as the result is below
    /// the limit, which it is from the start.
    pub fn get_nonce_ordered_transactions(&self, limit: usize) -> (res: Vec<Transaction>)
        requires
            self.wf(),
        ensures
            limit > 0 ==> res@ == Seq::<Transaction>::empty(),
            limit == 0 ==> res@ == nonce_ordered_spec(self@.accounts, entries_to_map(self@.pending)),
    {
        let ghost pm = entries_to_map(self@.pending);
        let ghost accts = self@.accounts;
        let mut result: Vec<Transaction> = Vec::new();
        let n = self.accounts.len();
        let mut a: usize = 0;
        assert(accts.skip(0) =~= accts);
        assert(result@ + nonce_ordered_spec(accts.skip(0), pm) =~= nonce_ordered_spec(accts, pm));
        while a < n
            invariant
                self.wf(),
                pm == entries_to_map(self@.pending),
                self.pending_transactions@ == pm,
                accts == self@.accounts,
                n == accts.len(),
                a <= n,
                limit > 0 ==> result@ == Seq::<Transaction>::empty(),
                limit == 0 ==> result@ + nonce_ordered_spec(accts.skip(a as int), pm)
                    == nonce_ordered_spec(accts, pm),
            decreases n - a,
        {
            let queue = self.accounts.value_at(a);
            let ghost txs = queue@.txs;
            let ghost rest = accts.skip(a as int);
            assert(rest[0].1.txs == txs);
            assert(rest.drop_first() =~= accts.skip(a + 1));
            let m = queue.len();
            let mut j: usize = 0;
            let ghost before = result@;
            assert(txs.skip(0) =~= txs);
            while j < m
                invariant
                    self.wf(),
                    self.pending_transactions@ == pm,
                    queue@.txs == txs,
                    m == txs.len(),
                    j <= m,
                    limit > 0 ==> result@ == Seq::<Transaction>::empty(),
                    limit == 0 ==> result@ + queued_pending(txs.skip(j as int), pm) == before
                        + queued_pending(txs, pm),
                decreases m - j,
            {
                if result.len() < limit {
                    return result;
                }
                let (_, tx_hash) = queue.entry_at(j);
                let ghost r = txs.skip(j as int);
                assert(r[0] == txs[j as int]);
                assert(r.drop_first() =~= txs.skip(j + 1));
                match self.pending_transactions.get(&tx_hash.0) {
                    Some(tx) => {
                        result.push(*tx);
                        assert(result@ + queued_pending(txs.skip(j + 1), pm) =~= before
                            + queued_pending(txs, pm));
                    },
                    None => {
                        assert(result@ + queued_pending(txs.skip(j + 1), pm) =~= before
                            + queued_pending(txs, pm));
                    },
                }
                j += 1;
            }
            proof {
                assert(txs.skip(j as int) =~= Seq::<(u64, Seq<u8>)>::empty());
                if limit == 0 {
                    assert(result@ =~= before + queued_pending(txs, pm));
                    assert(result@ + nonce_ordered_spec(accts.skip(a + 1), pm) =~= before
                        + nonce_ordered_spec(rest, pm));
                }
            }
            a += 1;
        }
        proof {
            assert(accts.skip(a as int) =~= Seq::<(Seq<u8>, QueueView)>::empty());
            if limit == 0 {
                assert(result@ + Seq::<Transaction>::empty() =~= result@);
            }
        }
        result
    }
}

} // verus!
