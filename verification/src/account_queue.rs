//! The pending transactions of one sender, in nonce order.
use vstd::prelude::*;
use crate::error::{AccountError, TransactionError};

verus! {

broadcast use vstd::array::group_array_axioms;

/// The abstract value of a queue: the next nonce it accepts, and its
/// transactions as (nonce, transaction hash) pairs in nonce order.
pub struct QueueView {
    pub next: u64,
    pub txs: Seq<(u64, Seq<u8>)>,
}

impl QueueView {
    /// Nonces strictly increase along the queue and none exceeds `next`.
    pub open spec fn wf(self) -> bool {
        &&& forall|i: int, j: int|
            0 <= i < j < self.txs.len() ==> #[trigger] self.txs[i].0 < #[trigger] self.txs[j].0
        &&& forall|i: int| 0 <= i < self.txs.len() ==> #[trigger] self.txs[i].0 <= self.next
    }
}

/// The transactions of a queue after `(nonce, hash)` is stored: a
/// transaction already under `nonce` (which can only be the last one) is
/// replaced, otherwise the pair goes last.
pub open spec fn queue_store(txs: Seq<(u64, Seq<u8>)>, nonce: u64, hash: Seq<u8>) -> Seq<
    (u64, Seq<u8>),
> {
    if txs.len() > 0 && txs.last().0 == nonce {
        txs.drop_last().push((nonce, hash))
    } else {
        txs.push((nonce, hash))
    }
}

/// What `AccountQueue::push` does: the error, if any, and the queue after it.
/// Only the next accepted nonce is taken; at `u64::MAX` the transaction is
/// stored but the next nonce cannot advance, and the push reports an
/// overflow.
pub open spec fn queue_push(q: QueueView, nonce: u64, hash: Seq<u8>) -> (
    Result<(), TransactionError>,
    QueueView,
) {
    if nonce != q.next {
        (Err(TransactionError::InvalidNonce { expected: q.next, got: nonce }), q)
    } else if q.next == u64::MAX {
        (
            Err(TransactionError::Account(AccountError::NonceOverflow)),
            QueueView { next: q.next, txs: queue_store(q.txs, nonce, hash) },
        )
    } else {
        (Ok(()), QueueView { next: (q.next + 1) as u64, txs: queue_store(q.txs, nonce, hash) })
    }
}

/// Whether a pair's nonce differs from `nonce`.
pub open spec fn nonce_differs(nonce: u64) -> spec_fn((u64, Seq<u8>)) -> bool {
    |e: (u64, Seq<u8>)| e.0 != nonce
}

/// The pairs of `txs` whose nonce is not `nonce`, in order.
pub open spec fn queue_without(txs: Seq<(u64, Seq<u8>)>, nonce: u64) -> Seq<(u64, Seq<u8>)> {
    txs.filter(nonce_differs(nonce))
}

#[derive(Debug)]
pub struct AccountQueue {
    next_accepted_nonce: u64,
    transactions: Vec<(u64, crate::crypto::Hash)>,
}

impl View for AccountQueue {
    type V = QueueView;

    closed spec fn view(&self) -> QueueView {
        QueueView {
            next: self.next_accepted_nonce,
            txs: self.transactions@.map_values(|e: (u64, crate::crypto::Hash)| (e.0, e.1@)),
        }
    }
}

impl AccountQueue {
    /// An empty queue that accepts `nonce` next.
    pub fn new(nonce: u64) -> (res: AccountQueue)
        ensures
            res@ == (QueueView { next: nonce, txs: Seq::empty() }),
            res@.wf(),
    {
        let res = AccountQueue { next_accepted_nonce: nonce, transactions: Vec::new() };
        assert(res@.txs =~= Seq::<(u64, Seq<u8>)>::empty());
        res
    }

    pub fn next_accepted_nonce(&self) -> (res: u64)
        ensures
            res == self@.next,
    {
        self.next_accepted_nonce
    }

    /// The queued (nonce, hash) pairs in nonce order.
    pub fn transactions(&self) -> (res: &[(u64, crate::crypto::Hash)])
        ensures
            res@.map_values(|e: (u64, crate::crypto::Hash)| (e.0, e.1@)) == self@.txs,
    {
        self.transactions.as_slice()
    }

    pub fn len(&self) -> (res: usize)
        ensures
            res == self@.txs.len(),
    {
        self.transactions.len()
    }

    pub fn is_empty(&self) -> (res: bool)
        ensures
            res == (self@.txs.len() == 0),
    {
        self.transactions.len() == 0
    }

    /// The pair at position `i` in nonce order.
    pub fn entry_at(&self, i: usize) -> (res: (u64, crate::crypto::Hash))
        requires
            i < self@.txs.len(),
        ensures
            res.0 == self@.txs[i as int].0,
            res.1@ == self@.txs[i as int].1,
    {
        self.transactions[i]
    }

    /// The first transaction in nonce order: the next one of this account
    /// that can be executed.
    pub fn front(&self) -> (res: Option<(u64, crate::crypto::Hash)>)
        ensures
            res is None <==> self@.txs.len() == 0,
            res matches Some(e) ==> e.0 == self@.txs[0].0 && e.1@ == self@.txs[0].1,
    {
        if self.transactions.len() == 0 {
            None
        } else {
            Some(self.transactions[0])
        }
    }

    /// Removes and returns the first transaction in nonce order; the next
    /// accepted nonce does not change.
    pub fn pop_front(&mut self) -> (res: Option<(u64, crate::crypto::Hash)>)
        requires
            old(self)@.wf(),
        ensures
            final(self)@.wf(),
            final(self)@.next == old(self)@.next,
            old(self)@.txs.len() == 0 ==> res is None && final(self)@ == old(self)@,
            old(self)@.txs.len() > 0 ==> (res matches Some(e) && e.0 == old(self)@.txs[0].0 && e.1@
                == old(self)@.txs[0].1 && final(self)@.txs == old(self)@.txs.drop_first()),
    {
        if self.transactions.len() == 0 {
            None
        } else {
            let e = self.transactions.remove(0);
            assert(self@.txs =~= old(self)@.txs.drop_first());
            Some(e)
        }
    }

    /// Adds a transaction; only the next accepted nonce is taken, and the
    /// next accepted nonce then advances by one.
    pub fn push(&mut self, nonce: u64, tx_hash: crate::crypto::Hash) -> (res: Result<
        (),
        TransactionError,
    >)
        requires
            old(self)@.wf(),
        ensures
            final(self)@.wf(),
            (res, final(self)@) == queue_push(old(self)@, nonce, tx_hash@),
    {
        if nonce != self.next_accepted_nonce {
            return Err(TransactionError::InvalidNonce { expected: self.next_accepted_nonce, got: nonce });
        }
        let n = self.transactions.len();
        proof {
            if n > 0 {
                assert(old(self)@.txs[n - 1].0 <= old(self)@.next);
            }
        }
        if n > 0 && self.transactions[n - 1].0 == nonce {
            self.transactions.set(n - 1, (nonce, tx_hash));
            assert(self@.txs =~= old(self)@.txs.drop_last().push((nonce, tx_hash@)));
        } else {
            self.transactions.push((nonce, tx_hash));
            assert(self@.txs =~= old(self)@.txs.push((nonce, tx_hash@)));
        }
        match self.next_accepted_nonce.checked_add(1) {
            Some(next) => {
                self.next_accepted_nonce = next;
                Ok(())
            },
            None => Err(TransactionError::Account(AccountError::NonceOverflow)),
        }
    }

    /// Removes the transaction with nonce `nonce`, if there is one.
    pub fn remove(&mut self, nonce: u64) -> (res: Option<crate::crypto::Hash>)
        requires
            old(self)@.wf(),
        ensures
            final(self)@.wf(),
            final(self)@.next == old(self)@.next,
            final(self)@.txs == queue_without(old(self)@.txs, nonce),
            res is None <==> forall|i: int|
                0 <= i < old(self)@.txs.len() ==> #[trigger] old(self)@.txs[i].0 != nonce,
            res matches Some(h) ==> exists|i: int|
                0 <= i < old(self)@.txs.len() && #[trigger] old(self)@.txs[i].0 == nonce
                    && old(self)@.txs[i].1 == h@,
    {
        let ghost s = old(self)@.txs;
        let mut i: usize = 0;
        while i < self.transactions.len()
            invariant
                self@ == old(self)@,
                old(self)@.wf(),
                s == self@.txs,
                i <= s.len(),
                forall|j: int| 0 <= j < i ==> #[trigger] s[j].0 != nonce,
            decreases s.len() - i,
        {
            if self.transactions[i].0 == nonce {
                let e = self.transactions.remove(i);
                proof {
                    let t = s.remove(i as int);
                    assert(self@.txs =~= t);
                    lemma_filter_skips_one(s, nonce, i as int);
                    assert(old(self)@.txs[i as int].0 == nonce);
                    assert(old(self)@.txs[i as int].1 == e.1@);
                }
                return Some(e.1);
            }
            i += 1;
        }
        proof {
            lemma_filter_keeps_all(s, nonce);
        }
        None
    }
}

/// In a strictly increasing queue, removing the pair at `i` (the only one
/// with nonce `nonce`) is filtering the nonce out.
proof fn lemma_filter_skips_one(s: Seq<(u64, Seq<u8>)>, nonce: u64, i: int)
    requires
        0 <= i < s.len(),
        s[i].0 == nonce,
        forall|a: int, b: int| 0 <= a < b < s.len() ==> #[trigger] s[a].0 < #[trigger] s[b].0,
    ensures
        queue_without(s, nonce) == s.remove(i),
{
    reveal(Seq::filter);
    let p = nonce_differs(nonce);
    let a = s.take(i);
    let m = seq![s[i]];
    let b = s.skip(i + 1);
    assert(s =~= a + m + b);
    assert forall|j: int| 0 <= j < a.len() implies #[trigger] a[j].0 != nonce by {
        assert(s[j].0 < s[i].0);
    }
    assert forall|j: int| 0 <= j < b.len() implies #[trigger] b[j].0 != nonce by {
        assert(s[i].0 < s[i + 1 + j].0);
    }
    lemma_filter_keeps_all(a, nonce);
    lemma_filter_keeps_all(b, nonce);
    Seq::filter_distributes_over_add(a + m, b, p);
    Seq::filter_distributes_over_add(a, m, p);
    assert(m.filter(p) =~= Seq::<(u64, Seq<u8>)>::empty()) by {
        assert(m.drop_last() =~= Seq::<(u64, Seq<u8>)>::empty());
        assert(m.drop_last().filter(p) =~= Seq::<(u64, Seq<u8>)>::empty());
        assert(m.last() == s[i]);
        assert(!p(m.last()));
    }
    assert(a + b =~= s.remove(i));
    assert((a + m + b).filter(p) =~= a + b);
}

/// Filtering out a nonce that no pair has changes nothing.
proof fn lemma_filter_keeps_all(s: Seq<(u64, Seq<u8>)>, nonce: u64)
    requires
        forall|j: int| 0 <= j < s.len() ==> #[trigger] s[j].0 != nonce,
    ensures
        queue_without(s, nonce) == s,
    decreases s.len(),
{
    reveal(Seq::filter);
    let p = nonce_differs(nonce);
    if s.len() > 0 {
        lemma_filter_keeps_all(s.drop_last(), nonce);
        assert(s.drop_last().push(s.last()) =~= s);
    } else {
        assert(s.filter(p) =~= s);
    }
}

} // verus!
