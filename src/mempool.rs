use crate::accounts::{amount, Accounts};
use crate::transaction::Transaction;
use vstd::prelude::*;

verus! {

/// Two transfers compete for the same place: same sender, same nonce.
pub open spec fn same_slot(a: Transaction, b: Transaction) -> bool {
    a.sender@ == b.sender@ && a.nonce == b.nonce
}

/// No two pending transfers share a sender and a nonce.
pub open spec fn slots_unique(s: Seq<Transaction>) -> bool {
    forall|i: int, j: int| 0 <= i < j < s.len() ==> !same_slot(#[trigger] s[i], #[trigger] s[j])
}

/// The pending transfers that can still be committed: those whose nonce is past
/// their sender's committed nonce, in their order.
pub open spec fn still_reachable(s: Seq<Transaction>, nonces: Map<Seq<char>, u64>) -> Seq<Transaction>
    decreases s.len(),
{
    if s.len() == 0 {
        Seq::empty()
    } else {
        let rest = still_reachable(s.drop_last(), nonces);
        if s.last().nonce > amount(nonces, s.last().sender@) {
            rest.push(s.last())
        } else {
            rest
        }
    }
}

/// The pool without the transfer that competes with `t`, in order.
pub open spec fn without_slot(s: Seq<Transaction>, t: Transaction) -> Seq<Transaction>
    decreases s.len(),
{
    if s.len() == 0 {
        Seq::empty()
    } else {
        let rest = without_slot(s.drop_last(), t);
        if same_slot(s.last(), t) {
            rest
        } else {
            rest.push(s.last())
        }
    }
}

/// The pool after admitting `t`: the pending transfer with the same sender and
/// nonce, if any, is superseded and leaves; `t` joins at the back.
pub open spec fn pushed(s: Seq<Transaction>, t: Transaction) -> Seq<Transaction> {
    without_slot(s, t).push(t)
}

proof fn lemma_without_from(s: Seq<Transaction>, t: Transaction)
    ensures
        forall|k: int| 0 <= k < without_slot(s, t).len() ==> !same_slot(#[trigger] without_slot(s, t)[k], t)
            && exists|j: int| 0 <= j < s.len() && without_slot(s, t)[k] == s[j],
    decreases s.len(),
{
    if s.len() > 0 {
        let d = s.drop_last();
        lemma_without_from(d, t);
        let r = without_slot(s, t);
        let rd = without_slot(d, t);
        assert forall|k: int| 0 <= k < r.len() implies !same_slot(#[trigger] r[k], t) && exists|j: int|
            0 <= j < s.len() && r[k] == s[j] by {
            if k < rd.len() {
                assert(r[k] == rd[k]);
                let j = choose|j: int| 0 <= j < d.len() && rd[k] == d[j];
                assert(d[j] == s[j]);
            } else {
                assert(r[k] == s[s.len() - 1]);
            }
        }
    }
}

proof fn lemma_without_unique(s: Seq<Transaction>, t: Transaction)
    requires
        slots_unique(s),
    ensures
        slots_unique(without_slot(s, t)),
    decreases s.len(),
{
    if s.len() > 0 {
        let d = s.drop_last();
        assert forall|a: int, b: int| 0 <= a < b < d.len() implies !same_slot(#[trigger] d[a], #[trigger] d[b]) by {
            assert(d[a] == s[a] && d[b] == s[b]);
        }
        lemma_without_unique(d, t);
        lemma_without_from(d, t);
        let rd = without_slot(d, t);
        let last = s.last();
        if !same_slot(last, t) {
            let r = rd.push(last);
            assert forall|a: int, b: int| 0 <= a < b < r.len() implies !same_slot(#[trigger] r[a], #[trigger] r[b]) by {
                assert(r[a] == rd[a]);
                if b < rd.len() {
                    assert(r[b] == rd[b]);
                } else {
                    let j = choose|j: int| 0 <= j < d.len() && rd[a] == d[j];
                    assert(d[j] == s[j]);
                    assert(!same_slot(s[j], s[s.len() - 1]));
                }
            }
        }
    }
}

proof fn lemma_without_absent(s: Seq<Transaction>, t: Transaction)
    requires
        forall|i: int| 0 <= i < s.len() ==> !same_slot(#[trigger] s[i], t),
    ensures
        without_slot(s, t) == s,
    decreases s.len(),
{
    if s.len() > 0 {
        let d = s.drop_last();
        assert forall|i: int| 0 <= i < d.len() implies !same_slot(#[trigger] d[i], t) by {
            assert(d[i] == s[i]);
        }
        lemma_without_absent(d, t);
        assert(!same_slot(s[s.len() - 1], t));
        assert(d.push(s.last()) =~= s);
    }
}

/// Admitting the same transfer twice leaves the pool as admitting it once.
pub proof fn lemma_push_twice(s: Seq<Transaction>, t: Transaction)
    ensures
        pushed(pushed(s, t), t) == pushed(s, t),
{
    let w = without_slot(s, t);
    let p = w.push(t);
    assert(p.drop_last() =~= w);
    assert(same_slot(p.last(), t));
    lemma_without_from(s, t);
    lemma_without_absent(w, t);
}

/// A first-in first-out pool of admitted, uncommitted transfers.
pub struct Mempool {
    pool: Vec<Transaction>,
}

impl View for Mempool {
    type V = Seq<Transaction>;

    closed spec fn view(&self) -> Seq<Transaction> {
        self.pool@
    }
}

impl Mempool {
    /// How many transfers wait.
    pub fn len(&self) -> (r: u64)
        ensures
            r == self@.len(),
    {
        self.pool.len() as u64
    }

    /// An empty pool.
    pub fn new() -> (r: Mempool)
        ensures
            r@ == Seq::<Transaction>::empty(),
    {
        Mempool { pool: Vec::new() }
    }

    /// Adds a transfer at the back; a pending one with the same sender and
    /// nonce leaves.
    pub fn push(&mut self, transaction: Transaction)
        requires
            slots_unique(old(self)@),
        ensures
            slots_unique(final(self)@),
            final(self)@ == pushed(old(self)@, transaction),
    {
        let ghost start = self.pool@;
        let key = transaction.sender.clone();
        let mut kept: Vec<Transaction> = Vec::new();
        while self.pool.len() > 0
            invariant
                key@ == transaction.sender@,
                without_slot(start, transaction) == without_slot(self.pool@, transaction) + kept@,
            decreases self.pool@.len(),
        {
            let ghost before = self.pool@;
            let t = self.pool.pop().unwrap();
            proof {
                assert(before.drop_last() =~= self.pool@);
            }
            if !(t.nonce == transaction.nonce && t.sender == key) {
                proof {
                    assert(without_slot(self.pool@, transaction).push(t) + kept@ =~= without_slot(
                        self.pool@,
                        transaction,
                    ) + kept@.insert(0, t));
                }
                kept.insert(0, t);
            }
        }
        proof {
            assert(without_slot(self.pool@, transaction) =~= Seq::<Transaction>::empty());
            assert(kept@ =~= without_slot(start, transaction));
            lemma_without_unique(start, transaction);
            lemma_without_from(start, transaction);
            let r = kept@.push(transaction);
            assert forall|a: int, b: int| 0 <= a < b < r.len() implies !same_slot(#[trigger] r[a], #[trigger] r[b]) by {
                assert(r[a] == kept@[a]);
                if b < kept@.len() {
                    assert(r[b] == kept@[b]);
                }
            }
        }
        kept.push(transaction);
        self.pool = kept;
    }

    /// Takes the first `n` transfers, or all where fewer wait, in their order.
    pub fn drain(&mut self, n: usize) -> (r: Vec<Transaction>)
        ensures
            n <= old(self)@.len() ==> r@ == old(self)@.subrange(0, n as int) && final(self)@ == old(self)@.subrange(n as int, old(self)@.len() as int),
            n > old(self)@.len() ==> r@ == old(self)@ && final(self)@.len() == 0,
    {
        let mut out: Vec<Transaction> = Vec::new();
        let ghost start = self.pool@;
        let mut k: usize = 0;
        while k < n && self.pool.len() > 0
            invariant
                k <= n,
                out@ + self.pool@ == start,
                out@.len() == k,
            decreases n - k,
        {
            let t = self.pool.remove(0);
            proof {
                assert(out@.push(t) + self.pool@ =~= start);
            }
            out.push(t);
            k = k + 1;
        }
        proof {
            if n <= start.len() {
                assert(out@ =~= start.subrange(0, n as int));
                assert(self.pool@ =~= start.subrange(n as int, start.len() as int));
            } else {
                assert(self.pool@.len() == 0);
                assert(out@ =~= start);
            }
        }
        out
    }

    /// Drops every transfer whose nonce is no longer ahead of its sender's
    /// committed nonce.
    pub fn evict(&mut self, nonces: &Accounts)
        requires
            nonces.wf(),
            slots_unique(old(self)@),
        ensures
            final(self)@ == still_reachable(old(self)@, nonces@),
            slots_unique(final(self)@),
    {
        let ghost start = self.pool@;
        let mut kept: Vec<Transaction> = Vec::new();
        while self.pool.len() > 0
            invariant
                still_reachable(start, nonces@) == still_reachable(self.pool@, nonces@) + kept@,
                nonces.wf(),
            decreases self.pool@.len(),
        {
            let ghost before = self.pool@;
            let t = self.pool.pop().unwrap();
            proof {
                assert(before.drop_last() =~= self.pool@);
            }
            if t.nonce > nonces.get(t.sender.as_str()) {
                proof {
                    assert(still_reachable(self.pool@, nonces@).push(t) + kept@ =~= still_reachable(
                        self.pool@,
                        nonces@,
                    ) + kept@.insert(0, t));
                }
                kept.insert(0, t);
            }
        }
        proof {
            assert(still_reachable(self.pool@, nonces@) =~= Seq::<Transaction>::empty());
            assert(kept@ =~= still_reachable(start, nonces@));
            lemma_reachable_unique(start, nonces@);
        }
        self.pool = kept;
    }
}

proof fn lemma_reachable_from(s: Seq<Transaction>, nonces: Map<Seq<char>, u64>)
    ensures
        forall|k: int| 0 <= k < still_reachable(s, nonces).len() ==> exists|j: int|
            0 <= j < s.len() && #[trigger] still_reachable(s, nonces)[k] == s[j],
    decreases s.len(),
{
    if s.len() > 0 {
        let d = s.drop_last();
        lemma_reachable_from(d, nonces);
        let r = still_reachable(s, nonces);
        let rd = still_reachable(d, nonces);
        assert forall|k: int| 0 <= k < r.len() implies exists|j: int| 0 <= j < s.len() && #[trigger] r[k] == s[j] by {
            if k < rd.len() {
                assert(r[k] == rd[k]);
                let j = choose|j: int| 0 <= j < d.len() && rd[k] == d[j];
                assert(d[j] == s[j]);
            } else {
                assert(r[k] == s[s.len() - 1]);
            }
        }
    }
}

proof fn lemma_reachable_unique(s: Seq<Transaction>, nonces: Map<Seq<char>, u64>)
    requires
        slots_unique(s),
    ensures
        slots_unique(still_reachable(s, nonces)),
    decreases s.len(),
{
    if s.len() > 0 {
        let d = s.drop_last();
        assert forall|a: int, b: int| 0 <= a < b < d.len() implies !same_slot(#[trigger] d[a], #[trigger] d[b]) by {
            assert(d[a] == s[a] && d[b] == s[b]);
        }
        lemma_reachable_unique(d, nonces);
        lemma_reachable_from(d, nonces);
        let rd = still_reachable(d, nonces);
        let t = s.last();
        assert forall|k: int| 0 <= k < rd.len() implies !same_slot(#[trigger] rd[k], t) by {
            let j = choose|j: int| 0 <= j < d.len() && rd[k] == d[j];
            assert(d[j] == s[j]);
            assert(!same_slot(s[j], s[s.len() - 1]));
        }
        if t.nonce > amount(nonces, t.sender@) {
            let r = rd.push(t);
            assert forall|a: int, b: int| 0 <= a < b < r.len() implies !same_slot(#[trigger] r[a], #[trigger] r[b]) by {
                if b < rd.len() {
                    assert(r[a] == rd[a] && r[b] == rd[b]);
                } else {
                    assert(r[a] == rd[a]);
                }
            }
        }
    }
}

} // verus!
