use crate::accounts::{amount, Accounts};
use crate::block::Block;
use crate::error::LedgerError;
use crate::mempool::{pushed, slots_unique, still_reachable, Mempool};
use crate::transaction::Transaction;
use vstd::prelude::*;

verus! {

/// How many transfers a minted block takes from the pool at most.
pub const MAX_BLOCK_TRANSACTIONS: usize = 10;

/// Balances and nonces after one transfer, or why it is refused. The sender is
/// debited before the receiver is credited, so a transfer to oneself changes
/// nothing but the nonce.
pub open spec fn apply_tx(
    bal: Map<Seq<char>, u64>,
    non: Map<Seq<char>, u64>,
    t: Transaction,
) -> Result<(Map<Seq<char>, u64>, Map<Seq<char>, u64>), LedgerError> {
    let s = t.sender@;
    if !t.valid() {
        Err(LedgerError::InvalidTransaction)
    } else if t.nonce != amount(non, s) + 1 {
        Err(LedgerError::NonceGap)
    } else if amount(bal, s) < t.amount {
        Err(LedgerError::InsufficientBalance)
    } else {
        let debited = bal.insert(s, (amount(bal, s) - t.amount) as u64);
        let credit = amount(debited, t.receiver@) + t.amount;
        if credit > u64::MAX {
            Err(LedgerError::BalanceOverflow)
        } else {
            Ok((debited.insert(t.receiver@, credit as u64), non.insert(s, t.nonce)))
        }
    }
}

/// Balances and nonces after the transfers in order, or the reason that the
/// first refused one gives.
pub open spec fn apply_txs(
    bal: Map<Seq<char>, u64>,
    non: Map<Seq<char>, u64>,
    txs: Seq<Transaction>,
) -> Result<(Map<Seq<char>, u64>, Map<Seq<char>, u64>), LedgerError>
    decreases txs.len(),
{
    if txs.len() == 0 {
        Ok((bal, non))
    } else {
        match apply_txs(bal, non, txs.drop_last()) {
            Ok(state) => apply_tx(state.0, state.1, txs.last()),
            Err(e) => Err(e),
        }
    }
}

/// The transfers that minting keeps: each one that applies on top of those
/// kept before it, in pool order.
pub open spec fn select_txs(
    bal: Map<Seq<char>, u64>,
    non: Map<Seq<char>, u64>,
    txs: Seq<Transaction>,
) -> Seq<Transaction>
    decreases txs.len(),
{
    if txs.len() == 0 {
        Seq::empty()
    } else {
        match apply_tx(bal, non, txs[0]) {
            Ok(state) => seq![txs[0]] + select_txs(state.0, state.1, txs.subrange(1, txs.len() as int)),
            Err(_) => select_txs(bal, non, txs.subrange(1, txs.len() as int)),
        }
    }
}

/// The transfers that one pass of `select_txs` leaves out, in order.
pub open spec fn select_rest(
    bal: Map<Seq<char>, u64>,
    non: Map<Seq<char>, u64>,
    txs: Seq<Transaction>,
) -> Seq<Transaction>
    decreases txs.len(),
{
    if txs.len() == 0 {
        Seq::empty()
    } else {
        match apply_tx(bal, non, txs[0]) {
            Ok(state) => select_rest(state.0, state.1, txs.subrange(1, txs.len() as int)),
            Err(_) => seq![txs[0]] + select_rest(bal, non, txs.subrange(1, txs.len() as int)),
        }
    }
}

/// The transfers that minting keeps: pass after pass over those not yet kept,
/// each pass keeping every one that applies on top of all kept before it,
/// until a pass keeps none. So a sender's transfers go in in ascending nonce
/// order, contiguous from its next nonce, whatever their order in the pool.
pub open spec fn select_all(
    bal: Map<Seq<char>, u64>,
    non: Map<Seq<char>, u64>,
    txs: Seq<Transaction>,
) -> Seq<Transaction>
    decreases txs.len(),
{
    let kept = select_txs(bal, non, txs);
    let rest = select_rest(bal, non, txs);
    if kept.len() == 0 || rest.len() >= txs.len() || !(apply_txs(bal, non, kept) is Ok) {
        Seq::empty()
    } else {
        let state = apply_txs(bal, non, kept)->Ok_0;
        kept + select_all(state.0, state.1, rest)
    }
}

proof fn lemma_split_len(bal: Map<Seq<char>, u64>, non: Map<Seq<char>, u64>, txs: Seq<Transaction>)
    ensures
        select_txs(bal, non, txs).len() + select_rest(bal, non, txs).len() == txs.len(),
    decreases txs.len(),
{
    if txs.len() > 0 {
        let tail = txs.subrange(1, txs.len() as int);
        match apply_tx(bal, non, txs[0]) {
            Ok(state) => lemma_split_len(state.0, state.1, tail),
            Err(_) => lemma_split_len(bal, non, tail),
        }
    }
}

proof fn lemma_apply_concat(
    bal: Map<Seq<char>, u64>,
    non: Map<Seq<char>, u64>,
    a: Seq<Transaction>,
    c: Seq<Transaction>,
)
    requires
        apply_txs(bal, non, a) is Ok,
    ensures
        apply_txs(bal, non, a + c) == apply_txs(apply_txs(bal, non, a)->Ok_0.0, apply_txs(bal, non, a)->Ok_0.1, c),
    decreases c.len(),
{
    if c.len() == 0 {
        assert(a + c =~= a);
    } else {
        assert((a + c).drop_last() =~= a + c.drop_last());
        assert((a + c).last() == c.last());
        lemma_apply_concat(bal, non, a, c.drop_last());
    }
}

/// One pass of selection from `bal` and `non`: the transfers kept, those left
/// out, and the balances and nonces after the kept ones.
fn select_pass(bal: Accounts, non: Accounts, txs: Vec<Transaction>) -> (r: (
    Vec<Transaction>,
    Vec<Transaction>,
    Accounts,
    Accounts,
))
    requires
        bal.wf(),
        non.wf(),
    ensures
        r.0@ == select_txs(bal@, non@, txs@),
        r.1@ == select_rest(bal@, non@, txs@),
        r.2.wf(),
        r.3.wf(),
        apply_txs(bal@, non@, r.0@) == Ok::<(Map<Seq<char>, u64>, Map<Seq<char>, u64>), LedgerError>((r.2@, r.3@)),
{
    let ghost (b0, n0, t0) = (bal@, non@, txs@);
    let mut bal = bal;
    let mut non = non;
    let mut kept: Vec<Transaction> = Vec::new();
    let mut dropped: Vec<Transaction> = Vec::new();
    let mut rest = txs;
    while rest.len() > 0
        invariant
            bal.wf(),
            non.wf(),
            apply_txs(b0, n0, kept@) == Ok::<(Map<Seq<char>, u64>, Map<Seq<char>, u64>), LedgerError>((bal@, non@)),
            kept@ + select_txs(bal@, non@, rest@) == select_txs(b0, n0, t0),
            dropped@ + select_rest(bal@, non@, rest@) == select_rest(b0, n0, t0),
        decreases rest@.len(),
    {
        let ghost before = rest@;
        let t = rest.remove(0);
        proof {
            assert(before.subrange(1, before.len() as int) =~= rest@);
            assert(kept@.push(t).drop_last() =~= kept@);
        }
        let mut trial_bal = bal.copy();
        let mut trial_non = non.copy();
        match apply_transfer(&mut trial_bal, &mut trial_non, &t) {
            Ok(()) => {
                proof {
                    assert(kept@.push(t) + select_txs(trial_bal@, trial_non@, rest@) =~= kept@ + select_txs(
                        bal@,
                        non@,
                        before,
                    ));
                }
                bal = trial_bal;
                non = trial_non;
                kept.push(t);
            },
            Err(_) => {
                proof {
                    assert(dropped@.push(t) + select_rest(bal@, non@, rest@) =~= dropped@ + select_rest(
                        bal@,
                        non@,
                        before,
                    ));
                }
                dropped.push(t);
            },
        }
    }
    proof {
        assert(kept@ + select_txs(bal@, non@, rest@) =~= kept@);
        assert(dropped@ + select_rest(bal@, non@, rest@) =~= dropped@);
    }
    (kept, dropped, bal, non)
}

/// Block `i` has index `i`, verifies, and names its predecessor's hash.
pub open spec fn chain_linked(bs: Seq<Block>) -> bool {
    forall|i: int|
        0 <= i < bs.len() ==> {
            &&& (#[trigger] bs[i]).index == i
            &&& bs[i].valid()
            &&& (i > 0 ==> bs[i].prev_hash@ == bs[i - 1].hash@)
        }
}

/// The index of the last block, -1 for an empty chain.
pub open spec fn tip_index(bs: Seq<Block>) -> int {
    if bs.len() == 0 {
        -1
    } else {
        bs.last().index as int
    }
}

/// The block is the first one of an empty chain.
pub open spec fn starts_chain(bs: Seq<Block>, b: Block) -> bool {
    bs.len() == 0 && b.index == 0
}

/// The block lies beyond the block after the tip, and waits for its predecessors.
pub open spec fn is_orphan(bs: Seq<Block>, b: Block) -> bool {
    b.index > tip_index(bs) + 1
}

/// What committing a block that is neither a first block nor an orphan gives.
pub open spec fn admission(
    bs: Seq<Block>,
    bal: Map<Seq<char>, u64>,
    non: Map<Seq<char>, u64>,
    b: Block,
) -> Result<(Map<Seq<char>, u64>, Map<Seq<char>, u64>), LedgerError> {
    if b.index <= bs.last().index {
        Err(LedgerError::AlreadySeen)
    } else if b.prev_hash@ != bs.last().hash@ {
        Err(LedgerError::ForkRejected)
    } else if !b.hash_ok() {
        Err(LedgerError::InvalidBlock)
    } else {
        apply_txs(bal, non, b.transactions@)
    }
}

/// What delivering a block answers.
pub open spec fn block_result(
    bs: Seq<Block>,
    bal: Map<Seq<char>, u64>,
    non: Map<Seq<char>, u64>,
    b: Block,
) -> Result<(), LedgerError> {
    if starts_chain(bs, b) || is_orphan(bs, b) {
        Ok(())
    } else {
        match admission(bs, bal, non, b) {
            Ok(_) => Ok(()),
            Err(e) => Err(e),
        }
    }
}

/// `new` starts with `old`.
pub open spec fn extends(old: Seq<Block>, new: Seq<Block>) -> bool {
    old.len() <= new.len() && forall|i: int| 0 <= i < old.len() ==> #[trigger] new[i] == old[i]
}

/// Everything a ledger holds, as values.
pub ghost struct LedgerState {
    pub blocks: Seq<Block>,
    pub orphans: Seq<Block>,
    pub balances: Map<Seq<char>, u64>,
    pub nonces: Map<Seq<char>, u64>,
    pub pending: Seq<Transaction>,
}

/// The position of the first block at or after `from` whose index is `index`.
pub open spec fn first_with_index(bs: Seq<Block>, index: int, from: int) -> Option<int>
    decreases bs.len() - from,
{
    if from < 0 || from >= bs.len() {
        None
    } else if bs[from].index == index {
        Some(from)
    } else {
        first_with_index(bs, index, from + 1)
    }
}

/// The ledger after the orphan sweep: while an orphan follows the tip, the
/// first such leaves the orphans and is committed where `admission` accepts
/// it, dropped otherwise.
pub open spec fn swept(st: LedgerState) -> LedgerState
    decreases st.orphans.len(),
{
    if st.blocks.len() == 0 || st.blocks.last().index == u64::MAX {
        st
    } else {
        match first_with_index(st.orphans, st.blocks.last().index + 1, 0) {
            None => st,
            Some(p) => {
                if 0 <= p < st.orphans.len() {
                    let b = st.orphans[p];
                    let rest = st.orphans.remove(p);
                    match admission(st.blocks, st.balances, st.nonces, b) {
                        Ok(s) => swept(
                            LedgerState {
                                blocks: st.blocks.push(b),
                                orphans: rest,
                                balances: s.0,
                                nonces: s.1,
                                pending: still_reachable(st.pending, s.1),
                            },
                        ),
                        Err(_) => swept(LedgerState { orphans: rest, ..st }),
                    }
                } else {
                    st
                }
            },
        }
    }
}

/// Every committed transfer, block after block, in order.
pub open spec fn committed_txs(bs: Seq<Block>) -> Seq<Transaction>
    decreases bs.len(),
{
    if bs.len() == 0 {
        Seq::empty()
    } else {
        committed_txs(bs.drop_last()) + bs.last().transactions@
    }
}

/// The nonces of the transfers that `s` sent, in order.
pub open spec fn nonces_sent(txs: Seq<Transaction>, s: Seq<char>) -> Seq<u64>
    decreases txs.len(),
{
    if txs.len() == 0 {
        Seq::empty()
    } else if txs.last().sender@ == s {
        nonces_sent(txs.drop_last(), s).push(txs.last().nonce)
    } else {
        nonces_sent(txs.drop_last(), s)
    }
}

/// 1, 2, ..., n.
pub open spec fn count_up(n: nat) -> Seq<u64> {
    Seq::new(n, |i: int| (i + 1) as u64)
}

/// For every sender, the nonces of its transfers in `h` are 1, 2, ... up to
/// its entry in `non`.
pub open spec fn nonces_follow(h: Seq<Transaction>, non: Map<Seq<char>, u64>) -> bool {
    forall|s: Seq<char>| #[trigger] nonces_sent(h, s) == count_up(amount(non, s) as nat)
}

proof fn lemma_history_extends(
    bal: Map<Seq<char>, u64>,
    non: Map<Seq<char>, u64>,
    h: Seq<Transaction>,
    txs: Seq<Transaction>,
)
    requires
        nonces_follow(h, non),
        apply_txs(bal, non, txs) is Ok,
    ensures
        nonces_follow(h + txs, apply_txs(bal, non, txs)->Ok_0.1),
    decreases txs.len(),
{
    if txs.len() == 0 {
        assert(h + txs =~= h);
    } else {
        let d = txs.drop_last();
        lemma_history_extends(bal, non, h, d);
        let state = apply_txs(bal, non, d)->Ok_0;
        let t = txs.last();
        let n2 = apply_txs(bal, non, txs)->Ok_0.1;
        assert((h + txs).drop_last() =~= h + d);
        assert((h + txs).last() == t);
        assert forall|s: Seq<char>| #[trigger] nonces_sent(h + txs, s) == count_up(amount(n2, s) as nat) by {
            assert(nonces_sent(h + d, s) == count_up(amount(state.1, s) as nat));
            if t.sender@ == s {
                assert(count_up(amount(state.1, s) as nat).push(t.nonce) =~= count_up(amount(n2, s) as nat));
            }
        }
    }
}

proof fn lemma_refused_step(
    bal: Map<Seq<char>, u64>,
    non: Map<Seq<char>, u64>,
    txs: Seq<Transaction>,
    i: int,
    prior: (Map<Seq<char>, u64>, Map<Seq<char>, u64>),
)
    requires
        0 <= i < txs.len(),
        apply_txs(bal, non, txs.subrange(0, i)) == Ok::<(Map<Seq<char>, u64>, Map<Seq<char>, u64>), LedgerError>(prior),
        apply_tx(prior.0, prior.1, txs[i]) is Err,
    ensures
        apply_txs(bal, non, txs.subrange(0, i + 1)) is Err,
{
    assert(txs.subrange(0, i + 1).drop_last() =~= txs.subrange(0, i));
    assert(txs.subrange(0, i + 1).last() == txs[i]);
}

proof fn lemma_err_persists(
    bal: Map<Seq<char>, u64>,
    non: Map<Seq<char>, u64>,
    txs: Seq<Transaction>,
    k: int,
)
    requires
        0 <= k <= txs.len(),
        apply_txs(bal, non, txs.subrange(0, k)) is Err,
    ensures
        apply_txs(bal, non, txs) == apply_txs(bal, non, txs.subrange(0, k)),
    decreases txs.len(),
{
    if k == txs.len() {
        assert(txs.subrange(0, k) =~= txs);
    } else {
        assert(txs.drop_last().subrange(0, k) =~= txs.subrange(0, k));
        lemma_err_persists(bal, non, txs.drop_last(), k);
    }
}

proof fn lemma_applied_valid(bal: Map<Seq<char>, u64>, non: Map<Seq<char>, u64>, txs: Seq<Transaction>)
    requires
        apply_txs(bal, non, txs) is Ok,
    ensures
        forall|i: int| 0 <= i < txs.len() ==> #[trigger] txs[i].valid(),
    decreases txs.len(),
{
    if txs.len() > 0 {
        lemma_applied_valid(bal, non, txs.drop_last());
        assert forall|i: int| 0 <= i < txs.len() implies #[trigger] txs[i].valid() by {
            if i < txs.len() - 1 {
                assert(txs.drop_last()[i] == txs[i]);
            }
        }
    }
}

#[verifier::spinoff_prover]
#[verifier::rlimit(100)]
proof fn lemma_link_push(bs: Seq<Block>, b: Block)
    requires
        chain_linked(bs),
        bs.len() > 0,
        b.index == bs.last().index + 1,
        b.valid(),
        b.prev_hash@ == bs.last().hash@,
    ensures
        chain_linked(bs.push(b)),
{
    let n = bs.len() as int;
    assert(bs[n - 1].index == n - 1);
    assert forall|i: int| 0 <= i < bs.push(b).len() implies {
        &&& (#[trigger] bs.push(b)[i]).index == i
        &&& bs.push(b)[i].valid()
        &&& (i > 0 ==> bs.push(b)[i].prev_hash@ == bs.push(b)[i - 1].hash@)
    } by {
        if i < n {
            assert(bs.push(b)[i] == bs[i]);
            if i > 0 {
                assert(bs.push(b)[i - 1] == bs[i - 1]);
            }
        } else {
            assert(bs.push(b)[i - 1] == bs[n - 1]);
        }
    }
}

/// Applies one transfer to working copies of the balances and nonces; on a
/// refusal the copies are to be dropped.
fn apply_transfer(bal: &mut Accounts, non: &mut Accounts, t: &Transaction) -> (r: Result<(), LedgerError>)
    requires
        old(bal).wf(),
        old(non).wf(),
    ensures
        final(bal).wf(),
        final(non).wf(),
        match apply_tx(old(bal)@, old(non)@, *t) {
            Ok(state) => r is Ok && final(bal)@ == state.0 && final(non)@ == state.1,
            Err(e) => r == Err::<(), LedgerError>(e),
        },
{
    if !t.verify() {
        return Err(LedgerError::InvalidTransaction);
    }
    let last = non.get(t.sender.as_str());
    if last == u64::MAX || t.nonce != last + 1 {
        return Err(LedgerError::NonceGap);
    }
    let have = bal.get(t.sender.as_str());
    if have < t.amount {
        return Err(LedgerError::InsufficientBalance);
    }
    bal.set(t.sender.as_str(), have - t.amount);
    let credit = bal.get(t.receiver.as_str());
    if credit > u64::MAX - t.amount {
        return Err(LedgerError::BalanceOverflow);
    }
    bal.set(t.receiver.as_str(), credit + t.amount);
    non.set(t.sender.as_str(), t.nonce);
    Ok(())
}

/// One node's ledger: the committed blocks, the blocks that wait for their
/// predecessors, the balances and nonces that the committed transfers give,
/// and the pool of admitted transfers.
pub struct Chain {
    blocks: Vec<Block>,
    block_orphan: Vec<Block>,
    balance: Accounts,
    nonce: Accounts,
    mempool: Mempool,
}

impl Chain {
    pub closed spec fn blocks_view(&self) -> Seq<Block> {
        self.blocks@
    }

    pub closed spec fn orphans(&self) -> Seq<Block> {
        self.block_orphan@
    }

    pub closed spec fn balances(&self) -> Map<Seq<char>, u64> {
        self.balance@
    }

    pub closed spec fn nonces(&self) -> Map<Seq<char>, u64> {
        self.nonce@
    }

    pub closed spec fn pending(&self) -> Seq<Transaction> {
        self.mempool@
    }

    pub closed spec fn wf(&self) -> bool {
        &&& self.balance.wf()
        &&& self.nonce.wf()
        &&& slots_unique(self.mempool@)
        &&& chain_linked(self.blocks@)
        &&& nonces_follow(committed_txs(self.blocks@), self.nonce@)
    }

    /// The ledger's state as values.
    pub open spec fn ledger(&self) -> LedgerState {
        LedgerState {
            blocks: self.blocks_view(),
            orphans: self.orphans(),
            balances: self.balances(),
            nonces: self.nonces(),
            pending: self.pending(),
        }
    }

    /// No waiting orphan follows the tip: each one that did was committed or
    /// dropped.
    pub open spec fn orphans_settled(&self) -> bool {
        self.blocks_view().len() > 0 ==> forall|i: int| 0 <= i < self.orphans().len() ==>
            (#[trigger] self.orphans()[i]).index != self.blocks_view().last().index + 1
    }

    /// The chain's state is as in `other`.
    pub open spec fn same_state(&self, other: &Chain) -> bool {
        &&& self.blocks_view() == other.blocks_view()
        &&& self.orphans() == other.orphans()
        &&& self.balances() == other.balances()
        &&& self.nonces() == other.nonces()
        &&& self.pending() == other.pending()
    }

    /// An empty ledger: no blocks, no balances, nothing pending.
    pub fn new() -> (r: Chain)
        ensures
            r.wf(),
            r.blocks_view().len() == 0,
            r.orphans().len() == 0,
            r.balances() == Map::<Seq<char>, u64>::empty(),
            r.nonces() == Map::<Seq<char>, u64>::empty(),
            r.pending().len() == 0,
    {
        let c = Chain {
            blocks: Vec::new(),
            block_orphan: Vec::new(),
            balance: Accounts::new(),
            nonce: Accounts::new(),
            mempool: Mempool::new(),
        };
        proof {
            assert forall|s: Seq<char>| #[trigger] nonces_sent(committed_txs(c.blocks@), s) == count_up(
                amount(c.nonce@, s) as nat,
            ) by {
                assert(count_up(0) =~= Seq::<u64>::empty());
            }
        }
        c
    }

    /// Re-validates every block: its index, its hash, its transfers, and its
    /// link to the block before it.
    pub fn verify(&self) -> (r: bool)
        ensures
            r == chain_linked(self.blocks_view()),
    {
        let depth = self.blocks.len();
        let mut i: usize = 0;
        while i < depth
            invariant
                depth == self.blocks@.len(),
                i <= depth,
                forall|j: int| 0 <= j < i ==> {
                    &&& (#[trigger] self.blocks@[j]).index == j
                    &&& self.blocks@[j].valid()
                    &&& (j > 0 ==> self.blocks@[j].prev_hash@ == self.blocks@[j - 1].hash@)
                },
            decreases depth - i,
        {
            let block = &self.blocks[i];
            if block.index != i as u64 {
                return false;
            }
            if !block.verify() {
                return false;
            }
            if i > 0 {
                if self.blocks[i - 1].hash != block.prev_hash {
                    return false;
                }
            }
            i = i + 1;
        }
        true
    }

    /// Admits a transfer to the pool. Refused where its nonce is not past its
    /// sender's committed nonce, or where it does not verify; balances are
    /// checked when it is committed.
    pub fn transaction_add(&mut self, transaction: Transaction) -> (r: Result<(), LedgerError>)
        requires
            old(self).wf(),
        ensures
            final(self).wf(),
            transaction.nonce <= amount(old(self).nonces(), transaction.sender@) ==> r == Err::<(), LedgerError>(LedgerError::AlreadySeen),
            transaction.nonce > amount(old(self).nonces(), transaction.sender@) && !transaction.valid() ==> r == Err::<(), LedgerError>(LedgerError::InvalidTransaction),
            transaction.nonce > amount(old(self).nonces(), transaction.sender@) && transaction.valid() ==> r is Ok,
            r is Err ==> final(self).same_state(old(self)),
            r is Ok ==> {
                &&& final(self).pending() == pushed(old(self).pending(), transaction)
                &&& final(self).blocks_view() == old(self).blocks_view()
                &&& final(self).orphans() == old(self).orphans()
                &&& final(self).balances() == old(self).balances()
                &&& final(self).nonces() == old(self).nonces()
            },
    {
        if self.transaction_seen(transaction.sender.as_str(), transaction.nonce) {
            return Err(LedgerError::AlreadySeen);
        }
        if !transaction.verify() {
            return Err(LedgerError::InvalidTransaction);
        }
        self.mempool.push(transaction);
        Ok(())
    }

    fn transaction_seen(&self, sender: &str, nonce: u64) -> (r: bool)
        requires
            self.wf(),
        ensures
            r == (nonce <= amount(self.nonces(), sender@)),
    {
        nonce <= self.nonce.get(sender)
    }

    /// Takes one delivered block: the first block of an empty chain becomes the
    /// canonical genesis block, a block beyond the next index waits among the
    /// orphans, and any other is checked against the tip and committed whole
    /// or not at all.
    fn append_block(&mut self, block: Block) -> (r: Result<(), LedgerError>)
        requires
            old(self).wf(),
        ensures
            final(self).wf(),
            r == block_result(old(self).blocks_view(), old(self).balances(), old(self).nonces(), block),
            starts_chain(old(self).blocks_view(), block) ==> {
                &&& final(self).blocks_view().len() == 1
                &&& final(self).blocks_view()[0].is_genesis()
                &&& final(self).orphans() == old(self).orphans()
                &&& final(self).balances() == old(self).balances()
                &&& final(self).nonces() == old(self).nonces()
                &&& final(self).pending() == old(self).pending()
            },
            !starts_chain(old(self).blocks_view(), block) && is_orphan(old(self).blocks_view(), block) ==> {
                &&& final(self).blocks_view() == old(self).blocks_view()
                &&& final(self).orphans() == old(self).orphans().push(block)
                &&& final(self).balances() == old(self).balances()
                &&& final(self).nonces() == old(self).nonces()
                &&& final(self).pending() == old(self).pending()
            },
            !starts_chain(old(self).blocks_view(), block) && !is_orphan(old(self).blocks_view(), block) ==> {
                match admission(old(self).blocks_view(), old(self).balances(), old(self).nonces(), block) {
                    Ok(state) => {
                        &&& final(self).blocks_view() == old(self).blocks_view().push(block)
                        &&& final(self).orphans() == old(self).orphans()
                        &&& final(self).balances() == state.0
                        &&& final(self).nonces() == state.1
                        &&& final(self).pending() == still_reachable(old(self).pending(), state.1)
                    },
                    Err(_) => final(self).same_state(old(self)),
                }
            },
    {
        if self.blocks.len() == 0 {
            if block.index == 0 {
                let g = Block::genesis();
                proof {
                    let bs = self.blocks@.push(g);
                    assert(bs.drop_last() =~= self.blocks@);
                    assert(committed_txs(bs) =~= committed_txs(self.blocks@));
                }
                self.blocks.push(g);
                return Ok(());
            }
            self.block_orphan.push(block);
            return Ok(());
        }
        let last = self.blocks.len() - 1;
        let tip_index = self.blocks[last].index;
        if block.index > tip_index && block.index - tip_index > 1 {
            self.block_orphan.push(block);
            return Ok(());
        }
        if block.index <= tip_index {
            return Err(LedgerError::AlreadySeen);
        }
        if block.prev_hash != self.blocks[last].hash {
            return Err(LedgerError::ForkRejected);
        }
        let h = Block::calculate_hash(block.index, block.timestamp, block.prev_hash.as_str(), &block.transactions);
        if block.hash != h {
            return Err(LedgerError::InvalidBlock);
        }
        let (bal, non) = match self.apply_block_transfers(&block.transactions) {
            Ok(state) => state,
            Err(e) => return Err(e),
        };
        proof {
            lemma_applied_valid(self.balance@, self.nonce@, block.transactions@);
            lemma_link_push(self.blocks@, block);
            lemma_history_extends(self.balance@, self.nonce@, committed_txs(self.blocks@), block.transactions@);
            assert(self.blocks@.push(block).drop_last() =~= self.blocks@);
        }
        self.balance = bal;
        self.nonce = non;
        self.blocks.push(block);
        self.mempool.evict(&self.nonce);
        Ok(())
    }

    /// Balances and nonces after the transfers, on copies; the ledger stays as it is.
    fn apply_block_transfers(&self, txs: &Vec<Transaction>) -> (r: Result<(Accounts, Accounts), LedgerError>)
        requires
            self.wf(),
        ensures
            match apply_txs(self.balances(), self.nonces(), txs@) {
                Ok(state) => match r {
                    Ok(tables) => tables.0.wf() && tables.1.wf() && tables.0@ == state.0 && tables.1@ == state.1,
                    Err(_) => false,
                },
                Err(e) => r == Err::<(Accounts, Accounts), LedgerError>(e),
            },
    {
        let mut bal = self.balance.copy();
        let mut non = self.nonce.copy();
        let mut i: usize = 0;
        while i < txs.len()
            invariant
                i <= txs@.len(),
                bal.wf(),
                non.wf(),
                apply_txs(self.balance@, self.nonce@, txs@.subrange(0, i as int)) == Ok::<
                    (Map<Seq<char>, u64>, Map<Seq<char>, u64>),
                    LedgerError,
                >((bal@, non@)),
            decreases txs@.len() - i,
        {
            proof {
                assert(txs@.subrange(0, i as int + 1).drop_last() =~= txs@.subrange(0, i as int));
            }
            match apply_transfer(&mut bal, &mut non, &txs[i]) {
                Ok(()) => {},
                Err(e) => {
                    proof {
                        lemma_err_persists(self.balance@, self.nonce@, txs@, i as int + 1);
                    }
                    return Err(e);
                },
            }
            i = i + 1;
        }
        proof {
            assert(txs@.subrange(0, txs@.len() as int) =~= txs@);
        }
        Ok((bal, non))
    }

    /// The position of the first transfer of `block` that does not apply on
    /// top of the committed balances and nonces and those before it, if any:
    /// the transfer that a refusal of the block names.
    #[verifier::spinoff_prover]
    pub fn first_refused(&self, block: &Block) -> (r: Option<usize>)
        requires
            self.wf(),
        ensures
            match r {
                Some(i) => {
                    &&& i < block.transactions@.len()
                    &&& apply_txs(self.balances(), self.nonces(), block.transactions@.subrange(0, i as int)) is Ok
                    &&& apply_txs(self.balances(), self.nonces(), block.transactions@.subrange(0, i + 1)) is Err
                },
                None => apply_txs(self.balances(), self.nonces(), block.transactions@) is Ok,
            },
    {
        let txs = &block.transactions;
        let mut bal = self.balance.copy();
        let mut non = self.nonce.copy();
        let mut i: usize = 0;
        while i < txs.len()
            invariant
                txs@ == block.transactions@,
                i <= txs@.len(),
                bal.wf(),
                non.wf(),
                apply_txs(self.balance@, self.nonce@, txs@.subrange(0, i as int)) == Ok::<
                    (Map<Seq<char>, u64>, Map<Seq<char>, u64>),
                    LedgerError,
                >((bal@, non@)),
            decreases txs@.len() - i,
        {
            proof {
                assert(txs@.subrange(0, i as int + 1).drop_last() =~= txs@.subrange(0, i as int));
            }
            let ghost prior = (bal@, non@);
            match apply_transfer(&mut bal, &mut non, &txs[i]) {
                Ok(()) => {},
                Err(_) => {
                    proof {
                        lemma_refused_step(self.balance@, self.nonce@, txs@, i as int, prior);
                    }
                    return Some(i);
                },
            }
            i = i + 1;
        }
        proof {
            assert(txs@.subrange(0, txs@.len() as int) =~= txs@);
        }
        None
    }

    fn find_orphan(&self, index: u64) -> (r: Option<usize>)
        ensures
            match r {
                Some(p) => p < self.orphans().len() && self.orphans()[p as int].index == index,
                None => forall|i: int| 0 <= i < self.orphans().len() ==> (#[trigger] self.orphans()[i]).index != index,
            },
            match r {
                Some(p) => first_with_index(self.orphans(), index as int, 0) == Some(p as int),
                None => first_with_index(self.orphans(), index as int, 0) is None,
            },
    {
        let mut p: usize = 0;
        while p < self.block_orphan.len()
            invariant
                p <= self.block_orphan@.len(),
                first_with_index(self.block_orphan@, index as int, 0) == first_with_index(self.block_orphan@, index as int, p as int),
                forall|j: int| 0 <= j < p ==> (#[trigger] self.block_orphan@[j]).index != index,
            decreases self.block_orphan@.len() - p,
        {
            if self.block_orphan[p].index == index {
                return Some(p);
            }
            p = p + 1;
        }
        None
    }

    /// Commits, while one waits, the orphan whose index follows the tip; an
    /// orphan that fails to commit is dropped.
    fn sweep_orphans(&mut self)
        requires
            old(self).wf(),
        ensures
            final(self).wf(),
            extends(old(self).blocks_view(), final(self).blocks_view()),
            final(self).blocks_view().len() == old(self).blocks_view().len() ==> final(self).balances() == old(
                self,
            ).balances() && final(self).nonces() == old(self).nonces() && final(self).pending() == old(self).pending(),
            final(self).orphans_settled(),
            final(self).ledger() == swept(old(self).ledger()),
    {
        loop
            invariant
                swept(self.ledger()) == swept(old(self).ledger()),
                self.wf(),
                extends(old(self).blocks_view(), self.blocks_view()),
                self.blocks_view().len() == old(self).blocks_view().len() ==> self.balances() == old(self).balances()
                    && self.nonces() == old(self).nonces() && self.pending() == old(self).pending(),
            ensures
                self.wf(),
                extends(old(self).blocks_view(), self.blocks_view()),
                self.blocks_view().len() == old(self).blocks_view().len() ==> self.balances() == old(self).balances()
                    && self.nonces() == old(self).nonces() && self.pending() == old(self).pending(),
                self.orphans_settled(),
                self.ledger() == swept(old(self).ledger()),
            decreases self.block_orphan@.len(),
        {
            let n = self.blocks.len();
            if n == 0 {
                break;
            }
            let tip_index = self.blocks[n - 1].index;
            if tip_index == u64::MAX {
                proof {
                    assert forall|i: int| 0 <= i < self.orphans().len() implies (#[trigger] self.orphans()[i]).index
                        != self.blocks_view().last().index + 1 by {
                        assert(self.blocks_view().last().index == u64::MAX);
                    }
                }
                break;
            }
            let p = match self.find_orphan(tip_index + 1) {
                Some(p) => p,
                None => {
                    proof {
                        assert(self.blocks_view().last() == self.blocks@[n - 1]);
                    }
                    break;
                },
            };
            let ghost before = self.blocks@;
            let ghost st = self.ledger();
            let b = self.block_orphan.remove(p);
            proof {
                assert(st.blocks.last() == self.blocks@[n - 1]);
                assert(b == st.orphans[p as int]);
                assert(self.orphans() == st.orphans.remove(p as int));
            }
            let _ = self.append_block(b);
            proof {
                assert(extends(old(self).blocks_view(), self.blocks_view())) by {
                    assert forall|i: int| 0 <= i < old(self).blocks_view().len() implies #[trigger] self.blocks_view()[i] == old(self).blocks_view()[i] by {
                        assert(before[i] == old(self).blocks_view()[i]);
                    }
                }
            }
        }
    }

    /// Takes one delivered block as `append_block` does; after a block is
    /// appended, the orphans that now follow the tip are committed in turn.
    /// A refused block leaves the ledger as it was.
    pub fn block_add(&mut self, block: Block) -> (r: Result<(), LedgerError>)
        requires
            old(self).wf(),
        ensures
            final(self).wf(),
            r == block_result(old(self).blocks_view(), old(self).balances(), old(self).nonces(), block),
            r is Err ==> final(self).same_state(old(self)),
            starts_chain(old(self).blocks_view(), block) ==> {
                &&& final(self).blocks_view().len() >= 1
                &&& final(self).blocks_view()[0].is_genesis()
                &&& final(self).ledger() == swept(
                    LedgerState { blocks: seq![final(self).blocks_view()[0]], ..old(self).ledger() },
                )
            },
            r is Ok && final(self).blocks_view().len() > old(self).blocks_view().len() ==> final(self).orphans_settled(),
            !starts_chain(old(self).blocks_view(), block) && is_orphan(old(self).blocks_view(), block) ==> {
                &&& final(self).blocks_view() == old(self).blocks_view()
                &&& final(self).orphans() == old(self).orphans().push(block)
                &&& final(self).balances() == old(self).balances()
                &&& final(self).nonces() == old(self).nonces()
                &&& final(self).pending() == old(self).pending()
            },
            !starts_chain(old(self).blocks_view(), block) && !is_orphan(old(self).blocks_view(), block)
                && r is Ok ==> {
                let state = admission(old(self).blocks_view(), old(self).balances(), old(self).nonces(), block)->Ok_0;
                &&& extends(old(self).blocks_view().push(block), final(self).blocks_view())
                &&& final(self).ledger() == swept(
                    LedgerState {
                        blocks: old(self).blocks_view().push(block),
                        orphans: old(self).orphans(),
                        balances: state.0,
                        nonces: state.1,
                        pending: still_reachable(old(self).pending(), state.1),
                    },
                )
            },
    {
        let before = self.blocks.len();
        let r = self.append_block(block);
        if r.is_ok() && self.blocks.len() > before {
            proof {
                if starts_chain(old(self).blocks_view(), block) {
                    assert(self.blocks_view() =~= seq![self.blocks_view()[0]]);
                }
            }
            let ghost mid = self.blocks_view();
            self.sweep_orphans();
            proof {
                assert(self.blocks_view()[0] == mid[0]);
            }
        }
        r
    }

    /// The drained transfers that minting keeps, in the order they apply on
    /// top of the committed balances and nonces.
    fn select_pending(&self, drained: Vec<Transaction>) -> (kept: Vec<Transaction>)
        requires
            self.wf(),
        ensures
            kept@ == select_all(self.balances(), self.nonces(), drained@),
            apply_txs(self.balances(), self.nonces(), kept@) is Ok,
    {
        let mut bal = self.balance.copy();
        let mut non = self.nonce.copy();
        let mut all: Vec<Transaction> = Vec::new();
        let mut pool = drained;
        loop
            invariant
                bal.wf(),
                non.wf(),
                apply_txs(self.balances(), self.nonces(), all@) == Ok::<
                    (Map<Seq<char>, u64>, Map<Seq<char>, u64>),
                    LedgerError,
                >((bal@, non@)),
                all@ + select_all(bal@, non@, pool@) == select_all(self.balances(), self.nonces(), drained@),
            ensures
                apply_txs(self.balances(), self.nonces(), all@) is Ok,
                all@ == select_all(self.balances(), self.nonces(), drained@),
            decreases pool@.len(),
        {
            let ghost (b0, n0, p0, a0) = (bal@, non@, pool@, all@);
            let (mut kept, dropped, b2, n2) = select_pass(bal, non, pool);
            proof {
                lemma_split_len(b0, n0, p0);
            }
            if kept.len() == 0 {
                proof {
                    assert(a0 + select_all(b0, n0, p0) =~= a0);
                }
                break;
            }
            proof {
                lemma_apply_concat(self.balances(), self.nonces(), a0, kept@);
                assert(a0 + kept@ + select_all(b2@, n2@, dropped@) =~= a0 + select_all(b0, n0, p0));
            }
            let ghost k0 = kept@;
            while kept.len() > 0
                invariant
                    all@ + kept@ == a0 + k0,
                decreases kept@.len(),
            {
                let ghost before = kept@;
                let t = kept.remove(0);
                proof {
                    assert(all@.push(t) + kept@ =~= all@ + before);
                }
                all.push(t);
            }
            proof {
                assert(all@ =~= a0 + k0);
            }
            bal = b2;
            non = n2;
            pool = dropped;
        }
        all
    }

    /// Mints a block at `timestamp` from up to `MAX_BLOCK_TRANSACTIONS` pending
    /// transfers, taken from the front of the pool: those that `select_all`
    /// keeps go in, in that order, and the others are dropped. Where none is kept no
    /// block is made. Refused on a chain without a genesis block.
    #[verifier::spinoff_prover]
    #[verifier::rlimit(100)]
    pub fn block_mint_at(&mut self, timestamp: u64) -> (r: Result<(), LedgerError>)
        requires
            old(self).wf(),
        ensures
            final(self).wf(),
            old(self).blocks_view().len() == 0 ==> r == Err::<(), LedgerError>(LedgerError::EmptyChain)
                && final(self).same_state(old(self)),
            old(self).blocks_view().len() > 0 ==> {
                &&& r is Ok
                &&& minted(old(self), final(self))
                &&& mint_kept(old(self)).len() > 0 ==> final(self).blocks_view()[old(self).blocks_view().len() as int].timestamp == timestamp
            },
    {
        if self.blocks.len() == 0 {
            return Err(LedgerError::EmptyChain);
        }
        let drained = self.mempool.drain(MAX_BLOCK_TRANSACTIONS);
        let ghost drained_view = drained@;
        let ghost k: int = if old(self).pending().len() < MAX_BLOCK_TRANSACTIONS {
            old(self).pending().len() as int
        } else {
            MAX_BLOCK_TRANSACTIONS as int
        };
        proof {
            if old(self).pending().len() < MAX_BLOCK_TRANSACTIONS {
                assert(old(self).pending().subrange(0, k) =~= old(self).pending());
                assert(self.pending() =~= old(self).pending().subrange(k, old(self).pending().len() as int));
            }
        }
        let kept = self.select_pending(drained);
        if kept.len() == 0 {
            return Ok(());
        }
        let last = self.blocks.len() - 1;
        proof {
            assert(self.blocks@[last as int].index == last);
        }
        let index = self.blocks[last].index + 1;
        let prev_hash = self.blocks[last].hash.clone();
        let block = Block::new(index, timestamp, prev_hash, kept);
        let ghost minted = block;
        let r = self.block_add(block);
        proof {
            assert(old(self).blocks_view().push(minted)[old(self).blocks_view().len() as int] == minted);
        }
        r
    }

    /// Mints a block, as `block_mint_at` does, at the current time.
    pub fn block_mint(&mut self) -> (r: Result<(), LedgerError>)
        requires
            old(self).wf(),
        ensures
            final(self).wf(),
            old(self).blocks_view().len() == 0 ==> r == Err::<(), LedgerError>(LedgerError::EmptyChain)
                && final(self).same_state(old(self)),
            old(self).blocks_view().len() > 0 ==> r is Ok && minted(old(self), final(self)),
    {
        let timestamp = now_secs();
        self.block_mint_at(timestamp)
    }

    /// What the node does on a mint tick: nothing while no transfer waits,
    /// else it mints as `block_mint` does. Answers whether a block was appended.
    pub fn mint_tick(&mut self) -> (r: Result<bool, LedgerError>)
        requires
            old(self).wf(),
        ensures
            final(self).wf(),
            old(self).pending().len() == 0 ==> r == Ok::<bool, LedgerError>(false) && final(self).same_state(old(self)),
            old(self).pending().len() > 0 && old(self).blocks_view().len() == 0 ==> r == Err::<bool, LedgerError>(
                LedgerError::EmptyChain,
            ) && final(self).same_state(old(self)),
            old(self).pending().len() > 0 && old(self).blocks_view().len() > 0 ==> {
                &&& r == Ok::<bool, LedgerError>(mint_kept(old(self)).len() > 0)
                &&& minted(old(self), final(self))
            },
    {
        if self.mempool.len() == 0 {
            return Ok(false);
        }
        let depth = self.blocks.len();
        match self.block_mint() {
            Ok(()) => Ok(self.blocks.len() > depth),
            Err(e) => Err(e),
        }
    }

    /// Sets an account's balance directly, for a ledger that starts with funds.
    pub fn balance_seed(&mut self, account: &str, value: u64)
        requires
            old(self).wf(),
        ensures
            final(self).wf(),
            final(self).balances() == old(self).balances().insert(account@, value),
            final(self).blocks_view() == old(self).blocks_view(),
            final(self).orphans() == old(self).orphans(),
            final(self).nonces() == old(self).nonces(),
            final(self).pending() == old(self).pending(),
    {
        self.balance.set(account, value);
    }

    /// The balance of an account, zero where it has none.
    pub fn balance_of(&self, account: &str) -> (r: u64)
        requires
            self.wf(),
        ensures
            r == amount(self.balances(), account@),
    {
        self.balance.get(account)
    }

    /// The last committed nonce of a sender, zero where it has none.
    pub fn nonce_of(&self, account: &str) -> (r: u64)
        requires
            self.wf(),
        ensures
            r == amount(self.nonces(), account@),
    {
        self.nonce.get(account)
    }

    /// The committed blocks.
    pub fn blocks(&self) -> (r: &Vec<Block>)
        ensures
            r@ == self.blocks_view(),
    {
        &self.blocks
    }

    /// How many blocks are committed.
    pub fn depth(&self) -> (r: usize)
        ensures
            r == self.blocks_view().len(),
    {
        self.blocks.len()
    }

    /// How many blocks wait for their predecessors.
    pub fn orphan_count(&self) -> (r: usize)
        ensures
            r == self.orphans().len(),
    {
        self.block_orphan.len()
    }

    /// How many transfers wait in the pool.
    pub fn pending_count(&self) -> (r: u64)
        ensures
            r == self.pending().len(),
    {
        self.mempool.len()
    }
}

/// Every ledger that `Chain`'s operations produce passes `verify`: each block
/// sits at its own index, verifies, and names its predecessor's hash.
pub proof fn lemma_committed_chain_verifies(c: &Chain)
    requires
        c.wf(),
    ensures
        chain_linked(c.blocks_view()),
{
}

/// Balances never go below zero: a transfer applies only where the sender holds
/// its amount, and one that would overdraw is refused with `InsufficientBalance`.
pub proof fn lemma_no_overdraft(bal: Map<Seq<char>, u64>, non: Map<Seq<char>, u64>, t: Transaction)
    ensures
        apply_tx(bal, non, t) is Ok ==> amount(bal, t.sender@) >= t.amount,
        t.valid() && t.nonce == amount(non, t.sender@) + 1 && amount(bal, t.sender@) < t.amount ==> apply_tx(
            bal,
            non,
            t,
        ) == Err::<(Map<Seq<char>, u64>, Map<Seq<char>, u64>), LedgerError>(LedgerError::InsufficientBalance),
{
}

/// The pool never holds two transfers with the same sender and nonce.
pub proof fn lemma_pending_slots_unique(c: &Chain)
    requires
        c.wf(),
    ensures
        slots_unique(c.pending()),
{
}

/// Delivering a block that is already committed is answered with `AlreadySeen`
/// (and so, by `block_add`'s contract, changes nothing).
pub proof fn lemma_committed_block_seen(c: &Chain, i: int)
    requires
        c.wf(),
        0 <= i < c.blocks_view().len(),
    ensures
        block_result(c.blocks_view(), c.balances(), c.nonces(), c.blocks_view()[i]) == Err::<(), LedgerError>(
            LedgerError::AlreadySeen,
        ),
{
    let bs = c.blocks_view();
    assert(bs[i].index == i);
    assert(bs[bs.len() - 1].index == bs.len() - 1);
}

/// A committed transfer moves exactly its amount from the sender to the
/// receiver and leaves every other balance as it was.
pub proof fn lemma_transfer_conserves(bal: Map<Seq<char>, u64>, non: Map<Seq<char>, u64>, t: Transaction)
    requires
        apply_tx(bal, non, t) is Ok,
    ensures
        ({
            let after = apply_tx(bal, non, t)->Ok_0.0;
            &&& t.sender@ != t.receiver@ ==> {
                &&& amount(after, t.sender@) == amount(bal, t.sender@) - t.amount
                &&& amount(after, t.receiver@) == amount(bal, t.receiver@) + t.amount
            }
            &&& t.sender@ == t.receiver@ ==> amount(after, t.sender@) == amount(bal, t.sender@)
            &&& forall|k: Seq<char>| k != t.sender@ && k != t.receiver@ ==> #[trigger] amount(after, k) == amount(bal, k)
        }),
{
}

/// For every sender, the nonces of its committed transfers are 1, 2, ... up to
/// its committed nonce, in that order: each once, none skipped, the last the
/// largest.
pub proof fn lemma_nonce_history(c: &Chain, s: Seq<char>)
    requires
        c.wf(),
    ensures
        nonces_sent(committed_txs(c.blocks_view()), s) == count_up(amount(c.nonces(), s) as nat),
{
}

/// The sum of the balances of the accounts `ks`.
pub open spec fn total(m: Map<Seq<char>, u64>, ks: Seq<Seq<char>>) -> int
    decreases ks.len(),
{
    if ks.len() == 0 {
        0
    } else {
        total(m, ks.drop_last()) + amount(m, ks.last())
    }
}

proof fn lemma_total_insert(m: Map<Seq<char>, u64>, ks: Seq<Seq<char>>, k: Seq<char>, v: u64)
    requires
        ks.no_duplicates(),
    ensures
        total(m.insert(k, v), ks) == if ks.contains(k) {
            total(m, ks) - amount(m, k) + v
        } else {
            total(m, ks)
        },
    decreases ks.len(),
{
    if ks.len() > 0 {
        let d = ks.drop_last();
        assert(d.no_duplicates()) by {
            assert forall|i: int, j: int| 0 <= i < d.len() && 0 <= j < d.len() && i != j implies d[i] != d[j] by {
                assert(d[i] == ks[i] && d[j] == ks[j]);
            }
        }
        lemma_total_insert(m, d, k, v);
        if ks.last() == k {
            assert(!d.contains(k)) by {
                if d.contains(k) {
                    let i = choose|i: int| 0 <= i < d.len() && d[i] == k;
                    assert(ks[i] == ks[ks.len() - 1]);
                }
            }
        } else {
            if ks.contains(k) {
                let i = choose|i: int| 0 <= i < ks.len() && ks[i] == k;
                assert(d[i] == k);
            }
            if d.contains(k) {
                let i = choose|i: int| 0 <= i < d.len() && d[i] == k;
                assert(ks[i] == k);
            }
        }
    }
}

/// Over any set of accounts that holds the sender and the receiver of every
/// transfer, committed transfers keep the sum of the balances: each moves
/// value, none makes or destroys it.
pub proof fn lemma_transfers_conserve_total(
    bal: Map<Seq<char>, u64>,
    non: Map<Seq<char>, u64>,
    txs: Seq<Transaction>,
    ks: Seq<Seq<char>>,
)
    requires
        ks.no_duplicates(),
        forall|i: int| 0 <= i < txs.len() ==> ks.contains(#[trigger] txs[i].sender@) && ks.contains(txs[i].receiver@),
        apply_txs(bal, non, txs) is Ok,
    ensures
        total(apply_txs(bal, non, txs)->Ok_0.0, ks) == total(bal, ks),
    decreases txs.len(),
{
    if txs.len() > 0 {
        let d = txs.drop_last();
        assert forall|i: int| 0 <= i < d.len() implies ks.contains(#[trigger] d[i].sender@) && ks.contains(d[i].receiver@) by {
            assert(d[i] == txs[i]);
        }
        lemma_transfers_conserve_total(bal, non, d, ks);
        let b1 = apply_txs(bal, non, d)->Ok_0.0;
        let n1 = apply_txs(bal, non, d)->Ok_0.1;
        let t = txs.last();
        assert(ks.contains(txs[txs.len() - 1].sender@));
        let debited = b1.insert(t.sender@, (amount(b1, t.sender@) - t.amount) as u64);
        let credit = (amount(debited, t.receiver@) + t.amount) as u64;
        lemma_total_insert(b1, ks, t.sender@, (amount(b1, t.sender@) - t.amount) as u64);
        lemma_total_insert(debited, ks, t.receiver@, credit);
    }
}

/// How many pending transfers a mint takes: all of them, up to `MAX_BLOCK_TRANSACTIONS`.
pub open spec fn mint_take(c: &Chain) -> int {
    if c.pending().len() < MAX_BLOCK_TRANSACTIONS {
        c.pending().len() as int
    } else {
        MAX_BLOCK_TRANSACTIONS as int
    }
}

/// The transfers that a mint keeps from those it takes.
pub open spec fn mint_kept(c: &Chain) -> Seq<Transaction> {
    select_all(c.balances(), c.nonces(), c.pending().subrange(0, mint_take(c)))
}

/// What minting on a chain with a tip does, whatever the time. The taken
/// transfers leave the pool; where some are kept, a block holding exactly them
/// follows the tip, the balances and nonces become those the kept transfers
/// give, and then the orphan sweep runs.
pub open spec fn minted(old: &Chain, new: &Chain) -> bool {
    let k = mint_take(old);
    let kept = mint_kept(old);
    let tip = old.blocks_view().last();
    let rest = old.pending().subrange(k, old.pending().len() as int);
    &&& kept.len() == 0 ==> {
        &&& new.blocks_view() == old.blocks_view()
        &&& new.orphans() == old.orphans()
        &&& new.balances() == old.balances()
        &&& new.nonces() == old.nonces()
        &&& new.pending() == rest
    }
    &&& kept.len() > 0 ==> {
        let b = new.blocks_view()[old.blocks_view().len() as int];
        let state = apply_txs(old.balances(), old.nonces(), kept)->Ok_0;
        &&& new.blocks_view().len() > old.blocks_view().len()
        &&& extends(old.blocks_view(), new.blocks_view())
        &&& b.index == tip.index + 1
        &&& b.prev_hash@ == tip.hash@
        &&& b.transactions@ == kept
        &&& new.orphans_settled()
        &&& new.ledger() == swept(
            LedgerState {
                blocks: old.blocks_view().push(b),
                orphans: old.orphans(),
                balances: state.0,
                nonces: state.1,
                pending: still_reachable(rest, state.1),
            },
        )
    }
}

/// What the transfers credit to `a` less what they debit from it.
pub open spec fn net_flow(txs: Seq<Transaction>, a: Seq<char>) -> int
    decreases txs.len(),
{
    if txs.len() == 0 {
        0
    } else {
        let t = txs.last();
        net_flow(txs.drop_last(), a) + (if t.receiver@ == a { t.amount as int } else { 0 }) - (if t.sender@
            == a {
            t.amount as int
        } else {
            0
        })
    }
}

/// After transfers that all apply, each account holds what it held before
/// plus what it received less what it sent.
pub proof fn lemma_balances_follow_transfers(
    bal: Map<Seq<char>, u64>,
    non: Map<Seq<char>, u64>,
    txs: Seq<Transaction>,
    a: Seq<char>,
)
    requires
        apply_txs(bal, non, txs) is Ok,
    ensures
        amount(apply_txs(bal, non, txs)->Ok_0.0, a) == amount(bal, a) + net_flow(txs, a),
    decreases txs.len(),
{
    if txs.len() > 0 {
        lemma_balances_follow_transfers(bal, non, txs.drop_last(), a);
    }
}

/// Relies on std's `SystemTime::now`: seconds since the Unix epoch, or 0 for a
/// clock set before it.
#[verifier::external_body]
fn now_secs() -> (r: u64) {
    match std::time::SystemTime::now().duration_since(std::time::UNIX_EPOCH) {
        Ok(d) => d.as_secs(),
        Err(_) => 0,
    }
}

} // verus!
