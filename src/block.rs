use crate::codec::{decimal, decimal_text};
use crate::transaction::Transaction;
use crate::utils::{sha256_hex, Utils};
use vstd::prelude::*;
use vstd::string::StringExecFns;

verus! {

/// The hashes of the transactions, one after the other.
pub open spec fn hashes_concat(txs: Seq<Transaction>) -> Seq<char>
    decreases txs.len(),
{
    if txs.len() == 0 {
        Seq::empty()
    } else {
        hashes_concat(txs.drop_last()) + txs.last().hash@
    }
}

/// The text whose digest identifies a block.
pub open spec fn block_preimage(index: u64, timestamp: u64, prev_hash: Seq<char>, txs: Seq<Transaction>) -> Seq<char> {
    decimal_text(index as nat) + decimal_text(timestamp as nat) + prev_hash + hashes_concat(txs)
}

/// The hash that a block with these fields must carry.
pub open spec fn block_hash(index: u64, timestamp: u64, prev_hash: Seq<char>, txs: Seq<Transaction>) -> Seq<char> {
    sha256_hex(block_preimage(index, timestamp, prev_hash, txs))
}

/// An ordered batch of transfers, linked to its predecessor by `prev_hash`.
#[derive(Clone, Debug)]
pub struct Block {
    pub index: u64,
    pub transactions: Vec<Transaction>,
    pub timestamp: u64,
    pub hash: String,
    pub prev_hash: String,
}

impl Block {
    /// The stored hash is the digest of the fields.
    pub open spec fn hash_ok(&self) -> bool {
        self.hash@ == block_hash(self.index, self.timestamp, self.prev_hash@, self.transactions@)
    }

    /// Every transaction verifies on its own.
    pub open spec fn transactions_ok(&self) -> bool {
        forall|i: int| 0 <= i < self.transactions@.len() ==> #[trigger] self.transactions@[i].valid()
    }

    /// What `verify` checks.
    pub open spec fn valid(&self) -> bool {
        self.hash_ok() && self.transactions_ok()
    }

    /// The block that every chain starts with: index 0, time 0, `prev_hash` "0",
    /// no transactions.
    pub open spec fn is_genesis(&self) -> bool {
        &&& self.index == 0
        &&& self.timestamp == 0
        &&& self.prev_hash@ == seq!['0']
        &&& self.transactions@.len() == 0
        &&& self.hash_ok()
    }

    /// Builds a block and computes its hash.
    pub fn new(index: u64, timestamp: u64, prev_hash: String, transactions: Vec<Transaction>) -> (r: Block)
        ensures
            r.index == index,
            r.timestamp == timestamp,
            r.prev_hash == prev_hash,
            r.transactions == transactions,
            r.hash_ok(),
    {
        let hash = Block::calculate_hash(index, timestamp, prev_hash.as_str(), &transactions);
        Block { index, transactions, timestamp, hash, prev_hash }
    }

    /// The canonical first block.
    pub fn genesis() -> (r: Block)
        ensures
            r.is_genesis(),
    {
        let zero = "0".to_owned();
        proof {
            reveal_strlit("0");
            assert(zero@ =~= seq!['0']);
        }
        Block::new(0, 0, zero, Vec::new())
    }

    /// Checks the hash and every transaction.
    pub fn verify(&self) -> (r: bool)
        ensures
            r == self.valid(),
    {
        self.verify_hash() && self.verify_transactions()
    }

    fn verify_hash(&self) -> (r: bool)
        ensures
            r == self.hash_ok(),
    {
        let h = Block::calculate_hash(self.index, self.timestamp, self.prev_hash.as_str(), &self.transactions);
        self.hash == h
    }

    fn verify_transactions(&self) -> (r: bool)
        ensures
            r == self.transactions_ok(),
    {
        let mut i: usize = 0;
        while i < self.transactions.len()
            invariant
                i <= self.transactions@.len(),
                forall|j: int| 0 <= j < i ==> #[trigger] self.transactions@[j].valid(),
            decreases self.transactions@.len() - i,
        {
            if !self.transactions[i].verify() {
                return false;
            }
            i = i + 1;
        }
        true
    }

    /// The hash that a block with these fields carries.
    pub fn calculate_hash(index: u64, timestamp: u64, prev_hash: &str, transactions: &Vec<Transaction>) -> (r: String)
        ensures
            r@ == block_hash(index, timestamp, prev_hash@, transactions@),
    {
        let mut data = decimal(index);
        let t = decimal(timestamp);
        data.append(t.as_str());
        data.append(prev_hash);
        let ghost head = data@;
        let mut i: usize = 0;
        while i < transactions.len()
            invariant
                i <= transactions@.len(),
                data@ == head + hashes_concat(transactions@.subrange(0, i as int)),
            decreases transactions@.len() - i,
        {
            proof {
                assert(transactions@.subrange(0, i as int + 1).drop_last() =~= transactions@.subrange(0, i as int));
            }
            data.append(transactions[i].hash.as_str());
            proof {
                assert(head + hashes_concat(transactions@.subrange(0, i as int + 1)) =~= data@);
            }
            i = i + 1;
        }
        proof {
            assert(transactions@.subrange(0, transactions@.len() as int) =~= transactions@);
            assert(head + hashes_concat(transactions@) =~= block_preimage(index, timestamp, prev_hash@, transactions@));
        }
        Utils::hash_data(data.as_str())
    }
}

} // verus!
