use ledger_node::block::Block;
use ledger_node::chain::Chain;
use ledger_node::error::{CryptoError, LedgerError};
use ledger_node::mempool::Mempool;
use ledger_node::transaction::Transaction;
use ledger_node::utils::Utils;

const PRIVATE_A: &str = "MIGEAgEAMBAGByqGSM49AgEGBSuBBAAKBG0wawIBAQQgYp6GnxdjxLvnucsaaTZ+J+FqtCdjbEaQsEqxk3KHJ3yhRANCAAR6X+Ws+hYmkOMIZTq/HMVBRbMcT1lADpd4z5c3MG6LzyuMDBMGOZ4C3gceN6I0/kzgQ/DWEZcNY4s6/WgLxUD1";
const PUBLIC_A: &str = "MFYwEAYHKoZIzj0CAQYFK4EEAAoDQgAEel/lrPoWJpDjCGU6vxzFQUWzHE9ZQA6XeM+XNzBui88rjAwTBjmeAt4HHjeiNP5M4EPw1hGXDWOLOv1oC8VA9Q==";
const PRIVATE_B: &str = "MIGEAgEAMBAGByqGSM49AgEGBSuBBAAKBG0wawIBAQQgGYFjSRDEGRmqvaJreuMY22pZz3TojuOm2dEmxhtbPTyhRANCAARSnspJBeKF9TrV5WmDTsJXb/wtihZ4YyXRmGASMIbzdYuW+B5vh1B/dRvZ15Ne8ehUQ/xH023fVx1STJzkSeoS";
const PUBLIC_B: &str = "MFYwEAYHKoZIzj0CAQYFK4EEAAoDQgAEUp7KSQXihfU61eVpg07CV2/8LYoWeGMl0ZhgEjCG83WLlvgeb4dQf3Ub2deTXvHoVEP8R9Nt31cdUkyc5EnqEg==";

fn signed(nonce: u64, amount: u64, sender: &str, receiver: &str, private: &str) -> Transaction {
    let key = Utils::get_signing_key(private).unwrap();
    let mut t = Transaction::new(nonce, amount, sender, receiver, None).unwrap();
    t.sign(&key).unwrap();
    t
}

fn started(seed: &[(&str, u64)]) -> Chain {
    let mut chain = Chain::new();
    for (who, value) in seed {
        chain.balance_seed(who, *value);
    }
    chain.block_add(Block::new(0, 0, "0".to_string(), vec![])).unwrap();
    chain
}

fn next_block(chain: &Chain, transactions: Vec<Transaction>) -> Block {
    let tip = chain.blocks().last().unwrap();
    Block::new(tip.index + 1, 7, tip.hash.clone(), transactions)
}

#[test]
fn transaction_test() {
    let signing_key = Utils::get_signing_key(PRIVATE_B).unwrap();
    let mut transaction = Transaction::new(0, 100, PUBLIC_B, PUBLIC_B, None).unwrap();
    let _ = transaction.sign(&signing_key);
    assert_eq!(transaction.verify(), true);
}

#[test]
fn transaction_hash_is_digest_of_fields() {
    let t = Transaction::new(12, 345, PUBLIC_A, PUBLIC_B, None).unwrap();
    let expected = Utils::hash_data(&format!("{}{}{}{}", 12, PUBLIC_A, PUBLIC_B, 345));
    assert_eq!(t.hash, expected);
    assert_eq!(Transaction::calculate_hash(12, PUBLIC_A, PUBLIC_B, 345), expected);
    assert!(!t.verify());
}

#[test]
fn transaction_sign_twice_is_refused() {
    let key = Utils::get_signing_key(PRIVATE_A).unwrap();
    let mut t = Transaction::new(1, 5, PUBLIC_A, PUBLIC_B, None).unwrap();
    assert_eq!(t.sign(&key), Ok(()));
    let first = t.signature.clone();
    assert_eq!(t.sign(&key), Err(LedgerError::AlreadySigned));
    assert_eq!(t.signature, first);
}

#[test]
fn transaction_new_refuses_bad_keys_and_signatures() {
    assert_eq!(Transaction::new(1, 1, "nope", PUBLIC_B, None).err(), Some(CryptoError::BadEncoding));
    assert_eq!(Transaction::new(1, 1, PUBLIC_A, "nope", None).err(), Some(CryptoError::BadEncoding));
    assert_eq!(Transaction::new(1, 1, PUBLIC_A, PUBLIC_B, Some("xyz")).err(), Some(CryptoError::BadEncoding));
    let t = signed(1, 1, PUBLIC_A, PUBLIC_B, PRIVATE_A);
    let again = Transaction::new(1, 1, PUBLIC_A, PUBLIC_B, Some(t.signature.as_deref().unwrap())).unwrap();
    assert!(again.verify());
}

#[test]
fn transaction_signed_by_other_key_does_not_verify() {
    let t = signed(1, 1, PUBLIC_A, PUBLIC_B, PRIVATE_B);
    assert!(!t.verify());
}

#[test]
fn genesis_block_is_canonical() {
    let g = Block::genesis();
    assert_eq!(g.index, 0);
    assert_eq!(g.timestamp, 0);
    assert_eq!(g.prev_hash, "0");
    assert!(g.transactions.is_empty());
    assert_eq!(g.hash, Utils::hash_data("000"));
    assert!(g.verify());
}

#[test]
fn block_hash_covers_transaction_hashes() {
    let t = signed(1, 2, PUBLIC_A, PUBLIC_B, PRIVATE_A);
    let h = t.hash.clone();
    let b = Block::new(3, 99, "prev".to_string(), vec![t]);
    assert_eq!(b.hash, Utils::hash_data(&format!("399prev{}", h)));
    assert!(b.verify());
    let mut tampered = b.clone();
    tampered.timestamp = 100;
    assert!(!tampered.verify());
}

#[test]
fn genesis_and_first_transfer() {
    let mut chain = Chain::new();
    chain.balance_seed(PUBLIC_A, 100);
    chain.block_add(Block::new(0, 0, "0".to_string(), vec![])).unwrap();
    assert_eq!(chain.depth(), 1);
    let t = signed(1, 30, PUBLIC_A, PUBLIC_B, PRIVATE_A);
    chain.transaction_add(t.clone()).unwrap();
    chain.block_mint().unwrap();
    assert_eq!(chain.depth(), 2);
    let b = &chain.blocks()[1];
    assert_eq!(b.index, 1);
    assert_eq!(b.transactions.len(), 1);
    assert_eq!(b.transactions[0].hash, t.hash);
    assert_eq!(chain.balance_of(PUBLIC_A), 70);
    assert_eq!(chain.balance_of(PUBLIC_B), 30);
    assert_eq!(chain.nonce_of(PUBLIC_A), 1);
    assert_eq!(chain.pending_count(), 0);
    assert!(chain.verify());
}

#[test]
fn nonce_gap_is_dropped_at_mint() {
    let mut chain = started(&[(PUBLIC_A, 100)]);
    chain.transaction_add(signed(1, 30, PUBLIC_A, PUBLIC_B, PRIVATE_A)).unwrap();
    chain.block_mint_at(5).unwrap();
    chain.transaction_add(signed(3, 10, PUBLIC_A, PUBLIC_B, PRIVATE_A)).unwrap();
    assert_eq!(chain.pending_count(), 1);
    chain.block_mint_at(6).unwrap();
    assert_eq!(chain.depth(), 2);
    assert_eq!(chain.pending_count(), 0);
    assert_eq!(chain.balance_of(PUBLIC_A), 70);
    assert_eq!(chain.balance_of(PUBLIC_B), 30);
}

#[test]
fn insufficient_balance_is_dropped_at_mint() {
    let mut chain = started(&[(PUBLIC_B, 30)]);
    chain.transaction_add(signed(1, 50, PUBLIC_B, PUBLIC_A, PRIVATE_B)).unwrap();
    assert_eq!(chain.pending_count(), 1);
    chain.block_mint_at(5).unwrap();
    assert_eq!(chain.depth(), 1);
    assert_eq!(chain.pending_count(), 0);
    assert_eq!(chain.balance_of(PUBLIC_B), 30);
    assert_eq!(chain.balance_of(PUBLIC_A), 0);
}

#[test]
fn orphans_are_reassembled() {
    let mut chain = started(&[]);
    let b1 = next_block(&chain, vec![]);
    let b2 = Block::new(2, 8, b1.hash.clone(), vec![]);
    let b3 = Block::new(3, 9, b2.hash.clone(), vec![]);
    chain.block_add(b1).unwrap();
    chain.block_add(b3).unwrap();
    assert_eq!(chain.depth(), 2);
    assert_eq!(chain.orphan_count(), 1);
    chain.block_add(b2).unwrap();
    assert_eq!(chain.depth(), 4);
    assert_eq!(chain.blocks().last().unwrap().index, 3);
    assert_eq!(chain.orphan_count(), 0);
    assert!(chain.verify());
}

#[test]
fn same_block_twice_is_seen() {
    let mut chain = started(&[(PUBLIC_A, 10)]);
    let b = next_block(&chain, vec![signed(1, 4, PUBLIC_A, PUBLIC_B, PRIVATE_A)]);
    assert_eq!(chain.block_add(b.clone()), Ok(()));
    assert_eq!(chain.block_add(b), Err(LedgerError::AlreadySeen));
    assert_eq!(chain.depth(), 2);
    assert_eq!(chain.balance_of(PUBLIC_A), 6);
    assert_eq!(chain.balance_of(PUBLIC_B), 4);
}

#[test]
fn same_transaction_twice_is_one_entry() {
    let mut chain = started(&[]);
    let t = signed(1, 4, PUBLIC_A, PUBLIC_B, PRIVATE_A);
    chain.transaction_add(t.clone()).unwrap();
    chain.transaction_add(t).unwrap();
    assert_eq!(chain.pending_count(), 1);
}

#[test]
fn transaction_add_refusals() {
    let mut chain = started(&[(PUBLIC_A, 10)]);
    let b = next_block(&chain, vec![signed(1, 4, PUBLIC_A, PUBLIC_B, PRIVATE_A)]);
    chain.block_add(b).unwrap();
    assert_eq!(chain.transaction_add(signed(1, 1, PUBLIC_A, PUBLIC_B, PRIVATE_A)), Err(LedgerError::AlreadySeen));
    assert_eq!(chain.transaction_add(signed(0, 1, PUBLIC_A, PUBLIC_B, PRIVATE_A)), Err(LedgerError::AlreadySeen));
    let unsigned = Transaction::new(2, 1, PUBLIC_A, PUBLIC_B, None).unwrap();
    assert_eq!(chain.transaction_add(unsigned), Err(LedgerError::InvalidTransaction));
    assert_eq!(chain.transaction_add(signed(2, 1, PUBLIC_A, PUBLIC_B, PRIVATE_B)), Err(LedgerError::InvalidTransaction));
    assert_eq!(chain.pending_count(), 0);
    assert_eq!(chain.transaction_add(signed(2, 1, PUBLIC_A, PUBLIC_B, PRIVATE_A)), Ok(()));
    assert_eq!(chain.pending_count(), 1);
}

#[test]
fn refused_blocks_change_nothing() {
    let mut chain = started(&[(PUBLIC_A, 10)]);
    let before_hash = chain.blocks()[0].hash.clone();

    let fork = Block::new(1, 7, "elsewhere".to_string(), vec![]);
    assert_eq!(chain.block_add(fork), Err(LedgerError::ForkRejected));

    let mut bad_hash = next_block(&chain, vec![]);
    bad_hash.hash = "00".to_string();
    assert_eq!(chain.block_add(bad_hash), Err(LedgerError::InvalidBlock));

    let gap = next_block(&chain, vec![signed(2, 1, PUBLIC_A, PUBLIC_B, PRIVATE_A)]);
    assert_eq!(chain.block_add(gap), Err(LedgerError::NonceGap));

    let poor = next_block(&chain, vec![signed(1, 11, PUBLIC_A, PUBLIC_B, PRIVATE_A)]);
    assert_eq!(chain.block_add(poor), Err(LedgerError::InsufficientBalance));

    let unsigned = Transaction::new(1, 1, PUBLIC_A, PUBLIC_B, None).unwrap();
    let invalid = next_block(&chain, vec![unsigned]);
    assert_eq!(chain.block_add(invalid), Err(LedgerError::InvalidTransaction));

    // the second transfer fails after the first applied: nothing of the block stays
    let half = next_block(
        &chain,
        vec![signed(1, 6, PUBLIC_A, PUBLIC_B, PRIVATE_A), signed(2, 6, PUBLIC_A, PUBLIC_B, PRIVATE_A)],
    );
    assert_eq!(chain.block_add(half), Err(LedgerError::InsufficientBalance));

    assert_eq!(chain.block_add(Block::genesis()), Err(LedgerError::AlreadySeen));
    assert_eq!(chain.depth(), 1);
    assert_eq!(chain.blocks()[0].hash, before_hash);
    assert_eq!(chain.balance_of(PUBLIC_A), 10);
    assert_eq!(chain.balance_of(PUBLIC_B), 0);
    assert_eq!(chain.nonce_of(PUBLIC_A), 0);
    assert!(chain.verify());
}

#[test]
fn balance_overflow_is_refused() {
    let mut chain = started(&[(PUBLIC_A, 10), (PUBLIC_B, u64::MAX)]);
    let b = next_block(&chain, vec![signed(1, 1, PUBLIC_A, PUBLIC_B, PRIVATE_A)]);
    assert_eq!(chain.block_add(b), Err(LedgerError::BalanceOverflow));
    assert_eq!(chain.balance_of(PUBLIC_A), 10);
}

#[test]
fn transfer_to_oneself_keeps_balance() {
    let mut chain = started(&[(PUBLIC_A, 10)]);
    let b = next_block(&chain, vec![signed(1, 4, PUBLIC_A, PUBLIC_A, PRIVATE_A)]);
    chain.block_add(b).unwrap();
    assert_eq!(chain.balance_of(PUBLIC_A), 10);
    assert_eq!(chain.nonce_of(PUBLIC_A), 1);
}

#[test]
fn first_block_is_always_canonical_genesis() {
    let mut chain = Chain::new();
    chain.block_add(Block::new(0, 55, "x".to_string(), vec![])).unwrap();
    assert_eq!(chain.depth(), 1);
    assert_eq!(chain.blocks()[0].hash, Block::genesis().hash);
}

#[test]
fn blocks_before_genesis_wait() {
    let mut chain = Chain::new();
    let g = Block::genesis();
    let b1 = Block::new(1, 3, g.hash.clone(), vec![]);
    chain.block_add(b1).unwrap();
    assert_eq!(chain.depth(), 0);
    assert_eq!(chain.orphan_count(), 1);
    chain.block_add(g).unwrap();
    assert_eq!(chain.depth(), 2);
    assert_eq!(chain.orphan_count(), 0);
}

#[test]
fn mint_without_genesis_is_refused() {
    let mut chain = Chain::new();
    assert_eq!(chain.block_mint_at(1), Err(LedgerError::EmptyChain));
    assert_eq!(chain.block_mint(), Err(LedgerError::EmptyChain));
}

#[test]
fn mint_takes_at_most_ten_in_order() {
    let mut chain = started(&[(PUBLIC_A, 100)]);
    for n in 1..=12 {
        chain.transaction_add(signed(n, 1, PUBLIC_A, PUBLIC_B, PRIVATE_A)).unwrap();
    }
    chain.block_mint_at(42).unwrap();
    let b = &chain.blocks()[1];
    assert_eq!(b.timestamp, 42);
    assert_eq!(b.prev_hash, chain.blocks()[0].hash);
    assert_eq!(b.transactions.len(), 10);
    assert_eq!(b.transactions[9].nonce, 10);
    assert_eq!(chain.pending_count(), 2);
    chain.block_mint_at(43).unwrap();
    assert_eq!(chain.depth(), 3);
    assert_eq!(chain.nonce_of(PUBLIC_A), 12);
    assert_eq!(chain.balance_of(PUBLIC_A), 88);
    assert_eq!(chain.balance_of(PUBLIC_B), 12);
    assert!(chain.verify());
}

#[test]
fn commit_evicts_stale_pending() {
    let mut chain = started(&[(PUBLIC_A, 100)]);
    chain.transaction_add(signed(1, 1, PUBLIC_A, PUBLIC_B, PRIVATE_A)).unwrap();
    chain.transaction_add(signed(2, 1, PUBLIC_A, PUBLIC_B, PRIVATE_A)).unwrap();
    let b = next_block(&chain, vec![signed(1, 5, PUBLIC_A, PUBLIC_B, PRIVATE_A)]);
    chain.block_add(b).unwrap();
    assert_eq!(chain.pending_count(), 1);
}

#[test]
fn mempool_drain_and_len() {
    let mut pool = Mempool::new();
    pool.push(signed(1, 1, PUBLIC_A, PUBLIC_B, PRIVATE_A));
    pool.push(signed(2, 1, PUBLIC_A, PUBLIC_B, PRIVATE_A));
    pool.push(signed(1, 9, PUBLIC_A, PUBLIC_B, PRIVATE_A));
    assert_eq!(pool.len(), 2);
    // the superseding transfer joins at the back
    let first = pool.drain(1);
    assert_eq!(first.len(), 1);
    assert_eq!(first[0].nonce, 2);
    let rest = pool.drain(5);
    assert_eq!(rest.len(), 1);
    assert_eq!(rest[0].amount, 9);
    assert_eq!(pool.len(), 0);
}

#[test]
fn mint_tick_mints_only_with_pending() {
    let mut chain = started(&[(PUBLIC_A, 5)]);
    assert_eq!(chain.mint_tick(), Ok(false));
    assert_eq!(chain.depth(), 1);
    chain.transaction_add(signed(1, 9, PUBLIC_A, PUBLIC_B, PRIVATE_A)).unwrap();
    assert_eq!(chain.mint_tick(), Ok(false));
    assert_eq!(chain.pending_count(), 0);
    chain.transaction_add(signed(1, 5, PUBLIC_A, PUBLIC_B, PRIVATE_A)).unwrap();
    assert_eq!(chain.mint_tick(), Ok(true));
    assert_eq!(chain.depth(), 2);
    assert_eq!(chain.balance_of(PUBLIC_A) + chain.balance_of(PUBLIC_B), 5);

    let mut empty = Chain::new();
    empty.transaction_add(signed(1, 5, PUBLIC_A, PUBLIC_B, PRIVATE_A)).unwrap();
    assert_eq!(empty.mint_tick(), Err(LedgerError::EmptyChain));
    assert_eq!(empty.pending_count(), 1);
}

#[test]
fn superseding_transfer_joins_at_the_back() {
    let mut chain = started(&[(PUBLIC_A, 100)]);
    chain.transaction_add(signed(1, 1, PUBLIC_A, PUBLIC_B, PRIVATE_A)).unwrap();
    chain.transaction_add(signed(2, 1, PUBLIC_A, PUBLIC_B, PRIVATE_A)).unwrap();
    // supersedes nonce 1 and moves behind nonce 2
    chain.transaction_add(signed(1, 7, PUBLIC_A, PUBLIC_B, PRIVATE_A)).unwrap();
    assert_eq!(chain.pending_count(), 2);
    chain.block_mint_at(3).unwrap();
    let b = &chain.blocks()[1];
    // nonce order wins over pool order
    assert_eq!(b.transactions.len(), 2);
    assert_eq!(b.transactions[0].amount, 7);
    assert_eq!(b.transactions[1].nonce, 2);
    assert_eq!(chain.balance_of(PUBLIC_A), 92);
    assert_eq!(chain.pending_count(), 0);
}

#[test]
fn mint_applies_a_senders_nonces_in_ascending_order() {
    let mut chain = started(&[(PUBLIC_A, 100)]);
    chain.transaction_add(signed(3, 1, PUBLIC_A, PUBLIC_B, PRIVATE_A)).unwrap();
    chain.transaction_add(signed(2, 1, PUBLIC_A, PUBLIC_B, PRIVATE_A)).unwrap();
    chain.transaction_add(signed(5, 1, PUBLIC_A, PUBLIC_B, PRIVATE_A)).unwrap();
    chain.transaction_add(signed(1, 1, PUBLIC_A, PUBLIC_B, PRIVATE_A)).unwrap();
    chain.block_mint_at(3).unwrap();
    let nonces: Vec<u64> = chain.blocks()[1].transactions.iter().map(|t| t.nonce).collect();
    assert_eq!(nonces, vec![1, 2, 3]);
    assert_eq!(chain.nonce_of(PUBLIC_A), 3);
    assert_eq!(chain.pending_count(), 0);
}

#[test]
fn first_refused_names_the_offending_transfer() {
    let chain = started(&[(PUBLIC_A, 10)]);
    let ok = next_block(&chain, vec![signed(1, 4, PUBLIC_A, PUBLIC_B, PRIVATE_A)]);
    assert_eq!(chain.first_refused(&ok), None);
    let bad = next_block(
        &chain,
        vec![
            signed(1, 4, PUBLIC_A, PUBLIC_B, PRIVATE_A),
            signed(2, 4, PUBLIC_A, PUBLIC_B, PRIVATE_A),
            signed(3, 4, PUBLIC_A, PUBLIC_B, PRIVATE_A),
        ],
    );
    assert_eq!(chain.first_refused(&bad), Some(2));
}
