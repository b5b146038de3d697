use vstd::prelude::*;

verus! {

/// Why decoding key material or a signature failed.
#[derive(Debug, Clone, Copy, PartialEq, Eq, Structural)]
pub enum CryptoError {
    /// base64, DER or hex parsing failed.
    BadEncoding,
}

/// Why the ledger refused a transaction or a block.
#[derive(Debug, Clone, Copy, PartialEq, Eq, Structural)]
pub enum LedgerError {
    /// The transaction already carries a signature.
    AlreadySigned,
    /// The nonce or the block index is not ahead of what is committed.
    AlreadySeen,
    /// A hash or a signature does not check out.
    InvalidTransaction,
    /// The block's hash is not the digest of its contents.
    InvalidBlock,
    /// The block does not extend the current tip.
    ForkRejected,
    /// A sender spends more than it holds.
    InsufficientBalance,
    /// A sender's nonce does not follow its last committed one.
    NonceGap,
    /// A receiver's balance would pass the largest `u64`.
    BalanceOverflow,
    /// The chain has no genesis block yet.
    EmptyChain,
}

} // verus!
