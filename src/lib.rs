//! A permissioned ledger node: signed value transfers, blocks that chain them,
//! and the authenticated envelope that carries them between peers.
pub mod accounts;
pub mod block;
pub mod chain;
pub mod codec;
pub mod envelope;
pub mod error;
pub mod frame;
pub mod mempool;
pub mod transaction;
pub mod utils;
