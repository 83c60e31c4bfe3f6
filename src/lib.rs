//! A minimal proof-of-work ledger: blocks bound to their predecessors by
//! SHA-256 digests of a canonical byte encoding, admitted by a nonce search.
pub mod block;
pub mod chain;
pub mod encoding;

pub use block::{Block, BlockView, Transaction, TransactionData, TxView};
pub use chain::{Blockchain, ChainView};

