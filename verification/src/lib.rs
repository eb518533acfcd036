//! A verified unspent-transaction-output (UTXO) ledger runtime module, together with
//! the signature records of a multi-branch post-quantum signature scheme.
//!
//! * [`types`]: transactions, errors, events and the validity summary of a transaction.
//! * [`encoding`]: the byte encoding of transactions and of the preimages of output keys.
//! * [`crypto`]: hashing and signature checks.
//! * [`store`]: the map from output keys to unspent outputs.
//! * [`utxo`]: validation, spending, block rewards and the laws that tie them together.
//! * [`signature`]: root, grow and message signature records.

pub mod types;
pub mod encoding;
pub mod crypto;
pub mod store;
pub mod utxo;
pub mod signature;
pub mod laws;
