//! The engine of a wallet backend for assets that are validated by their
//! holders and anchored in Bitcoin transactions: amounts, the ledger of
//! allocations, blinded seals and invoices, the composition and signing of
//! transactions, consignments, and the swap of assets for bitcoin.
//!
//! Each module states what its functions do over plain mathematical values,
//! and the executable code is proved to do just that. What happens on the
//! network and in other libraries comes in as plain values, or through a
//! handful of calls whose contracts are taken on trust and marked as such.

pub mod amount;
pub mod consignment;
pub mod decimal;
pub mod digest;
pub mod engine;
pub mod errors;
pub mod http;
pub mod ids;
pub mod ledger;
pub mod psbt;
pub mod seal;
pub mod signing;
pub mod swap;
pub mod wallet;
pub mod watcher;
