//! A token-identity ledger over an embedded key-value store.
//!
//! A single "super" account mints sequentially numbered token units and
//! distributes them to end-user accounts, which transfer units among each
//! other.  An account's holdings are persisted as an ordered sequence of
//! token identifiers in a fixed binary layout; incremental appends to that
//! sequence are queued as merge operands and folded by a pure merge reducer,
//! so that the growing side of a transfer never needs a read-modify-write.

pub mod codec;
pub mod errors;
pub mod ledger;
pub mod reducer;
pub mod store;
