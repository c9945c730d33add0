//! A constant-product swap pool and a fungible token ledger, written as
//! state machines over plain values. The host (storage, signature checks,
//! event delivery) stays outside: each operation takes the stored records and
//! the host's authorization verdict, updates the records only on success, and
//! queues the event that the host then publishes.

pub mod error;
pub mod identity;
pub mod ledger;
pub mod swap;
pub mod token;
