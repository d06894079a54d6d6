//! A ledger engine for two small services that a host runs one call at a
//! time: [`payments`] pays out batches of native funds, at once or under a
//! time lock, and [`token`] keeps the books of fungible tokens. Both skim a
//! fee of one thousandth ([`fee`]) for an admin account, and both keep their
//! balances in a keyed store ([`store`]).
//!
//! The engine owns its state and nothing else. What only the host knows of a
//! call (who calls, what time it is) comes in as arguments; what the call
//! asks of the host (funds to move, events to publish) goes out through lists
//! that the call adds to. A call that is refused changes neither the state
//! nor the lists.

pub mod account;
pub mod fee;
pub mod payments;
pub mod store;
pub mod token;
