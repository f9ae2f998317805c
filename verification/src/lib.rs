//! Synchronisation building blocks with machine-checked contracts: a counting
//! semaphore, a bounded FIFO channel, the bakery ticket rules and a banker that
//! only grants resources while the system stays in a safe state.
use vstd::prelude::*;

pub mod bakery;
pub mod banker;
pub mod channel;
mod handles;
pub mod ledger;
pub mod semaphore;

verus! {

} // verus!
