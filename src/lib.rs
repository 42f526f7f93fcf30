//! A local Ethereum execution sandbox's state core: a layered, journaled state
//! store with exact snapshot/revert and rollback/restore, the ledger of mined
//! blocks and transactions, and the chain orchestrator that ties them together.
//! Execution itself is left to an outside virtual machine.

use vstd::prelude::*;

pub mod account;
pub mod chain;
pub mod empty;
pub mod hashing;
pub mod journal;
pub mod keymap;
pub mod laws;
pub mod layer;
pub mod ledger;
pub mod lookup;
pub mod random;
pub mod store;
pub mod types;

verus! {

} // verus!
