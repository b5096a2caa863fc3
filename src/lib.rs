//! An in-memory inventory of hardware devices kept in named, lockable groups,
//! changed through atomic commands that each return the full group list.
//!
//! The inventory is well formed when group ids are unique, every device id
//! occurs once over all groups, and the groups are sorted by descending id;
//! every command keeps it so. Contracts are stated
//! over the sequence of group values (see `model`), and `laws` proves how the
//! commands behave together.
use vstd::prelude::*;

pub mod devices;
pub mod groups;
pub mod model;
pub mod probe;
pub mod state;
pub mod commands;
pub mod laws;

verus! {

} // verus!
