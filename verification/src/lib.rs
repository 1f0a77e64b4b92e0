//! A priority map: a max-heap of `(priority, key, value)` entries with an index
//! from each key to the place of its entry, so that any entry can be found,
//! removed or given a new priority by its key.
//!
//! `prioritymap` holds the map. `layout` defines, on plain sequences, what each
//! operation does to the entries; `repair` and `bag` prove what those
//! definitions keep; `laws` states what follows for whole histories of use.
//! `order` and `keys` say what is asked of the priority and key types.

pub mod bag;
pub mod keys;
pub mod laws;
pub mod layout;
pub mod order;
pub mod prioritymap;
pub mod repair;

pub use prioritymap::PriorityMap;
