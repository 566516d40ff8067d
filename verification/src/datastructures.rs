//! The collections that the store keeps in memory.

pub mod sorted_indexentry_set;
