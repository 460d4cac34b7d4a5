//! A verified to-do list store.
//!
//! The store keeps an in-memory mapping from item names to completion flags
//! and converts it to and from a flat text representation: one record per
//! line, the name and the flag (`true` or `false`) separated by a single tab.
//!
//! `codec` holds the mathematical model of that text format together with the
//! verified parsing helpers; `store` holds the `Todolist` container and its
//! operations.

pub mod codec;
pub mod store;
