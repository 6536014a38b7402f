//! An in-memory keyed record store with a filter-then-sort query pipeline,
//! instantiated for an inventory of items and for a contact book.

pub mod contacts;
pub mod error;
pub mod inventory;
pub mod sort;
pub mod store;
pub mod text;
