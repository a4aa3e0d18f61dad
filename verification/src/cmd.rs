//! The commands: what each of them does to the store.

pub mod analyze;
pub mod dump;
pub mod fetch;
pub mod import;
pub mod insert;
