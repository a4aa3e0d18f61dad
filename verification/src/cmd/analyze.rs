//! The analyses of what is stored.

pub mod routes;
pub mod senders;
