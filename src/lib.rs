//! A ledger of running activity kept per chat: identities, runs, and a tally
//! that ranks the identities of a chat by the distance they ran.

pub mod database;
pub mod laws;
pub mod message;
pub mod models;
pub mod ranking;
pub mod text;
