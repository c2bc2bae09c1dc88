//! Verified core of a small IRC-style chat server and its clients.

pub mod text;
pub mod name_map;
pub mod error;
pub mod accounts;
pub mod channels;
pub mod server;
pub mod client;
