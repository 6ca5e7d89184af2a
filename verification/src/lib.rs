//! Verified core of a set of small network protocol servers.
pub mod error;
pub mod util;
pub mod speed_daemon;
pub mod prime;
pub mod chat;
pub mod echo;
pub mod database;
pub mod proxy;
pub mod price;
pub mod problems;
