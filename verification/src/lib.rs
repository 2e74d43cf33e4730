//! Reachability watch list: parsing of hosts and addresses, the status
//! indicator of a watched site, and the bookkeeping of the watch list.

pub mod text;
pub mod ip;
pub mod host;
pub mod status;
pub mod config;
pub mod watch;
pub mod cli;
pub mod probe;
pub mod canonical;
