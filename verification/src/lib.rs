//! Decision logic of a per-app transparent TCP proxy.
//!
//! Connections of chosen Android user IDs are redirected to a local listener by
//! firewall rules ([`iptables`]). For each the library decides whether it goes
//! straight to its destination or through an upstream HTTP proxy ([`exclude`],
//! [`relay`]). What the command line asks for stands in [`cli`] and [`resolve`],
//! the counters in [`stats`]. The library opens no socket and runs no command: it
//! takes what came in and says what to do next.
pub mod addr;
pub mod bytes;
pub mod cli;
pub mod exclude;
pub mod iptables;
pub mod number;
pub mod relay;
pub mod resolve;
pub mod stats;
pub mod text;
