//! Verified core of a small DNS zone manager built around CoreDNS.

pub mod calendar;
pub mod clock;
pub mod config;
pub mod corefile;
pub mod docker;
pub mod logs;
pub mod notify;
pub mod paths;
pub mod proxy;
pub mod server;
pub mod text;
pub mod zones;
