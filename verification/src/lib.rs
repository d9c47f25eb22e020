//! TCP and UDP tunnels between IPv4 and IPv6 networks.
pub mod backend;
pub mod check;
pub mod cli;
pub mod compress;
pub mod config;
pub mod proxy;
pub mod pump;
pub mod session;
pub mod text;
pub mod tunnel;
