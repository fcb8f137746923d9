//! The upstream side: origins, tunnels and the pools that keep them.
pub mod body_writing;
pub mod broker;
pub mod forward;
pub mod origin_body;
pub mod origin_framing;
pub mod pool;
pub mod public;
pub mod tls;
