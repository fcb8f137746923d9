//! The decisions of an egress proxy that denies by default, verified.
//!
//! A proxy on the edge of a container reads HTTP/1 requests, classifies what they ask for, decides
//! by policy whether the destination may be reached, and forwards or tunnels what is allowed. Every
//! decision on that way is a function here: over octets, texts and plain values, with a contract
//! that says what it returns. Sockets, files, clocks and tasks stay with the program that calls it.
//!
//! - `octets`, `text`, `ip`, `unique`, `window`: values that the rest is built from.
//! - `fields`, `headers`, `weight`: header fields, what a hop keeps of them, and how much they take up.
//! - `domain`: policy entries, modes, layers, and request targets.
//! - `boundary`, `config`, `startup`: the policy boundary, settings and the startup sequence.
//! - `server`: request heads and bodies, responses, routing, tunnels and admission.
//! - `connect`: origins, the broker, connection pools and forwarding.
//! - `target`, `public`: targets as texts, and the answers that may be dialled.
//! - `diagnostics`: denial records, health and the calendar.
//! - `cli`: the registry of installed harnesses and of published images.
//! - `laws`: what holds of all of these together, whatever the input.
pub mod boundary;
pub mod cli;
pub mod config;
pub mod connect;
pub mod diagnostics;
pub mod domain;
pub mod fields;
pub mod headers;
pub mod ip;
pub mod laws;
pub mod octets;
pub mod public;
pub mod server;
pub mod startup;
pub mod target;
pub mod text;
pub mod unique;
pub mod weight;
pub mod window;
