//! The downstream side: request heads, bodies, responses and routing.
pub mod framing;
pub mod http1;
pub mod ingress;
pub mod listener;
pub mod relay;
pub mod response;
pub mod router;
pub mod streaming;
