//! Destinations and the policy that admits them.
pub mod policy;
pub mod target;
