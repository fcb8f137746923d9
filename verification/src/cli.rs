//! The decisions of the command line: what is installed and what a registry publishes.
pub mod installed;
pub mod registry;
