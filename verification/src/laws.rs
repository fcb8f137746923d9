//! What holds across the functions of the library, said of the wire, of texts and of addresses.
pub mod addresses;
pub mod alphabets;
pub mod answers;
pub mod broker;
pub mod calendar;
pub mod exchanges;
pub mod forwarding;
pub mod limits;
pub mod messages;
pub mod policies;
pub mod published;
pub mod requests;
pub mod responses;
pub mod service;
pub mod settings;
pub mod targets;
pub mod texts;
pub mod versions;
