//! Core of a text publish/subscribe protocol: an incremental decoder for the
//! frames a broker receives, and the client's connection and subscription
//! logic, each stated and proved against its contract.
pub mod client;
pub mod error;
pub mod errors;
pub mod laws;
pub mod parser;
pub mod session;
