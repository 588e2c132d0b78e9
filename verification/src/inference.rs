//! The transformer network: what is stored, how it is compiled from an
//! archive, and where its matrix products find their numbers.

pub mod backend;
pub mod embedding;
pub mod network;
