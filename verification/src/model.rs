//! Model files: the Marian archive, its configuration and the lexical
//! shortlist.

pub mod binary;
pub mod config;
pub mod shortlist;
