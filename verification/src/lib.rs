//! Loading, shortlisting and beam search for Bergamot-compatible Marian
//! translation models, with machine-checked contracts.

pub mod asset;
pub mod bytes;
pub mod cli;
pub mod decimal;
pub mod decoding;
pub mod error;
pub mod ieee;
pub mod inference;
pub mod message;
pub mod model;
pub mod natural;
pub mod rules;
pub mod runtime;
pub mod text;
pub mod wire;

pub use asset::{ModelAssets, VocabularyAssets};
pub use decoding::DecodeOptions;
pub use error::{ExecutorError, LoadError, TranslateError};
pub use runtime::{Executor, Model, StopReason, Translation};
pub use text::TokenId;
