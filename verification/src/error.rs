//! Errors of loading, of executor creation and of translation.

use vstd::prelude::*;
use vstd::string::*;

verus! {

/// An error encountered while loading a translation model.
#[derive(Debug)]
#[non_exhaustive]
pub enum LoadError {
    /// The Marian model is malformed or inconsistent.
    InvalidModel(String),
    /// The model uses an architecture or feature that is not supported.
    UnsupportedArchitecture(String),
    /// The lexical shortlist is malformed or inconsistent.
    InvalidShortlist(String),
    /// A vocabulary is malformed or incompatible.
    InvalidVocabulary(String),
    /// The model bytes do not have the SHA-256 hash that the caller expects.
    HashMismatch {
        /// Expected hash in hexadecimal.
        expected: String,
        /// Hash of the bytes that were read, in hexadecimal.
        actual: String,
    },
}

/// What a [`LoadError`] says, with its texts as character sequences.
pub enum LoadFault {
    /// See [`LoadError::InvalidModel`].
    InvalidModel(Seq<char>),
    /// See [`LoadError::UnsupportedArchitecture`].
    UnsupportedArchitecture(Seq<char>),
    /// See [`LoadError::InvalidShortlist`].
    InvalidShortlist(Seq<char>),
    /// See [`LoadError::InvalidVocabulary`].
    InvalidVocabulary(Seq<char>),
    /// See [`LoadError::HashMismatch`].
    HashMismatch {
        /// Expected hash in hexadecimal.
        expected: Seq<char>,
        /// Hash of the bytes that were read, in hexadecimal.
        actual: Seq<char>,
    },
}

impl View for LoadError {
    type V = LoadFault;

    open spec fn view(&self) -> LoadFault {
        match self {
            LoadError::InvalidModel(text) => LoadFault::InvalidModel(text@),
            LoadError::UnsupportedArchitecture(text) => LoadFault::UnsupportedArchitecture(text@),
            LoadError::InvalidShortlist(text) => LoadFault::InvalidShortlist(text@),
            LoadError::InvalidVocabulary(text) => LoadFault::InvalidVocabulary(text@),
            LoadError::HashMismatch { expected, actual } => LoadFault::HashMismatch {
                expected: expected@,
                actual: actual@,
            },
        }
    }
}

impl LoadFault {
    /// The sentence shown to a user.
    pub open spec fn sentence(self) -> Seq<char> {
        match self {
            LoadFault::InvalidModel(text) => "invalid Marian model: "@ + text,
            LoadFault::UnsupportedArchitecture(text) => "unsupported model architecture: "@ + text,
            LoadFault::InvalidShortlist(text) => "invalid lexical shortlist: "@ + text,
            LoadFault::InvalidVocabulary(text) => "invalid vocabulary: "@ + text,
            LoadFault::HashMismatch { expected, actual } => "model hash mismatch: expected "@
                + expected + ", got "@ + actual,
        }
    }
}

impl LoadError {
    /// The sentence shown to a user.
    pub fn sentence(&self) -> (text: String)
        ensures
            text@ == self@.sentence(),
    {
        match self {
            LoadError::InvalidModel(text) => String::from_str("invalid Marian model: ").concat(
                text.as_str(),
            ),
            LoadError::UnsupportedArchitecture(text) => String::from_str(
                "unsupported model architecture: ",
            ).concat(text.as_str()),
            LoadError::InvalidShortlist(text) => String::from_str(
                "invalid lexical shortlist: ",
            ).concat(text.as_str()),
            LoadError::InvalidVocabulary(text) => String::from_str("invalid vocabulary: ").concat(
                text.as_str(),
            ),
            LoadError::HashMismatch { expected, actual } => String::from_str(
                "model hash mismatch: expected ",
            ).concat(expected.as_str()).concat(", got ").concat(actual.as_str()),
        }
    }
}

/// Why rayon could not build a thread pool.
#[verifier::external_type_specification]
#[verifier::external_body]
pub struct ExThreadPoolBuildError(rayon::ThreadPoolBuildError);

/// An error encountered while creating an inference executor.
#[derive(Debug)]
pub struct ExecutorError(pub rayon::ThreadPoolBuildError);

/// An error encountered while translating text.
#[derive(Debug)]
#[non_exhaustive]
pub enum TranslateError {
    /// The decode options are invalid.
    InvalidOptions(String),
    /// Translation failed while processing the model or text.
    Runtime(String),
}

/// What a [`TranslateError`] says, with its texts as character sequences.
pub enum TranslateFault {
    /// See [`TranslateError::InvalidOptions`].
    InvalidOptions(Seq<char>),
    /// See [`TranslateError::Runtime`].
    Runtime(Seq<char>),
}

impl View for TranslateError {
    type V = TranslateFault;

    open spec fn view(&self) -> TranslateFault {
        match self {
            TranslateError::InvalidOptions(text) => TranslateFault::InvalidOptions(text@),
            TranslateError::Runtime(text) => TranslateFault::Runtime(text@),
        }
    }
}

impl TranslateFault {
    /// The sentence shown to a user.
    pub open spec fn sentence(self) -> Seq<char> {
        match self {
            TranslateFault::InvalidOptions(text) => "invalid translation options: "@ + text,
            TranslateFault::Runtime(text) => "translation failed: "@ + text,
        }
    }
}

impl TranslateError {
    /// The sentence shown to a user.
    pub fn sentence(&self) -> (text: String)
        ensures
            text@ == self@.sentence(),
    {
        match self {
            TranslateError::InvalidOptions(text) => String::from_str(
                "invalid translation options: ",
            ).concat(text.as_str()),
            TranslateError::Runtime(text) => String::from_str("translation failed: ").concat(
                text.as_str(),
            ),
        }
    }
}

/// A sentence names the kind of the error and ends with what was found.
pub proof fn sentences_name_kind_and_text(text: Seq<char>, other: Seq<char>)
    ensures
        LoadFault::InvalidModel(text).sentence() == "invalid Marian model: "@ + text,
        LoadFault::UnsupportedArchitecture(text).sentence() == "unsupported model architecture: "@
            + text,
        LoadFault::InvalidShortlist(text).sentence() == "invalid lexical shortlist: "@ + text,
        LoadFault::InvalidVocabulary(text).sentence() == "invalid vocabulary: "@ + text,
        (LoadFault::HashMismatch { expected: text, actual: other }).sentence()
            == "model hash mismatch: expected "@ + text + ", got "@ + other,
        TranslateFault::InvalidOptions(text).sentence() == "invalid translation options: "@ + text,
        TranslateFault::Runtime(text).sentence() == "translation failed: "@ + text,
{
}

/// What an error says is its kind and its text.
pub proof fn errors_say_their_texts(load: LoadError, translate: TranslateError)
    ensures
        match load {
            LoadError::InvalidModel(text) => load@ == LoadFault::InvalidModel(text@),
            LoadError::UnsupportedArchitecture(text) => load@ == LoadFault::UnsupportedArchitecture(
                text@,
            ),
            LoadError::InvalidShortlist(text) => load@ == LoadFault::InvalidShortlist(text@),
            LoadError::InvalidVocabulary(text) => load@ == LoadFault::InvalidVocabulary(text@),
            LoadError::HashMismatch { expected, actual } => load@ == (LoadFault::HashMismatch {
                expected: expected@,
                actual: actual@,
            }),
        },
        match translate {
            TranslateError::InvalidOptions(text) => translate@ == TranslateFault::InvalidOptions(
                text@,
            ),
            TranslateError::Runtime(text) => translate@ == TranslateFault::Runtime(text@),
        },
{
}

} // verus!
