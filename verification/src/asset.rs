//! The byte strings that a model is loaded from.

use std::io::Read;
use vstd::prelude::*;

verus! {

/// The assets needed by a Bergamot translation model.
///
/// All bytes must be decompressed before they cross the core library boundary.
pub struct ModelAssets {
    /// Uncompressed Marian model bytes.
    pub model: Vec<u8>,
    /// Source and target vocabulary bytes.
    pub vocabularies: VocabularyAssets,
    /// Uncompressed binary lexical shortlist bytes.
    pub shortlist: Vec<u8>,
}

/// Vocabulary assets used by a translation model.
pub enum VocabularyAssets {
    /// Source and target use the same vocabulary and token-ID space.
    Shared(Vec<u8>),
    /// Source and target use independent vocabularies and token-ID spaces.
    Separate {
        /// Serialized source vocabulary.
        source: Vec<u8>,
        /// Serialized target vocabulary.
        target: Vec<u8>,
    },
}

/// Bytes of one model file, stored as they are or compressed with gzip.
pub enum Asset {
    /// The bytes themselves.
    Raw(Vec<u8>),
    /// The bytes as a gzip member.
    Gzip(Vec<u8>),
}

/// What the first gzip member of a byte string decompresses to; `None` where
/// the byte string does not start with a complete, undamaged member.
pub uninterp spec fn gunzipped(bytes: Seq<u8>) -> Option<Seq<u8>>;

/// Decompresses the gzip member at the start of `bytes`, by reading
/// `flate2::read::GzDecoder` to its end.
///
/// Claimed of it: it depends on `bytes` alone. What it yields is named, not
/// described.
#[verifier::external_body]
fn gunzip(bytes: &[u8]) -> (content: Option<Vec<u8>>)
    ensures
        match content {
            Some(content) => gunzipped(bytes@) == Some(content@),
            None => gunzipped(bytes@) is None,
        },
{
    let mut content: Vec<u8> = Vec::new();
    match flate2::read::GzDecoder::new(bytes).read_to_end(&mut content) {
        Ok(_) => Some(content),
        Err(_) => None,
    }
}

/// What a byte string decompresses to before it turns out not to start with a
/// complete, undamaged gzip member.
pub uninterp spec fn recovered(bytes: Seq<u8>) -> Seq<u8>;

/// Decompresses what can be of the gzip member at the start of `bytes`, by
/// reading `flate2::read::GzDecoder` byte by byte until it fails or ends.
///
/// Claimed of it: it depends on `bytes` alone. What it yields is named, not
/// described.
#[verifier::external_body]
fn recover(bytes: &[u8]) -> (content: Vec<u8>)
    ensures
        content@ == recovered(bytes@),
{
    flate2::read::GzDecoder::new(bytes).bytes().map_while(Result::ok).collect()
}

impl Asset {
    /// Bytes that are stored as they are.
    pub fn raw(bytes: Vec<u8>) -> (asset: Asset)
        ensures
            asset.content() == Some(bytes@),
    {
        Asset::Raw(bytes)
    }

    /// Bytes that are compressed with gzip.
    pub fn gzip(bytes: Vec<u8>) -> (asset: Asset)
        ensures
            asset.content() == gunzipped(bytes@),
    {
        Asset::Gzip(bytes)
    }

    /// The uncompressed bytes, where there are any.
    pub open spec fn content(self) -> Option<Seq<u8>> {
        match self {
            Asset::Raw(bytes) => Some(bytes@),
            Asset::Gzip(bytes) => gunzipped(bytes@),
        }
    }

    /// The uncompressed bytes in front of the damage, where decompression
    /// fails.
    pub open spec fn start(self) -> Seq<u8> {
        match self {
            Asset::Raw(bytes) => bytes@,
            Asset::Gzip(bytes) => recovered(bytes@),
        }
    }

    /// The uncompressed bytes; those in front of the damage where decompression
    /// fails.
    pub fn open(self) -> (content: Result<Vec<u8>, Vec<u8>>)
        ensures
            match content {
                Ok(content) => self.content() == Some(content@),
                Err(start) => self.content() is None && self.start() == start@,
            },
    {
        match self {
            Asset::Raw(bytes) => Ok(bytes),
            Asset::Gzip(bytes) => match gunzip(bytes.as_slice()) {
                Some(content) => Ok(content),
                None => Err(recover(bytes.as_slice())),
            },
        }
    }

    /// The uncompressed bytes; `None` where decompression fails.
    pub fn into_bytes(self) -> (content: Option<Vec<u8>>)
        ensures
            match content {
                Some(content) => self.content() == Some(content@),
                None => self.content() is None,
            },
    {
        match self.open() {
            Ok(content) => Some(content),
            Err(_) => None,
        }
    }
}

/// Bytes that are stored as they are always have content, which is themselves;
/// compressed ones have what they decompress to.
pub proof fn assets_hold_bytes(bytes: Vec<u8>)
    ensures
        Asset::Raw(bytes).content() == Some(bytes@),
        Asset::Gzip(bytes).content() == gunzipped(bytes@),
        Asset::Gzip(bytes).start() == recovered(bytes@),
{
}

} // verus!
