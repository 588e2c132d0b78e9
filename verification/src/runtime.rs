//! Model loading and the frame around a translation.

use crate::asset::{ModelAssets, VocabularyAssets};
use crate::decoding::search::{BeamSearch, DecodedHypothesis, Output, SearchPlan};
use crate::decoding::DecodeOptions;
use crate::error::{ExecutorError, LoadError, LoadFault, TranslateError, TranslateFault};
use crate::ieee::{finite, finite_and_positive, is_finite, is_finite_and_positive};
use crate::inference::backend::LinearContents;
use crate::inference::embedding::PreparedOutput;
use crate::inference::network::compile::{compile, network_of};
use crate::inference::network::{Network, NetworkContents};
use crate::message::{decimal_text, decimal_usize};
use crate::model::binary::{
    archive_gives, loaded_archives_are_sound, ArchiveContents, ModelArchive,
};
use crate::model::config::ModelConfig;
use crate::model::shortlist::{
    first_at_least_is_first, generated_lists_are_requests_and_fillers, is_requested,
    outside_vocabulary, shortlist_of, Shortlist, ShortlistContents,
};
use crate::text::{
    as_pieces, eos_piece, join_outcome, piece_count, split_outcome, tokens_of, unk_piece,
    vocabulary_fault, TokenId, Vocabulary,
};
use std::sync::Arc;
use vstd::prelude::*;
use vstd::string::*;

verus! {

/// The condition that stopped decoding.
#[derive(Debug, Clone, Copy, PartialEq, Eq, Structural)]
#[non_exhaustive]
pub enum StopReason {
    /// The decoder emitted the end-of-sentence token.
    EndOfSentence,
    /// Decoding reached the configured maximum output length.
    LengthLimit,
}

/// The token lists of a batch.
pub open spec fn token_lists(sources: Seq<Vec<TokenId>>) -> Seq<Seq<TokenId>> {
    sources.map_values(|source: Vec<TokenId>| source@)
}

/// Length of the longest source.
pub open spec fn batch_width(sources: Seq<Seq<TokenId>>) -> nat
    decreases sources.len(),
{
    if sources.len() == 0 {
        0
    } else {
        let width = batch_width(sources.drop_last());
        if sources.last().len() > width {
            sources.last().len()
        } else {
            width
        }
    }
}

/// The source that a cell of a position-major batch belongs to.
pub open spec fn cell_source(batch_size: nat, index: int) -> int {
    index % (batch_size as int)
}

/// The position in its source that a cell of a position-major batch belongs
/// to.
pub open spec fn cell_position(batch_size: nat, index: int) -> int {
    index / (batch_size as int)
}

/// The cell holds a token of its source, not padding.
pub open spec fn cell_taken(sources: Seq<Seq<TokenId>>, index: int) -> bool {
    cell_position(sources.len(), index) < sources[cell_source(sources.len(), index)].len()
}

/// The token in a cell of the padded batch.
pub open spec fn cell_token(sources: Seq<Seq<TokenId>>, eos: TokenId, index: int) -> TokenId {
    if cell_taken(sources, index) {
        sources[cell_source(sources.len(), index)][cell_position(sources.len(), index)]
    } else {
        eos
    }
}

/// Number of cells of the padded batch.
pub open spec fn cell_count(sources: Seq<Seq<TokenId>>) -> nat {
    sources.len() * batch_width(sources)
}

/// The padded batch, position by position.
pub open spec fn padded_tokens(sources: Seq<Seq<TokenId>>, eos: TokenId) -> Seq<TokenId> {
    Seq::new(cell_count(sources), |index: int| cell_token(sources, eos, index))
}

/// Which cells of the padded batch hold tokens.
pub open spec fn padding_mask(sources: Seq<Seq<TokenId>>) -> Seq<bool> {
    Seq::new(cell_count(sources), |index: int| cell_taken(sources, index))
}

/// Which sources are empty but for the end-of-sentence token.
pub open spec fn empty_sources(sources: Seq<Seq<TokenId>>, eos: TokenId) -> Seq<bool> {
    Seq::new(sources.len(), |batch: int| sources[batch] == seq![eos])
}

/// Length of the longest source.
fn longest(sources: &[Vec<TokenId>]) -> (width: usize)
    ensures
        width == batch_width(token_lists(sources@)),
{
    let ghost all = token_lists(sources@);
    let mut width: usize = 0;
    let mut batch: usize = 0;
    while batch < sources.len()
        invariant
            batch <= sources@.len(),
            all == token_lists(sources@),
            width == batch_width(all.take(batch as int)),
        decreases sources@.len() - batch,
    {
        proof {
            assert(all.take(batch + 1).drop_last() == all.take(batch as int));
        }
        if sources[batch].len() > width {
            width = sources[batch].len();
        }
        batch = batch + 1;
    }
    proof {
        assert(all.take(batch as int) == all);
    }
    width
}

/// Pads the sources of a batch to the same length with `eos`.
///
/// Returns the tokens position by position, which of them are no padding, the
/// padded length and which sources are empty.
pub fn pad_sources(sources: &[Vec<TokenId>], eos: TokenId) -> (padded: (
    Vec<TokenId>,
    Vec<bool>,
    usize,
    Vec<bool>,
))
    ensures
        padded.0@ == padded_tokens(token_lists(sources@), eos),
        padded.1@ == padding_mask(token_lists(sources@)),
        padded.2 == batch_width(token_lists(sources@)),
        padded.3@ == empty_sources(token_lists(sources@), eos),
{
    let ghost all = token_lists(sources@);
    let width: usize = longest(sources);
    let mut tokens: Vec<TokenId> = Vec::new();
    let mut mask: Vec<bool> = Vec::new();
    let mut position: usize = 0;
    proof {
        assert(0 * sources@.len() == 0) by (nonlinear_arith);
    }
    while position < width
        invariant
            position <= width,
            width == batch_width(all),
            all == token_lists(sources@),
            tokens@.len() == position * sources@.len(),
            mask@.len() == tokens@.len(),
            forall|i: int|
                0 <= i < tokens@.len() ==> #[trigger] tokens@[i] == cell_token(all, eos, i),
            forall|i: int| 0 <= i < mask@.len() ==> #[trigger] mask@[i] == cell_taken(all, i),
        decreases width - position,
    {
        let mut batch: usize = 0;
        while batch < sources.len()
            invariant
                batch <= sources@.len(),
                all == token_lists(sources@),
                tokens@.len() == position * sources@.len() + batch,
                mask@.len() == tokens@.len(),
                forall|i: int|
                    0 <= i < tokens@.len() ==> #[trigger] tokens@[i] == cell_token(all, eos, i),
                forall|i: int| 0 <= i < mask@.len() ==> #[trigger] mask@[i] == cell_taken(all, i),
            decreases sources@.len() - batch,
        {
            proof {
                vstd::arithmetic::div_mod::lemma_fundamental_div_mod_converse(
                    tokens@.len() as int,
                    sources@.len() as int,
                    position as int,
                    batch as int,
                );
                assert(all[batch as int] == sources@[batch as int]@);
            }
            if position < sources[batch].len() {
                tokens.push(sources[batch][position]);
                mask.push(true);
            } else {
                tokens.push(eos);
                mask.push(false);
            }
            batch = batch + 1;
        }
        proof {
            assert((position + 1) * sources@.len() == position * sources@.len() + sources@.len())
                by (nonlinear_arith);
        }
        position = position + 1;
    }
    proof {
        assert(width * sources@.len() == sources@.len() * width) by (nonlinear_arith);
    }
    let mut empty: Vec<bool> = Vec::with_capacity(sources.len());
    while empty.len() < sources.len()
        invariant
            empty@.len() <= sources@.len(),
            all == token_lists(sources@),
            forall|i: int| 0 <= i < empty@.len() ==> #[trigger] empty@[i] == (all[i] == seq![eos]),
        decreases sources@.len() - empty@.len(),
    {
        let source: &Vec<TokenId> = &sources[empty.len()];
        let is_empty: bool = source.len() == 1 && source[0] == eos;
        proof {
            let at = empty@.len() as int;
            assert(all[at] == source@);
            if is_empty {
                assert(source@ == seq![eos]);
            } else if source@ == seq![eos] {
                assert(source@[0] == eos);
            }
        }
        empty.push(is_empty);
    }
    (tokens, mask, width, empty)
}

/// No source is longer than the padded length.
proof fn widths_cover(sources: Seq<Seq<TokenId>>, batch: int)
    requires
        0 <= batch < sources.len(),
    ensures
        sources[batch].len() <= batch_width(sources),
    decreases sources.len(),
{
    if batch < sources.len() - 1 {
        widths_cover(sources.drop_last(), batch);
    }
}

/// Padding keeps every token: position `position` of source `batch` stands in
/// cell `position * sources.len() + batch`, unmasked. The cells of a source
/// behind its end hold the end-of-sentence token and are masked.
pub proof fn padding_keeps_tokens(
    sources: Seq<Seq<TokenId>>,
    eos: TokenId,
    batch: int,
    position: int,
)
    requires
        0 <= batch < sources.len(),
        0 <= position < batch_width(sources),
    ensures
        sources[batch].len() <= batch_width(sources),
        0 <= position * sources.len() + batch < cell_count(sources),
        padding_mask(sources)[position * sources.len() + batch] == (position
            < sources[batch].len()),
        padded_tokens(sources, eos)[position * sources.len() + batch] == if position
            < sources[batch].len() {
            sources[batch][position]
        } else {
            eos
        },
{
    let count = sources.len() as int;
    let width = batch_width(sources) as int;
    widths_cover(sources, batch);
    assert(0 <= position * count + batch < count * width) by (nonlinear_arith)
        requires
            0 <= batch < count,
            0 <= position < width,
    ;
    vstd::arithmetic::div_mod::lemma_fundamental_div_mod_converse(
        position * count + batch,
        count,
        position,
        batch,
    );
}

/// What is wrong with decode options, if anything.
pub open spec fn options_fault(options: DecodeOptions) -> Option<TranslateFault> {
    if !finite_and_positive(options.max_length_factor) {
        Some(
            TranslateFault::InvalidOptions("max_length_factor must be positive and finite"@),
        )
    } else if options.beam_size == 0 {
        Some(TranslateFault::InvalidOptions("beam_size must be at least one"@))
    } else if !finite(options.length_normalization) || !finite(options.word_penalty) {
        Some(TranslateFault::InvalidOptions("decode score options must be finite"@))
    } else {
        None
    }
}

/// Checks decode options.
pub fn validate_decode_options(options: &DecodeOptions) -> (checked: Result<(), TranslateError>)
    ensures
        match checked {
            Ok(_) => options_fault(*options) is None,
            Err(error) => options_fault(*options) == Some(error@),
        },
{
    if !is_finite_and_positive(options.max_length_factor) {
        return Err(
            TranslateError::InvalidOptions(
                String::from_str("max_length_factor must be positive and finite"),
            ),
        );
    }
    if options.beam_size == 0 {
        return Err(
            TranslateError::InvalidOptions(String::from_str("beam_size must be at least one")),
        );
    }
    if !is_finite(options.length_normalization) || !is_finite(options.word_penalty) {
        return Err(
            TranslateError::InvalidOptions(String::from_str("decode score options must be finite")),
        );
    }
    Ok(())
}

/// The vocabularies of a model.
pub enum Vocabularies {
    /// Source and target share a vocabulary.
    Shared(Vocabulary),
    /// Source and target have vocabularies of their own.
    Separate {
        /// Source vocabulary.
        source: Vocabulary,
        /// Target vocabulary.
        target: Vocabulary,
    },
}

impl Vocabularies {
    /// The serialized source vocabulary.
    pub open spec fn source_model(&self) -> Seq<u8> {
        match self {
            Vocabularies::Shared(vocabulary) => vocabulary@,
            Vocabularies::Separate { source, .. } => source@,
        }
    }

    /// The serialized target vocabulary.
    pub open spec fn target_model(&self) -> Seq<u8> {
        match self {
            Vocabularies::Shared(vocabulary) => vocabulary@,
            Vocabularies::Separate { target, .. } => target@,
        }
    }

    /// The source vocabulary.
    pub fn source(&self) -> (vocabulary: &Vocabulary)
        ensures
            vocabulary@ == self.source_model(),
    {
        match self {
            Vocabularies::Shared(vocabulary) => vocabulary,
            Vocabularies::Separate { source, .. } => source,
        }
    }

    /// The target vocabulary.
    pub fn target(&self) -> (vocabulary: &Vocabulary)
        ensures
            vocabulary@ == self.target_model(),
    {
        match self {
            Vocabularies::Shared(vocabulary) => vocabulary,
            Vocabularies::Separate { target, .. } => target,
        }
    }

    /// Source and target share a vocabulary.
    pub fn is_shared(&self) -> (shared: bool)
        ensures
            shared == (self is Shared),
    {
        match self {
            Vocabularies::Shared(_) => true,
            Vocabularies::Separate { .. } => false,
        }
    }

    /// Loads the vocabularies of a model.
    pub fn load(assets: VocabularyAssets) -> (vocabularies: Result<Vocabularies, LoadError>)
        ensures
            match vocabularies {
                Ok(vocabularies) => {
                    &&& vocabularies_fault(assets) is None
                    &&& vocabularies.source_model() == source_asset(assets)
                    &&& vocabularies.target_model() == target_asset(assets)
                    &&& vocabularies is Shared <==> assets is Shared
                },
                Err(error) => vocabularies_fault(assets) == Some(error@),
            },
    {
        match assets {
            VocabularyAssets::Shared(bytes) => Ok(Vocabularies::Shared(Vocabulary::load(bytes)?)),
            VocabularyAssets::Separate { source, target } => {
                let source: Vocabulary = Vocabulary::load(source)?;
                let target: Vocabulary = Vocabulary::load(target)?;
                Ok(Vocabularies::Separate { source, target })
            },
        }
    }
}

/// The serialized source vocabulary of assets.
pub open spec fn source_asset(assets: VocabularyAssets) -> Seq<u8> {
    match assets {
        VocabularyAssets::Shared(bytes) => bytes@,
        VocabularyAssets::Separate { source, .. } => source@,
    }
}

/// The serialized target vocabulary of assets.
pub open spec fn target_asset(assets: VocabularyAssets) -> Seq<u8> {
    match assets {
        VocabularyAssets::Shared(bytes) => bytes@,
        VocabularyAssets::Separate { target, .. } => target@,
    }
}

/// Why the vocabularies of a model do not load, if they do not.
pub open spec fn vocabularies_fault(assets: VocabularyAssets) -> Option<LoadFault> {
    match assets {
        VocabularyAssets::Shared(bytes) => vocabulary_fault(bytes@),
        VocabularyAssets::Separate { source, target } => match vocabulary_fault(source@) {
            Some(fault) => Some(fault),
            None => vocabulary_fault(target@),
        },
    }
}

/// What is wrong with the sizes of the parts of a model, if anything.
pub open spec fn sizes_fault(
    source_size: usize,
    target_size: usize,
    dim_vocabs: Seq<usize>,
    shortlist: ShortlistContents,
) -> Option<LoadFault> {
    if source_size != dim_vocabs[0] || target_size != dim_vocabs[1] {
        Some(
            LoadFault::InvalidModel(
                "vocabulary sizes ("@ + decimal_text(source_size as nat) + ", "@ + decimal_text(
                    target_size as nat,
                ) + ") do not match model dimensions ("@ + decimal_text(dim_vocabs[0] as nat)
                    + ", "@ + decimal_text(dim_vocabs[1] as nat) + ")"@,
            ),
        )
    } else if shortlist.source_vocab_size() != source_size {
        Some(
            LoadFault::InvalidShortlist(
                "shortlist source vocabulary size "@ + decimal_text(shortlist.source_vocab_size())
                    + " does not match source vocabulary "@ + decimal_text(source_size as nat),
            ),
        )
    } else {
        match shortlist.first_outside(target_size as int) {
            Some(id) => Some(outside_vocabulary(id, target_size as nat)),
            None => None,
        }
    }
}

/// Checks that the sizes of the parts of a model match.
pub fn check_sizes(
    source_size: usize,
    target_size: usize,
    dim_vocabs: &Vec<usize>,
    shortlist: &Shortlist,
) -> (checked: Result<(), LoadError>)
    requires
        dim_vocabs@.len() >= 2,
    ensures
        match checked {
            Ok(_) => sizes_fault(source_size, target_size, dim_vocabs@, shortlist@) is None,
            Err(error) => sizes_fault(source_size, target_size, dim_vocabs@, shortlist@) == Some(
                error@,
            ),
        },
{
    if source_size != dim_vocabs[0] || target_size != dim_vocabs[1] {
        return Err(
            LoadError::InvalidModel(
                String::from_str("vocabulary sizes (").concat(
                    decimal_usize(source_size).as_str(),
                ).concat(", ").concat(decimal_usize(target_size).as_str()).concat(
                    ") do not match model dimensions (",
                ).concat(decimal_usize(dim_vocabs[0]).as_str()).concat(", ").concat(
                    decimal_usize(dim_vocabs[1]).as_str(),
                ).concat(")"),
            ),
        );
    }
    let covered: usize = shortlist.source_vocab_size();
    if covered != source_size {
        return Err(
            LoadError::InvalidShortlist(
                String::from_str("shortlist source vocabulary size ").concat(
                    decimal_usize(covered).as_str(),
                ).concat(" does not match source vocabulary ").concat(
                    decimal_usize(source_size).as_str(),
                ),
            ),
        );
    }
    shortlist.validate_target_vocab(target_size)
}

/// The parts of a loaded model.
pub struct ModelInner {
    /// The network.
    pub network: Network,
    /// The vocabularies.
    pub vocabularies: Vocabularies,
    /// The lexical shortlist.
    pub shortlist: Shortlist,
    /// End-of-sentence token of the source.
    pub source_eos: TokenId,
    /// End-of-sentence token of the target.
    pub target_eos: TokenId,
}

/// The numbers and texts of a loaded model.
#[verifier::ext_equal]
pub struct ModelContents {
    /// The network.
    pub network: NetworkContents,
    /// The serialized source vocabulary.
    pub source: Seq<u8>,
    /// The serialized target vocabulary.
    pub target: Seq<u8>,
    /// Source and target share a vocabulary.
    pub shared: bool,
    /// The lexical shortlist.
    pub shortlist: ShortlistContents,
    /// End-of-sentence token of the source.
    pub source_eos: TokenId,
    /// End-of-sentence token of the target.
    pub target_eos: TokenId,
}

impl View for ModelInner {
    type V = ModelContents;

    open spec fn view(&self) -> ModelContents {
        ModelContents {
            network: self.network@,
            source: self.vocabularies.source_model(),
            target: self.vocabularies.target_model(),
            shared: self.vocabularies is Shared,
            shortlist: self.shortlist@,
            source_eos: self.source_eos,
            target_eos: self.target_eos,
        }
    }
}

impl ModelInner {
    /// The parts fit together: every source token has an embedding, every
    /// target token an output, and every token of the shortlist exists.
    pub open spec fn valid(&self) -> bool {
        &&& self.network.valid()
        &&& self.network.spec.dim > 0
        &&& piece_count(self@.source) == self.network.spec.source_vocab
        &&& piece_count(self@.target) == self.network.spec.target_vocab
        &&& eos_piece(self@.source) == Some(self.source_eos as usize)
        &&& eos_piece(self@.target) == Some(self.target_eos as usize)
        &&& self.source_eos < self.network.spec.source_vocab
        &&& self.target_eos < self.network.spec.target_vocab
        &&& self.shortlist@.source_vocab_size() == self.network.spec.source_vocab
        &&& self.shortlist@.first_outside(self.network.spec.target_vocab as int) is None
    }
}

/// The model that an archive and the other assets make up.
pub open spec fn assembled(
    archive: ArchiveContents,
    vocabularies: VocabularyAssets,
    shortlist: Seq<u8>,
) -> Result<ModelContents, LoadFault> {
    let source = source_asset(vocabularies);
    let target = target_asset(vocabularies);
    match vocabularies_fault(vocabularies) {
        Some(fault) => Err(fault),
        None => match eos_piece(source) {
            None => Err(LoadFault::InvalidVocabulary("source vocabulary has no EOS token"@)),
            Some(source_eos) => match eos_piece(target) {
                None => Err(LoadFault::InvalidVocabulary("target vocabulary has no EOS token"@)),
                Some(target_eos) => match shortlist_of(shortlist) {
                    Err(fault) => Err(fault),
                    Ok(shortlist) => match sizes_fault(
                        piece_count(source),
                        piece_count(target),
                        archive.config.dim_vocabs@,
                        shortlist,
                    ) {
                        Some(fault) => Err(fault),
                        None => match network_of(archive.config, archive.tensors) {
                            Err(fault) => Err(fault),
                            Ok(network) => Ok(
                                ModelContents {
                                    network,
                                    source,
                                    target,
                                    shared: vocabularies is Shared,
                                    shortlist,
                                    source_eos: source_eos as TokenId,
                                    target_eos: target_eos as TokenId,
                                },
                            ),
                        },
                    },
                },
            },
        },
    }
}

/// The assets give the outcome, where `parse` answers what a configuration
/// text says.
pub open spec fn assets_give<F: Fn(&str) -> Result<ModelConfig, LoadError>>(
    parse: F,
    assets: ModelAssets,
    outcome: Result<ModelContents, LoadFault>,
) -> bool {
    exists|read: Result<ArchiveContents, LoadFault>|
        {
            &&& #[trigger] archive_gives(parse, assets.model@, None, read)
            &&& match read {
                Err(fault) => outcome == Err::<ModelContents, LoadFault>(fault),
                Ok(archive) => outcome == assembled(
                    archive,
                    assets.vocabularies,
                    assets.shortlist@,
                ),
            }
        }
}

/// Makes up a model of an archive and the other assets.
fn assemble(archive: ModelArchive, vocabularies: VocabularyAssets, shortlist: Vec<u8>) -> (model:
    Result<ModelInner, LoadError>)
    requires
        archive.valid(),
        archive.config.well_formed(),
        crate::model::binary::sound(archive@.tensors),
    ensures
        match model {
            Ok(model) => model.valid() && assembled(archive@, vocabularies, shortlist@) == Ok::<
                ModelContents,
                LoadFault,
            >(model@),
            Err(error) => assembled(archive@, vocabularies, shortlist@) == Err::<
                ModelContents,
                LoadFault,
            >(error@),
        },
{
    let vocabularies: Vocabularies = Vocabularies::load(vocabularies)?;
    let source_eos: TokenId = match vocabularies.source().eos_id() {
        Some(id) => id,
        None => {
            return Err(
                LoadError::InvalidVocabulary(
                    String::from_str("source vocabulary has no EOS token"),
                ),
            );
        },
    };
    let target_eos: TokenId = match vocabularies.target().eos_id() {
        Some(id) => id,
        None => {
            return Err(
                LoadError::InvalidVocabulary(
                    String::from_str("target vocabulary has no EOS token"),
                ),
            );
        },
    };
    let shortlist: Shortlist = Shortlist::load(shortlist)?;
    check_sizes(
        vocabularies.source().len(),
        vocabularies.target().len(),
        &archive.config.dim_vocabs,
        &shortlist,
    )?;
    let network: Network = compile(archive)?;
    Ok(ModelInner { network, vocabularies, shortlist, source_eos, target_eos })
}

/// A loaded, immutable translation model.
///
/// Cloning a model is inexpensive and shares the compiled model data.
pub struct Model {
    inner: Arc<ModelInner>,
}

impl View for Model {
    type V = ModelContents;

    closed spec fn view(&self) -> ModelContents {
        self.inner@
    }
}

impl Clone for Model {
    fn clone(&self) -> (model: Model)
        ensures
            model@ == self@,
    {
        proof {
            use_type_invariant(self);
        }
        Model { inner: self.inner.clone() }
    }
}

impl Model {
    /// The parts fit together.
    #[verifier::type_invariant]
    closed spec fn valid(&self) -> bool {
        self.inner.valid()
    }

    /// The parts.
    pub fn parts(&self) -> (parts: &ModelInner)
        ensures
            parts@ == self@,
            parts.valid(),
    {
        proof {
            use_type_invariant(self);
        }
        &self.inner
    }

    /// Loads all model assets from owned byte buffers; `parse` reads the
    /// configuration text of the model.
    ///
    /// Fails where an asset is malformed, the vocabularies and the shortlist
    /// do not match the model, or the model uses unsupported layers.
    pub fn from_assets<F: Fn(&str) -> Result<ModelConfig, LoadError>>(
        assets: ModelAssets,
        parse: F,
    ) -> (model: Result<Model, LoadError>)
        requires
            forall|text: &str| call_requires(parse, (text,)),
        ensures
            assets_give(
                parse,
                assets,
                match model {
                    Ok(model) => Ok(model@),
                    Err(error) => Err(error@),
                },
            ),
    {
        let ModelAssets { model, vocabularies, shortlist } = assets;
        let ghost bytes = model@;
        match ModelArchive::from_bytes(model, None, parse) {
            Err(error) => {
                proof {
                    assert(archive_gives(
                        parse,
                        bytes,
                        None,
                        Err::<ArchiveContents, LoadFault>(error@),
                    ));
                }
                Err(error)
            },
            Ok(archive) => {
                proof {
                    assert(archive_gives(
                        parse,
                        bytes,
                        None,
                        Ok::<ArchiveContents, LoadFault>(archive@),
                    ));
                    loaded_archives_are_sound(parse, bytes, None, archive@);
                }
                let inner: ModelInner = assemble(archive, vocabularies, shortlist)?;
                Ok(Model { inner: Arc::new(inner) })
            },
        }
    }
}

/// A pool of threads.
#[verifier::external_type_specification]
#[verifier::external_body]
pub struct ExThreadPool(rayon::ThreadPool);

/// The number of threads that a pool was made with.
pub uninterp spec fn pool_threads(pool: rayon::ThreadPool) -> usize;

/// The name that the threads of a pool were made with.
pub uninterp spec fn pool_thread_name(pool: rayon::ThreadPool) -> Seq<char>;

/// Starts a pool of threads with `rayon::ThreadPoolBuilder::build`.
///
/// Claimed of it: the pool has as many threads as it is asked for, and every
/// thread has the name. Not claimed is whether there is a pool, which depends
/// on the machine. A name with a NUL character would make it panic.
#[verifier::external_body]
fn start_pool(threads: usize, name: &'static str) -> (pool: Result<
    rayon::ThreadPool,
    rayon::ThreadPoolBuildError,
>)
    requires
        0 < threads <= 255,
        !name@.contains('\0'),
    ensures
        pool matches Ok(pool) ==> pool_threads(pool) == threads && pool_thread_name(pool) == name@,
{
    rayon::ThreadPoolBuilder::new().num_threads(threads).thread_name(|_| name.into()).build()
}

/// Runs an operation in a pool with `rayon::ThreadPool::install`.
///
/// Claimed of it: the operation is called once, and what it returns is
/// returned.
#[verifier::external_body]
fn run_in_pool<R: Send, F: FnOnce() -> R + Send>(pool: &rayon::ThreadPool, operation: F) -> (result:
    R)
    requires
        call_requires(operation, ()),
    ensures
        call_ensures(operation, (), result),
{
    pool.install(operation)
}

/// A single-threaded inference execution slot.
///
/// Executors do not own model weights and may run any [`Model`]. Callers that
/// want parallel inference should create multiple executors. Translation
/// requires exclusive access to make the single-operation capacity explicit.
pub struct Executor {
    execution: rayon::ThreadPool,
}

impl Executor {
    /// The pool that operations run in.
    pub closed spec fn pool(&self) -> rayon::ThreadPool {
        self.execution
    }

    /// Creates a single-threaded inference executor.
    ///
    /// Whether the thread can be started depends on the machine;
    /// [`Executor::from_pool`] says what becomes of either outcome.
    pub fn new() -> (executor: Result<Executor, ExecutorError>)
        ensures
            executor matches Ok(executor) ==> {
                &&& pool_threads(executor.pool()) == 1
                &&& pool_thread_name(executor.pool()) == "linguaspark-executor"@
            },
    {
        proof {
            reveal_strlit("linguaspark-executor");
        }
        Executor::from_pool(start_pool(1, "linguaspark-executor"))
    }

    /// Makes an executor of a pool; where there is none, hands on why.
    pub fn from_pool(pool: Result<rayon::ThreadPool, rayon::ThreadPoolBuildError>) -> (executor:
        Result<Executor, ExecutorError>)
        ensures
            match pool {
                Ok(pool) => executor matches Ok(executor) && executor.pool() == pool,
                Err(error) => executor matches Err(failure) && failure.0 == error,
            },
    {
        match pool {
            Ok(execution) => Ok(Executor { execution }),
            Err(error) => Err(ExecutorError(error)),
        }
    }

    /// Runs an operation on the executor's thread.
    pub fn execute<R: Send, F: FnOnce() -> R + Send>(&self, operation: F) -> (result: R)
        requires
            call_requires(operation, ()),
        ensures
            call_ensures(operation, (), result),
    {
        run_in_pool(&self.execution, operation)
    }
}

/// The best translation produced for one input. The score is held as its
/// 32-bit pattern.
#[derive(Debug)]
#[non_exhaustive]
pub struct Translation {
    /// Decoded target text.
    pub text: String,
    /// Generated target token IDs, excluding the end-of-sentence token.
    pub token_ids: Vec<TokenId>,
    /// Final hypothesis score after length normalization and word penalty.
    ///
    /// This is not a calibrated probability or confidence score.
    pub score: u32,
    /// Why decoding stopped.
    pub stop_reason: StopReason,
}

/// A translation, with its text and tokens as sequences.
#[verifier::ext_equal]
pub struct TranslationContents {
    /// Decoded target text.
    pub text: Seq<char>,
    /// Generated target token IDs.
    pub token_ids: Seq<TokenId>,
    /// Final hypothesis score.
    pub score: u32,
    /// Why decoding stopped.
    pub stop_reason: StopReason,
}

impl View for Translation {
    type V = TranslationContents;

    open spec fn view(&self) -> TranslationContents {
        TranslationContents {
            text: self.text@,
            token_ids: self.token_ids@,
            score: self.score,
            stop_reason: self.stop_reason,
        }
    }
}

/// A batch of sentences, ready to be encoded.
pub struct SourceBatch {
    /// Number of sentences.
    pub batch_size: usize,
    /// Tokens, position by position.
    pub tokens: Vec<TokenId>,
    /// Which tokens are no padding.
    pub mask: Vec<bool>,
    /// Padded length of the sentences.
    pub width: usize,
    /// Which sentences are empty.
    pub empty_inputs: Vec<bool>,
    /// Target tokens to score.
    pub shortlist: Vec<TokenId>,
}

impl SourceBatch {
    /// The batch is made of the given sentences.
    pub open spec fn holds(&self, model: ModelContents, sentences: Seq<Seq<TokenId>>) -> bool {
        let tokens = padded_tokens(sentences, model.source_eos);
        &&& self.batch_size == sentences.len()
        &&& self.tokens@ == tokens
        &&& self.mask@ == padding_mask(sentences)
        &&& self.width == batch_width(sentences)
        &&& self.empty_inputs@ == empty_sources(sentences, model.source_eos)
        &&& self.shortlist@ == model.shortlist.generated(
            tokens,
            piece_count(model.target) as int,
            model.shared,
        )
    }
}

/// The character sequences of texts.
pub open spec fn input_texts(inputs: Seq<String>) -> Seq<Seq<char>> {
    inputs.map_values(|input: String| input@)
}

/// The sentences that texts are encoded to behind those already encoded, each
/// with the end-of-sentence token.
pub open spec fn more_sentences(
    source: Seq<u8>,
    inputs: Seq<Seq<char>>,
    done: Seq<Seq<TokenId>>,
) -> Result<Seq<Seq<TokenId>>, TranslateFault>
    decreases inputs.len() - done.len(),
{
    if done.len() >= inputs.len() {
        Ok(done)
    } else {
        match tokens_of(
            split_outcome(source, inputs[done.len() as int]),
            eos_piece(source),
            true,
        ) {
            Err(fault) => Err(fault),
            Ok(sentence) => more_sentences(source, inputs, done.push(sentence)),
        }
    }
}

/// The sentences that a batch of texts is encoded to, unless the options are
/// refused.
pub open spec fn batch_sentences(
    source: Seq<u8>,
    inputs: Seq<Seq<char>>,
    options: DecodeOptions,
) -> Result<Seq<Seq<TokenId>>, TranslateFault> {
    match options_fault(options) {
        Some(fault) => Err(fault),
        None => more_sentences(source, inputs, Seq::empty()),
    }
}

/// Encoding keeps the order of the texts: there is a sentence for every text,
/// and it is what the text alone is encoded to.
pub proof fn sentences_follow_texts(
    source: Seq<u8>,
    inputs: Seq<Seq<char>>,
    sentences: Seq<Seq<TokenId>>,
    at: int,
)
    requires
        more_sentences(source, inputs, Seq::empty()) == Ok::<Seq<Seq<TokenId>>, TranslateFault>(
            sentences,
        ),
        0 <= at < inputs.len(),
    ensures
        sentences.len() == inputs.len(),
        tokens_of(split_outcome(source, inputs[at]), eos_piece(source), true) == Ok::<
            Seq<TokenId>,
            TranslateFault,
        >(sentences[at]),
{
    sentences_go_on(source, inputs, Seq::empty(), sentences);
}

proof fn sentences_go_on(
    source: Seq<u8>,
    inputs: Seq<Seq<char>>,
    done: Seq<Seq<TokenId>>,
    sentences: Seq<Seq<TokenId>>,
)
    requires
        done.len() <= inputs.len(),
        more_sentences(source, inputs, done) == Ok::<Seq<Seq<TokenId>>, TranslateFault>(sentences),
    ensures
        sentences.len() == inputs.len(),
        done.is_prefix_of(sentences),
        forall|k: int|
            done.len() <= k < inputs.len() ==> #[trigger] tokens_of(
                split_outcome(source, inputs[k]),
                eos_piece(source),
                true,
            ) == Ok::<Seq<TokenId>, TranslateFault>(sentences[k]),
    decreases inputs.len() - done.len(),
{
    if done.len() < inputs.len() {
        let at = done.len() as int;
        let sentence = tokens_of(split_outcome(source, inputs[at]), eos_piece(source), true)->Ok_0;
        sentences_go_on(source, inputs, done.push(sentence), sentences);
        assert(done.push(sentence)[at] == sentence);
        assert(done.push(sentence).is_prefix_of(sentences));
        assert(sentences[at] == sentence);
        assert(done.push(sentence).take(at) == done);
    }
}

/// The token that must not be emitted.
pub open spec fn forbidden_token(target: Seq<u8>, options: DecodeOptions) -> Option<TokenId> {
    if options.allow_unknown {
        None
    } else {
        Some(unk_piece(target) as TokenId)
    }
}

/// All tokens are below the limit.
pub open spec fn all_below(tokens: Seq<TokenId>, limit: usize) -> bool {
    forall|k: int| 0 <= k < tokens.len() ==> #[trigger] tokens[k] < limit
}

impl Model {
    /// Encodes texts one by one.
    fn encode_all(&self, inputs: &[String]) -> (sentences: Result<
        Vec<Vec<TokenId>>,
        TranslateError,
    >)
        ensures
            match sentences {
                Ok(sentences) => {
                    &&& more_sentences(self@.source, input_texts(inputs@), Seq::empty()) == Ok::<
                        Seq<Seq<TokenId>>,
                        TranslateFault,
                    >(token_lists(sentences@))
                    &&& sentences@.len() == inputs@.len()
                    &&& forall|i: int|
                        0 <= i < sentences@.len() ==> all_below(
                            (#[trigger] sentences@[i])@,
                            piece_count(self@.source),
                        )
                },
                Err(error) => more_sentences(self@.source, input_texts(inputs@), Seq::empty())
                    == Err::<Seq<Seq<TokenId>>, TranslateFault>(error@),
            },
    {
        proof {
            use_type_invariant(self);
        }
        let mut sentences: Vec<Vec<TokenId>> = Vec::new();
        let ghost texts = input_texts(inputs@);
        let ghost expected = more_sentences(self@.source, texts, Seq::empty());
        proof {
            assert(token_lists(sentences@) == Seq::<Seq<TokenId>>::empty());
        }
        while sentences.len() < inputs.len()
            invariant
                sentences@.len() <= inputs@.len(),
                self.valid(),
                texts == input_texts(inputs@),
                expected == more_sentences(self@.source, texts, Seq::empty()),
                expected == more_sentences(self@.source, texts, token_lists(sentences@)),
                forall|i: int|
                    0 <= i < sentences@.len() ==> all_below(
                        (#[trigger] sentences@[i])@,
                        piece_count(self@.source),
                    ),
            decreases inputs@.len() - sentences@.len(),
        {
            let input: &String = &inputs[sentences.len()];
            proof {
                assert(texts[sentences@.len() as int] == input@);
            }
            let sentence: Vec<TokenId> = self.inner.vocabularies.source().encode(
                input.as_str(),
                true,
            )?;
            let ghost before = token_lists(sentences@);
            sentences.push(sentence);
            proof {
                assert(token_lists(sentences@) == before.push(sentence@));
            }
        }
        Ok(sentences)
    }

    /// Encodes, pads and shortlists a batch of texts.
    ///
    /// Every token of the batch has a source embedding, and every shortlisted
    /// token an output.
    pub fn prepare_batch(&self, inputs: &[String], options: &DecodeOptions) -> (batch: Result<
        SourceBatch,
        TranslateError,
    >)
        ensures
            match batch {
                Ok(batch) => {
                    &&& batch_sentences(self@.source, input_texts(inputs@), *options) matches Ok(
                        sentences,
                    ) && batch.holds(self@, sentences)
                    &&& batch.batch_size == inputs@.len()
                    &&& all_below(batch.tokens@, self@.network.spec.source_vocab)
                    &&& all_below(batch.shortlist@, self@.network.spec.target_vocab)
                },
                Err(error) => batch_sentences(self@.source, input_texts(inputs@), *options)
                    == Err::<Seq<Seq<TokenId>>, TranslateFault>(error@),
            },
    {
        proof {
            use_type_invariant(self);
        }
        validate_decode_options(options)?;
        let sentences: Vec<Vec<TokenId>> = self.encode_all(inputs)?;
        let (tokens, mask, width, empty_inputs) = pad_sources(
            sentences.as_slice(),
            self.inner.source_eos,
        );
        let target_size: usize = self.inner.vocabularies.target().len();
        let shortlist: Vec<TokenId> = self.inner.shortlist.generate_shared(
            tokens.as_slice(),
            target_size,
            self.inner.vocabularies.is_shared(),
        );
        proof {
            let all = token_lists(sentences@);
            let limit = self@.network.spec.source_vocab;
            assert forall|i: int| 0 <= i < tokens@.len() implies #[trigger] tokens@[i] < limit by {
                cells_are_inside(all, i);
                let b = cell_source(all.len(), i);
                if cell_taken(all, i) {
                    assert(all_below(sentences@[b]@, limit));
                    assert(all[b] == sentences@[b]@);
                    assert(sentences@[b]@[cell_position(all.len(), i)] < limit);
                }
            }
            crate::model::shortlist::generated_lists_ascend(
                self@.shortlist,
                tokens@,
                target_size as int,
                self@.shared,
            );
        }
        Ok(
            SourceBatch {
                batch_size: sentences.len(),
                tokens,
                mask,
                width,
                empty_inputs,
                shortlist,
            },
        )
    }

    /// Projects onto the shortlist of a batch.
    ///
    /// A batch without shortlisted tokens has no projection.
    pub fn prepare_output(&self, batch: &SourceBatch) -> (prepared: Result<
        PreparedOutput,
        TranslateError,
    >)
        requires
            batch.shortlist@.len() > 0,
        ensures
            match prepared {
                Ok(prepared) => prepared.linear.valid() && self@.network.output.prepared(
                    batch.shortlist@,
                ) == Ok::<LinearContents, TranslateFault>(prepared.linear@),
                Err(error) => self@.network.output.prepared(batch.shortlist@) == Err::<
                    LinearContents,
                    TranslateFault,
                >(error@),
            },
    {
        proof {
            use_type_invariant(self);
            let cols = self@.network.output.embedding.cols;
            let count = batch.shortlist@.len();
            assert(cols * count > 0) by (nonlinear_arith)
                requires
                    cols > 0,
                    count > 0,
            ;
        }
        self.inner.network.prepare_output(batch.shortlist.as_slice())
    }

    /// Starts the beam search of a batch.
    pub fn start_search(&self, batch: &SourceBatch, options: &DecodeOptions, max_len: usize) -> (search:
        BeamSearch)
        ensures
            search.valid(),
            search.plan.shortlist@ == batch.shortlist@,
            search.plan.forbidden == forbidden_token(self@.target, *options),
            search.plan.eos == self@.target_eos,
            search.plan.empty_inputs@ == batch.empty_inputs@,
            search.plan.max_len == max_len,
            search.plan.beam_size == options.beam_size,
            search@ == crate::decoding::search::started(batch.empty_inputs@.len()),
    {
        proof {
            use_type_invariant(self);
        }
        let forbidden: Option<TokenId> = if options.allow_unknown {
            None
        } else {
            Some(self.inner.vocabularies.target().unk_id())
        };
        let shortlist: Vec<TokenId> = batch.shortlist.clone();
        let empty_inputs: Vec<bool> = batch.empty_inputs.clone();
        proof {
            assert(shortlist@ =~= batch.shortlist@);
            assert(empty_inputs@ =~= batch.empty_inputs@);
        }
        BeamSearch::new(
            SearchPlan {
                shortlist,
                forbidden,
                eos: self.inner.target_eos,
                empty_inputs,
                max_len,
                beam_size: options.beam_size,
            },
        )
    }
}

proof fn cells_are_inside(sentences: Seq<Seq<TokenId>>, index: int)
    requires
        0 <= index < cell_count(sentences),
    ensures
        0 <= cell_source(sentences.len(), index) < sentences.len(),
        0 <= cell_position(sentences.len(), index),
{
    let count = sentences.len() as int;
    assert(count > 0) by (nonlinear_arith)
        requires
            0 <= index < count * batch_width(sentences),
            count >= 0,
    ;
    vstd::arithmetic::div_mod::lemma_fundamental_div_mod(index, count);
    vstd::arithmetic::div_mod::lemma_mod_bound(index, count);
    vstd::arithmetic::div_mod::lemma_div_pos_is_pos(index, count);
}

/// The translation that an output makes up, given its text.
pub open spec fn translation_of(
    output: Output,
    text: Result<Seq<char>, Seq<char>>,
) -> Result<TranslationContents, TranslateFault> {
    match text {
        Err(text) => Err(TranslateFault::Runtime(text)),
        Ok(text) => Ok(
            TranslationContents {
                text,
                token_ids: output.tokens,
                score: output.score,
                stop_reason: if output.finished {
                    StopReason::EndOfSentence
                } else {
                    StopReason::LengthLimit
                },
            },
        ),
    }
}

/// The translations that outputs make up behind those already made.
pub open spec fn more_translations(
    target: Seq<u8>,
    decoded: Seq<Output>,
    done: Seq<TranslationContents>,
) -> Result<Seq<TranslationContents>, TranslateFault>
    decreases decoded.len() - done.len(),
{
    if done.len() >= decoded.len() {
        Ok(done)
    } else {
        let output = decoded[done.len() as int];
        match translation_of(output, join_outcome(target, as_pieces(output.tokens))) {
            Err(fault) => Err(fault),
            Ok(translation) => more_translations(target, decoded, done.push(translation)),
        }
    }
}

/// Decoding keeps the order of the outputs: there is a translation for every
/// output, with its tokens, its score and the text that its tokens make up; it
/// says whether the output ended its sentence.
pub proof fn translations_follow_outputs(
    target: Seq<u8>,
    decoded: Seq<Output>,
    translations: Seq<TranslationContents>,
    at: int,
)
    requires
        more_translations(target, decoded, Seq::empty()) == Ok::<
            Seq<TranslationContents>,
            TranslateFault,
        >(translations),
        0 <= at < decoded.len(),
    ensures
        translations.len() == decoded.len(),
        translations[at].token_ids == decoded[at].tokens,
        translations[at].score == decoded[at].score,
        join_outcome(target, as_pieces(decoded[at].tokens)) == Ok::<Seq<char>, Seq<char>>(
            translations[at].text,
        ),
        translations[at].stop_reason == StopReason::EndOfSentence <==> decoded[at].finished,
{
    translations_go_on(target, decoded, Seq::empty(), translations);
    assert(translation_of(decoded[at], join_outcome(target, as_pieces(decoded[at].tokens))) == Ok::<
        TranslationContents,
        TranslateFault,
    >(translations[at]));
}

proof fn translations_go_on(
    target: Seq<u8>,
    decoded: Seq<Output>,
    done: Seq<TranslationContents>,
    translations: Seq<TranslationContents>,
)
    requires
        done.len() <= decoded.len(),
        more_translations(target, decoded, done) == Ok::<Seq<TranslationContents>, TranslateFault>(
            translations,
        ),
    ensures
        translations.len() == decoded.len(),
        done.is_prefix_of(translations),
        forall|k: int|
            done.len() <= k < decoded.len() ==> #[trigger] translation_of(
                decoded[k],
                join_outcome(target, as_pieces(decoded[k].tokens)),
            ) == Ok::<TranslationContents, TranslateFault>(translations[k]),
    decreases decoded.len() - done.len(),
{
    if done.len() < decoded.len() {
        let at = done.len() as int;
        let translation = translation_of(
            decoded[at],
            join_outcome(target, as_pieces(decoded[at].tokens)),
        )->Ok_0;
        translations_go_on(target, decoded, done.push(translation), translations);
        assert(done.push(translation)[at] == translation);
        assert(translations[at] == translation);
        assert(done.push(translation).take(at) == done);
    }
}

/// Makes up a translation of an output and its text.
pub fn finish_translation(output: DecodedHypothesis, text: String) -> (translation: Translation)
    ensures
        translation_of(output@, Ok(text@)) == Ok::<TranslationContents, TranslateFault>(
            translation@,
        ),
{
    Translation {
        text,
        token_ids: output.tokens,
        score: output.score,
        stop_reason: if output.finished {
            StopReason::EndOfSentence
        } else {
            StopReason::LengthLimit
        },
    }
}

/// The translations, with their texts and tokens as sequences.
pub open spec fn translation_contents(translations: Seq<Translation>) -> Seq<TranslationContents> {
    translations.map_values(|translation: Translation| translation@)
}

impl Model {
    /// Makes up translations of the outputs of a batch.
    pub fn finish_batch(&self, decoded: Vec<DecodedHypothesis>) -> (translations: Result<
        Vec<Translation>,
        TranslateError,
    >)
        ensures
            match translations {
                Ok(translations) => more_translations(
                    self@.target,
                    crate::decoding::search::outputs(decoded@),
                    Seq::empty(),
                ) == Ok::<Seq<TranslationContents>, TranslateFault>(
                    translation_contents(translations@),
                ),
                Err(error) => more_translations(
                    self@.target,
                    crate::decoding::search::outputs(decoded@),
                    Seq::empty(),
                ) == Err::<Seq<TranslationContents>, TranslateFault>(error@),
            },
    {
        let ghost all = crate::decoding::search::outputs(decoded@);
        let ghost expected = more_translations(self@.target, all, Seq::empty());
        let mut rest: Vec<DecodedHypothesis> = decoded;
        let mut translations: Vec<Translation> = Vec::new();
        proof {
            assert(translation_contents(translations@) == Seq::<TranslationContents>::empty());
            assert(crate::decoding::search::outputs(rest@) == all.skip(0));
        }
        while rest.len() > 0
            invariant
                all == crate::decoding::search::outputs(decoded@),
                expected == more_translations(self@.target, all, Seq::empty()),
                translations@.len() + rest@.len() == all.len(),
                crate::decoding::search::outputs(rest@) == all.skip(translations@.len() as int),
                expected == more_translations(
                    self@.target,
                    all,
                    translation_contents(translations@),
                ),
            decreases rest@.len(),
        {
            let ghost before = rest@;
            let output: DecodedHypothesis = rest.remove(0);
            proof {
                assert(crate::decoding::search::outputs(before)[0] == output@);
                assert(all.skip(translations@.len() as int)[0] == output@);
                let later = all.skip((translations@.len() + 1) as int);
                assert forall|i: int| 0 <= i < rest@.len() implies #[trigger] rest@[i]@
                    == later[i] by {
                    assert(crate::decoding::search::outputs(before)[i + 1] == before[i + 1]@);
                    assert(all.skip(translations@.len() as int)[i + 1] == before[i + 1]@);
                }
                assert(crate::decoding::search::outputs(rest@) =~= later);
            }
            let text: String = self.inner.vocabularies.target().decode(output.tokens.as_slice())?;
            let ghost done = translation_contents(translations@);
            let translation: Translation = finish_translation(output, text);
            translations.push(translation);
            proof {
                assert(translation_contents(translations@) == done.push(translation@));
            }
        }
        Ok(translations)
    }
}

proof fn some_source_is_longest(sources: Seq<Seq<TokenId>>)
    requires
        sources.len() > 0,
    ensures
        exists|batch: int|
            0 <= batch < sources.len() && (#[trigger] sources[batch]).len() == batch_width(sources),
    decreases sources.len(),
{
    let shorter = sources.drop_last();
    if sources.last().len() > batch_width(shorter) || shorter.len() == 0 {
        assert(sources[sources.len() - 1].len() == batch_width(sources));
    } else {
        some_source_is_longest(shorter);
        let batch = choose|batch: int|
            0 <= batch < shorter.len() && (#[trigger] shorter[batch]).len() == batch_width(shorter);
        assert(sources[batch] == shorter[batch]);
    }
}

/// A batch is as wide as its longest sentence and stores its tokens position
/// by position: token `position` of sentence `batch` stands in cell
/// `position * batch_size + batch`, unmasked. Behind the end of a sentence
/// stands the end-of-sentence token, masked. A sentence is empty where that
/// token is all it has.
pub proof fn batches_hold_sentences(
    prepared: SourceBatch,
    model: ModelContents,
    sentences: Seq<Seq<TokenId>>,
    batch: int,
    position: int,
)
    requires
        prepared.holds(model, sentences),
        0 <= batch < sentences.len(),
        0 <= position < prepared.width,
    ensures
        prepared.batch_size == sentences.len(),
        forall|k: int|
            0 <= k < sentences.len() ==> (#[trigger] sentences[k]).len() <= prepared.width,
        exists|k: int|
            0 <= k < sentences.len() && (#[trigger] sentences[k]).len() == prepared.width,
        prepared.tokens@.len() == prepared.batch_size * prepared.width,
        prepared.mask@.len() == prepared.batch_size * prepared.width,
        0 <= position * prepared.batch_size + batch < prepared.tokens@.len(),
        prepared.mask@[position * prepared.batch_size + batch] <==> position
            < sentences[batch].len(),
        position < sentences[batch].len() ==> prepared.tokens@[position * prepared.batch_size
            + batch] == sentences[batch][position],
        position >= sentences[batch].len() ==> prepared.tokens@[position * prepared.batch_size
            + batch] == model.source_eos,
        prepared.empty_inputs@.len() == sentences.len(),
        prepared.empty_inputs@[batch] <==> sentences[batch].len() == 1 && sentences[batch][0]
            == model.source_eos,
{
    padding_keeps_tokens(sentences, model.source_eos, batch, position);
    some_source_is_longest(sentences);
    assert forall|k: int| 0 <= k < sentences.len() implies (#[trigger] sentences[k]).len()
        <= prepared.width by {
        widths_cover(sentences, k);
    }
    if sentences[batch].len() == 1 && sentences[batch][0] == model.source_eos {
        assert(sentences[batch] =~= seq![model.source_eos]);
    }
}

/// The shortlist of a batch is generated for the tokens of the batch: it has
/// the frequent target tokens, the candidates of every token of the batch and,
/// with a shared vocabulary, the tokens of the batch themselves.
pub proof fn batches_have_shortlists(
    prepared: SourceBatch,
    model: ModelContents,
    sentences: Seq<Seq<TokenId>>,
    target: TokenId,
)
    requires
        prepared.holds(model, sentences),
        model.shortlist.offsets.len() > 0,
        model.shortlist.offsets[model.shortlist.offsets.len() - 1]
            == model.shortlist.target_ids.len(),
        forall|i: int, j: int|
            0 <= i <= j < model.shortlist.offsets.len() ==> model.shortlist.offsets[i]
                <= model.shortlist.offsets[j],
        target < piece_count(model.target) <= 0x1_0000_0000,
        target < model.shortlist.first_num || (model.shared && prepared.tokens@.contains(target))
            || exists|i: int, j: int|
            #![trigger prepared.tokens@[i], model.shortlist.target_ids[j]]
            0 <= i < prepared.tokens@.len() && prepared.tokens@[i] + 1
                < model.shortlist.offsets.len()
                && model.shortlist.offsets[prepared.tokens@[i] as int] <= j
                < model.shortlist.offsets[prepared.tokens@[i] + 1]
                && model.shortlist.target_ids[j] == target,
    ensures
        prepared.shortlist@.contains(target),
{
    generated_lists_are_requests_and_fillers(
        model.shortlist,
        prepared.tokens@,
        piece_count(model.target) as int,
        model.shared,
    );
    assert(is_requested(model.shortlist, prepared.tokens@, model.shared, target));
}

/// Options are accepted exactly where the length factor is a positive finite
/// number, the beam is not empty and the score options are finite: their
/// exponents are not all ones.
pub proof fn options_are_accepted(options: DecodeOptions)
    ensures
        options_fault(options) is None <==> {
            &&& 0 < options.max_length_factor < 0x7f80_0000
            &&& options.beam_size >= 1
            &&& options.length_normalization % 0x8000_0000 < 0x7f80_0000
            &&& options.word_penalty % 0x8000_0000 < 0x7f80_0000
        },
        options_fault(options) matches Some(fault) ==> fault is InvalidOptions,
{
}

/// Unless unknown tokens are allowed, the unknown token of the target
/// vocabulary is forbidden, and no other.
pub proof fn unknown_tokens_are_forbidden(target: Seq<u8>, options: DecodeOptions, token: TokenId)
    requires
        unk_piece(target) <= 0xffff_ffff,
    ensures
        forbidden_token(target, options) == Some(token) <==> !options.allow_unknown && token
            == unk_piece(target),
{
}

/// Sizes match exactly where both vocabularies have the model's dimensions,
/// the shortlist has an offset more than there are source tokens, and every
/// candidate is a target token.
pub proof fn sizes_match(
    source_size: usize,
    target_size: usize,
    dim_vocabs: Seq<usize>,
    shortlist: ShortlistContents,
)
    requires
        shortlist.offsets.len() > 0,
    ensures
        sizes_fault(source_size, target_size, dim_vocabs, shortlist) is None <==> {
            &&& source_size == dim_vocabs[0]
            &&& target_size == dim_vocabs[1]
            &&& shortlist.offsets.len() == source_size + 1
            &&& forall|k: int|
                0 <= k < shortlist.target_ids.len() ==> #[trigger] shortlist.target_ids[k]
                    < target_size
        },
{
    first_at_least_is_first(shortlist.target_ids, target_size as int);
}

/// A model is made up of the parts that are handed in, each in its place: the
/// network of the archive, the vocabularies with their own end-of-sentence
/// tokens and the shortlist. It is made up wherever all parts load and match.
#[verifier::spinoff_prover]
#[verifier::rlimit(60)]
pub proof fn models_hold_their_parts(
    archive: ArchiveContents,
    vocabularies: VocabularyAssets,
    shortlist: Seq<u8>,
    model: ModelContents,
)
    ensures
        assembled(archive, vocabularies, shortlist) == Ok::<ModelContents, LoadFault>(model) <==> {
            &&& match vocabularies {
                VocabularyAssets::Shared(bytes) => {
                    &&& model.shared
                    &&& model.source == bytes@
                    &&& model.target == bytes@
                },
                VocabularyAssets::Separate { source, target } => {
                    &&& !model.shared
                    &&& model.source == source@
                    &&& model.target == target@
                },
            }
            &&& vocabulary_fault(model.source) is None
            &&& vocabulary_fault(model.target) is None
            &&& eos_piece(model.source) matches Some(eos) && model.source_eos == eos as TokenId
            &&& eos_piece(model.target) matches Some(eos) && model.target_eos == eos as TokenId
            &&& shortlist_of(shortlist) == Ok::<ShortlistContents, LoadFault>(model.shortlist)
            &&& sizes_fault(
                piece_count(model.source),
                piece_count(model.target),
                archive.config.dim_vocabs@,
                model.shortlist,
            ) is None
            &&& network_of(archive.config, archive.tensors) == Ok::<NetworkContents, LoadFault>(
                model.network,
            )
        },
{
}

proof fn sentences_succeed(
    source: Seq<u8>,
    inputs: Seq<Seq<char>>,
    done: Seq<Seq<TokenId>>,
)
    requires
        eos_piece(source) is Some,
        forall|k: int|
            0 <= k < inputs.len() ==> split_outcome(source, #[trigger] inputs[k]) is Ok,
    ensures
        more_sentences(source, inputs, done) is Ok,
    decreases inputs.len() - done.len(),
{
    if done.len() < inputs.len() {
        let text = inputs[done.len() as int];
        assert(split_outcome(source, text) is Ok);
        let sentence = tokens_of(split_outcome(source, text), eos_piece(source), true)->Ok_0;
        sentences_succeed(source, inputs, done.push(sentence));
    }
}

/// A batch of texts is encoded wherever the options are accepted and every
/// text can be split; sentence `k` then has the pieces of text `k`, in order,
/// and the end-of-sentence token behind them.
#[verifier::spinoff_prover]
#[verifier::rlimit(60)]
pub proof fn sentences_are_encoded_texts(
    source: Seq<u8>,
    inputs: Seq<Seq<char>>,
    options: DecodeOptions,
)
    requires
        options_fault(options) is None,
        eos_piece(source) is Some,
        forall|k: int|
            0 <= k < inputs.len() ==> split_outcome(source, #[trigger] inputs[k]) is Ok,
    ensures
        batch_sentences(source, inputs, options) matches Ok(sentences) && sentences.len()
            == inputs.len() && forall|k: int|
            0 <= k < inputs.len() ==> {
                let pieces = split_outcome(source, inputs[k])->Ok_0;
                &&& (#[trigger] sentences[k]).len() == pieces.len() + 1
                &&& forall|i: int|
                    0 <= i < pieces.len() ==> #[trigger] sentences[k][i] == pieces[i] as TokenId
                &&& sentences[k][pieces.len() as int] == eos_piece(source)->0 as TokenId
            },
{
    sentences_succeed(source, inputs, Seq::empty());
    let sentences = more_sentences(source, inputs, Seq::empty())->Ok_0;
    sentences_go_on(source, inputs, Seq::empty(), sentences);
    assert forall|k: int| 0 <= k < inputs.len() implies {
        let pieces = split_outcome(source, inputs[k])->Ok_0;
        &&& (#[trigger] sentences[k]).len() == pieces.len() + 1
        &&& forall|i: int|
            0 <= i < pieces.len() ==> #[trigger] sentences[k][i] == pieces[i] as TokenId
        &&& sentences[k][pieces.len() as int] == eos_piece(source)->0 as TokenId
    } by {
        sentences_follow_texts(source, inputs, sentences, k);
    }
}

proof fn translations_succeed(
    target: Seq<u8>,
    decoded: Seq<Output>,
    done: Seq<TranslationContents>,
)
    requires
        forall|k: int|
            0 <= k < decoded.len() ==> join_outcome(
                target,
                as_pieces((#[trigger] decoded[k]).tokens),
            ) is Ok,
    ensures
        more_translations(target, decoded, done) is Ok,
    decreases decoded.len() - done.len(),
{
    if done.len() < decoded.len() {
        let output = decoded[done.len() as int];
        assert(join_outcome(target, as_pieces(output.tokens)) is Ok);
        let translation = translation_of(
            output,
            join_outcome(target, as_pieces(output.tokens)),
        )->Ok_0;
        translations_succeed(target, decoded, done.push(translation));
    }
}

/// Outputs are translated wherever every one of them makes up a text.
pub proof fn outputs_are_translated(target: Seq<u8>, decoded: Seq<Output>)
    requires
        forall|k: int|
            0 <= k < decoded.len() ==> join_outcome(
                target,
                as_pieces((#[trigger] decoded[k]).tokens),
            ) is Ok,
    ensures
        more_translations(target, decoded, Seq::empty()) is Ok,
{
    translations_succeed(target, decoded, Seq::empty());
}

/// The contents of a translation and of a model are what they hold, each in
/// its place.
pub proof fn contents_are_in_place(translation: Translation, model: ModelInner)
    ensures
        translation@.text == translation.text@,
        translation@.token_ids == translation.token_ids@,
        translation@.score == translation.score,
        translation@.stop_reason == translation.stop_reason,
        model@.network == model.network@,
        model@.shortlist == model.shortlist@,
        model@.source_eos == model.source_eos,
        model@.target_eos == model.target_eos,
        match model.vocabularies {
            Vocabularies::Shared(vocabulary) => model@.shared && model@.source == vocabulary@
                && model@.target == vocabulary@,
            Vocabularies::Separate { source, target } => !model@.shared && model@.source == source@
                && model@.target == target@,
        },
{
}

/// Sentences, texts and translations are listed one for one, in order.
pub proof fn batches_are_listed_in_order(
    sources: Seq<Vec<TokenId>>,
    inputs: Seq<String>,
    translations: Seq<Translation>,
)
    ensures
        token_lists(sources).len() == sources.len(),
        forall|k: int| 0 <= k < sources.len() ==> #[trigger] token_lists(sources)[k] == sources[k]@,
        input_texts(inputs).len() == inputs.len(),
        forall|k: int| 0 <= k < inputs.len() ==> #[trigger] input_texts(inputs)[k] == inputs[k]@,
        translation_contents(translations).len() == translations.len(),
        forall|k: int|
            0 <= k < translations.len() ==> {
                let shown = #[trigger] translation_contents(translations)[k];
                &&& shown.text == translations[k].text@
                &&& shown.token_ids == translations[k].token_ids@
                &&& shown.score == translations[k].score
                &&& shown.stop_reason == translations[k].stop_reason
            },
{
}

/// A model that loads from assets has the archive of its model file, whatever
/// the hash of that file, and is made up of that and of the other assets.
pub proof fn loaded_models_hold_their_assets<F: Fn(&str) -> Result<ModelConfig, LoadError>>(
    parse: F,
    assets: ModelAssets,
    model: ModelContents,
)
    requires
        assets_give(parse, assets, Ok(model)),
    ensures
        exists|archive: ArchiveContents|
            #![trigger assembled(archive, assets.vocabularies, assets.shortlist@)]
            archive_gives(parse, assets.model@, None, Ok(archive)) && assembled(
                archive,
                assets.vocabularies,
                assets.shortlist@,
            ) == Ok::<ModelContents, LoadFault>(model),
{
    let read = choose|read: Result<ArchiveContents, LoadFault>|
        {
            &&& #[trigger] archive_gives(parse, assets.model@, None, read)
            &&& match read {
                Err(fault) => Ok::<ModelContents, LoadFault>(model) == Err::<
                    ModelContents,
                    LoadFault,
                >(fault),
                Ok(archive) => Ok::<ModelContents, LoadFault>(model) == assembled(
                    archive,
                    assets.vocabularies,
                    assets.shortlist@,
                ),
            }
        };
    let archive = read->Ok_0;
    assert(assembled(archive, assets.vocabularies, assets.shortlist@) == Ok::<
        ModelContents,
        LoadFault,
    >(model));
}

} // verus!
