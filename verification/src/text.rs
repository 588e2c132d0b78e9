//! SentencePiece vocabularies behind a small translation-specific interface.

use crate::error::{LoadError, LoadFault, TranslateError, TranslateFault};
use crate::rules::{check_tangles, check_text, parts_of, tangles, tears};
use crate::wire::{
    check_merging, check_rules, denormalizers_are_replaced, find_pieces, find_table, merges_pairs,
    pieces_of_kind, rules_break_off, table_of, without_denormalizer, DENORMALIZER, NORMALIZER,
    UNUSED, USER_DEFINED,
};
use vstd::prelude::*;
use vstd::string::*;
use vstd::utf8::*;

verus! {

/// A vocabulary token ID.
pub type TokenId = u32;

/// A loaded SentencePiece model.
#[verifier::external_type_specification]
#[verifier::external_body]
pub struct ExSentencePieceProcessor(sentencepiece_rs::SentencePieceProcessor);

/// The serialized model that a processor holds.
pub uninterp spec fn held_model(processor: sentencepiece_rs::SentencePieceProcessor) -> Seq<u8>;

/// Why a serialized model does not load; `None` where it loads.
pub uninterp spec fn load_failure(model: Seq<u8>) -> Option<Seq<char>>;

/// Number of pieces of a serialized model.
pub uninterp spec fn piece_count(model: Seq<u8>) -> usize;

/// Position of the end-of-sentence piece of a serialized model.
pub uninterp spec fn eos_piece(model: Seq<u8>) -> Option<usize>;

/// Position of the unknown piece of a serialized model.
pub uninterp spec fn unk_piece(model: Seq<u8>) -> usize;

/// The normal form of a text, or why it has none.
pub uninterp spec fn normal_form(model: Seq<u8>, text: Seq<char>) -> Result<Seq<char>, Seq<char>>;

/// The pieces that a text is split into, or why that fails.
pub uninterp spec fn pieces_of(model: Seq<u8>, text: Seq<char>) -> Result<Seq<usize>, Seq<char>>;

/// The text that pieces make up, or why they make up none.
pub uninterp spec fn text_of(model: Seq<u8>, pieces: Seq<usize>) -> Result<Seq<char>, Seq<char>>;

/// Loads a serialized model with
/// `SentencePieceProcessor::from_serialized_model`; an error is handed on as
/// its text.
///
/// Claimed of it: whether it loads, and the text of the error, depend on the
/// bytes alone, and a model that loads does so with empty denormalization rules
/// behind it too. Which bytes load is named, not described. Rules that break
/// off inside their table are kept from it, since it panics on them.
#[verifier::external_body]
fn load_processor(model: &[u8]) -> (loaded: Result<
    sentencepiece_rs::SentencePieceProcessor,
    String,
>)
    requires
        !rules_break_off(model@, NORMALIZER),
        !rules_break_off(model@, DENORMALIZER),
    ensures
        match loaded {
            Ok(processor) => {
                &&& load_failure(model@) is None
                &&& load_failure(without_denormalizer(model@)) is None
                &&& held_model(processor) == model@
            },
            Err(text) => load_failure(model@) == Some(text@),
        },
{
    match sentencepiece_rs::SentencePieceProcessor::from_serialized_model(model) {
        Ok(processor) => Ok(processor),
        Err(error) => Err(error.to_string()),
    }
}

/// Counts the pieces with `SentencePieceModel::vocab_size`.
///
/// Claimed of it: the number depends on the serialized model alone.
#[verifier::external_body]
fn count_pieces(processor: &sentencepiece_rs::SentencePieceProcessor) -> (count: usize)
    ensures
        count == piece_count(held_model(*processor)),
{
    processor.model().vocab_size()
}

/// Finds the end-of-sentence piece with `SentencePieceProcessor::eos_id`.
///
/// Claimed of it: the position depends on the serialized model alone, and it
/// is that of one of the model's pieces.
#[verifier::external_body]
fn find_eos(processor: &sentencepiece_rs::SentencePieceProcessor) -> (id: Option<usize>)
    ensures
        id == eos_piece(held_model(*processor)),
        id matches Some(id) ==> id < piece_count(held_model(*processor)),
{
    processor.eos_id()
}

/// Finds the unknown piece with `SentencePieceProcessor::unk_id`.
///
/// Claimed of it: the position depends on the serialized model alone, and it
/// is that of one of the model's pieces.
#[verifier::external_body]
fn find_unk(processor: &sentencepiece_rs::SentencePieceProcessor) -> (id: usize)
    ensures
        id == unk_piece(held_model(*processor)),
        id < piece_count(held_model(*processor)),
{
    processor.unk_id()
}

/// Normalizing a text leads inside one of its characters: the normalization
/// rules, tried where no symbol of a user stands, replace a part of it.
pub open spec fn cannot_normalize(model: Seq<u8>, text: Seq<char>) -> bool {
    table_of(model, NORMALIZER) matches Some(table) && tears(
        table,
        pieces_of_kind(model, USER_DEFINED),
        encode_utf8(text),
        0,
    )
}

/// Denormalizing a text leads inside one of its characters.
pub open spec fn cannot_denormalize(model: Seq<u8>, text: Seq<char>) -> bool {
    table_of(model, DENORMALIZER) matches Some(table) && tears(
        table,
        Seq::empty(),
        encode_utf8(text),
        0,
    )
}

/// Pairs of pieces are merged, and in the normal form of a text stands an unused
/// piece with another one at its edge, so that taking them apart again may have
/// no end.
pub open spec fn cannot_merge(model: Seq<u8>, normal: Seq<char>) -> bool {
    merges_pairs(model) && tangles(pieces_of_kind(model, UNUSED), encode_utf8(normal))
}

/// Normalizes a text with `SentencePieceProcessor::normalize`; an error is
/// handed on as its text.
///
/// Claimed of it: the outcome depends on the serialized model and the text
/// alone. What is normal is named, not described. Texts in which it would slice
/// inside a character are kept from it, since it panics on them.
#[verifier::external_body]
fn normalize(processor: &sentencepiece_rs::SentencePieceProcessor, text: &str) -> (normal: Result<
    String,
    String,
>)
    requires
        !cannot_normalize(held_model(*processor), text@),
    ensures
        match normal {
            Ok(normal) => normal_form(held_model(*processor), text@) == Ok::<Seq<char>, Seq<char>>(
                normal@,
            ),
            Err(error) => normal_form(held_model(*processor), text@) == Err::<
                Seq<char>,
                Seq<char>,
            >(error@),
        },
{
    match processor.normalize(text) {
        Ok(normal) => Ok(normal),
        Err(error) => Err(error.to_string()),
    }
}

/// Splits a text into pieces with `SentencePieceProcessor::encode_to_ids`; an
/// error is handed on as its text.
///
/// Claimed of it: the outcome depends on the serialized model and the text
/// alone, and every position is that of one of the model's pieces. How a text
/// is split is named, not described.
///
/// Kept from it are texts in which its normalization would slice inside a
/// character, since it panics on them. Where pairs of pieces are merged, it
/// takes unused pieces apart again, each time into a beginning and an end of an
/// unused piece that stands in the normal form. That has an end where neither
/// is an unused piece of several characters; other texts, some of which make it
/// recurse without end, are kept from it.
#[verifier::external_body]
fn split(processor: &sentencepiece_rs::SentencePieceProcessor, text: &str) -> (ids: Result<
    Vec<usize>,
    String,
>)
    requires
        !cannot_normalize(held_model(*processor), text@),
        normal_form(held_model(*processor), text@) matches Ok(normal) ==> !cannot_merge(
            held_model(*processor),
            normal,
        ),
    ensures
        match ids {
            Ok(ids) => {
                &&& pieces_of(held_model(*processor), text@) == Ok::<Seq<usize>, Seq<char>>(ids@)
                &&& forall|k: int|
                    0 <= k < ids@.len() ==> #[trigger] ids@[k] < piece_count(
                        held_model(*processor),
                    )
            },
            Err(error) => pieces_of(held_model(*processor), text@) == Err::<
                Seq<usize>,
                Seq<char>,
            >(error@),
        },
{
    match processor.encode_to_ids(text) {
        Ok(ids) => Ok(ids),
        Err(error) => Err(error.to_string()),
    }
}

/// Joins pieces to a text with `SentencePieceProcessor::decode_ids`; an error
/// is handed on as its text.
///
/// Claimed of it: the outcome depends on the serialized model and the pieces
/// alone. Which text they make up is named, not described. Kept from it are
/// pieces that make up a text, without the denormalization rules, in which
/// these would slice inside a character, since it panics on them.
#[verifier::external_body]
fn join(processor: &sentencepiece_rs::SentencePieceProcessor, ids: &[usize]) -> (text: Result<
    String,
    String,
>)
    requires
        table_of(held_model(*processor), DENORMALIZER) is Some ==> (text_of(
            without_denormalizer(held_model(*processor)),
            ids@,
        ) matches Ok(text) ==> !cannot_denormalize(held_model(*processor), text)),
    ensures
        match text {
            Ok(text) => text_of(held_model(*processor), ids@) == Ok::<Seq<char>, Seq<char>>(text@),
            Err(error) => text_of(held_model(*processor), ids@) == Err::<Seq<char>, Seq<char>>(
                error@,
            ),
        },
{
    match processor.decode_ids(ids) {
        Ok(text) => Ok(text),
        Err(error) => Err(error.to_string()),
    }
}

/// A SentencePiece vocabulary.
///
/// The processor stays private, so that its filesystem helpers and its wider
/// IDs do not leak into the inference interfaces.
pub struct Vocabulary {
    processor: sentencepiece_rs::SentencePieceProcessor,
    rules: Option<Vec<u8>>,
    symbols: Vec<Vec<u8>>,
    unused: Option<Vec<Vec<u8>>>,
    joiner: Option<Joiner>,
}

/// A processor without the denormalization rules of a vocabulary, and the table
/// of these rules.
struct Joiner {
    processor: sentencepiece_rs::SentencePieceProcessor,
    rules: Vec<u8>,
}

impl View for Vocabulary {
    type V = Seq<u8>;

    /// The serialized model.
    closed spec fn view(&self) -> Seq<u8> {
        held_model(self.processor)
    }
}

/// Largest number of pieces that token IDs can tell apart.
pub const MAX_PIECES: usize = 0xffff_ffff;

/// What is wrong with a vocabulary of the given size, if anything.
pub open spec fn size_fault(count: usize) -> Option<LoadFault> {
    if count > MAX_PIECES {
        Some(LoadFault::InvalidVocabulary("vocabulary is too large for 32-bit token IDs"@))
    } else {
        None
    }
}

/// Checks that token IDs can tell the pieces of a vocabulary apart.
pub fn check_size(count: usize) -> (checked: Result<(), LoadError>)
    ensures
        match checked {
            Ok(_) => size_fault(count) is None,
            Err(error) => size_fault(count) == Some(error@),
        },
{
    if count > MAX_PIECES {
        Err(
            LoadError::InvalidVocabulary(
                String::from_str("vocabulary is too large for 32-bit token IDs"),
            ),
        )
    } else {
        Ok(())
    }
}

/// Piece positions as token IDs.
pub open spec fn as_tokens(pieces: Seq<usize>) -> Seq<TokenId> {
    pieces.map_values(|piece: usize| piece as TokenId)
}

/// Token IDs as piece positions.
pub open spec fn as_pieces(tokens: Seq<TokenId>) -> Seq<usize> {
    tokens.map_values(|token: TokenId| token as usize)
}

/// Turns piece positions into token IDs.
pub fn to_tokens(pieces: &[usize]) -> (tokens: Vec<TokenId>)
    ensures
        tokens@ == as_tokens(pieces@),
{
    let mut tokens: Vec<TokenId> = Vec::with_capacity(pieces.len());
    while tokens.len() < pieces.len()
        invariant
            tokens@.len() <= pieces@.len(),
            tokens@ == as_tokens(pieces@).take(tokens@.len() as int),
        decreases pieces@.len() - tokens@.len(),
    {
        let piece: usize = pieces[tokens.len()];
        tokens.push(
            #[verifier::truncate]
            (piece as TokenId),
        );
    }
    proof {
        assert(as_tokens(pieces@).take(tokens@.len() as int) == as_tokens(pieces@));
    }
    tokens
}

/// Turns token IDs into piece positions.
pub fn to_pieces(tokens: &[TokenId]) -> (pieces: Vec<usize>)
    ensures
        pieces@ == as_pieces(tokens@),
{
    let mut pieces: Vec<usize> = Vec::with_capacity(tokens.len());
    while pieces.len() < tokens.len()
        invariant
            pieces@.len() <= tokens@.len(),
            pieces@ == as_pieces(tokens@).take(pieces@.len() as int),
        decreases tokens@.len() - pieces@.len(),
    {
        pieces.push(tokens[pieces.len()] as usize);
    }
    proof {
        assert(as_pieces(tokens@).take(pieces@.len() as int) == as_pieces(tokens@));
    }
    pieces
}

/// The token IDs of a text, given the pieces that it is split into and the
/// position of the end-of-sentence piece.
pub open spec fn tokens_of(
    pieces: Result<Seq<usize>, Seq<char>>,
    eos: Option<usize>,
    add_eos: bool,
) -> Result<Seq<TokenId>, TranslateFault> {
    match pieces {
        Err(text) => Err(TranslateFault::Runtime(text)),
        Ok(pieces) => if !add_eos {
            Ok(as_tokens(pieces))
        } else {
            match eos {
                Some(eos) => Ok(as_tokens(pieces).push(eos as TokenId)),
                None => Err(TranslateFault::Runtime("source vocabulary has no EOS token"@)),
            }
        },
    }
}

/// A list or an error text, as sequences.
pub open spec fn outcome_of<T>(outcome: Result<Vec<T>, String>) -> Result<Seq<T>, Seq<char>> {
    match outcome {
        Ok(list) => Ok(list@),
        Err(text) => Err(text@),
    }
}

/// Turns the pieces of a text into token IDs, with the end-of-sentence token
/// behind them where it is asked for.
pub fn finish_encoding(
    pieces: Result<Vec<usize>, String>,
    eos: Option<usize>,
    add_eos: bool,
) -> (tokens: Result<Vec<TokenId>, TranslateError>)
    ensures
        match tokens {
            Ok(tokens) => tokens_of(outcome_of(pieces), eos, add_eos) == Ok::<
                Seq<TokenId>,
                TranslateFault,
            >(tokens@),
            Err(error) => tokens_of(outcome_of(pieces), eos, add_eos) == Err::<
                Seq<TokenId>,
                TranslateFault,
            >(error@),
        },
{
    match pieces {
        Err(text) => Err(TranslateError::Runtime(text)),
        Ok(pieces) => {
            let mut tokens: Vec<TokenId> = to_tokens(pieces.as_slice());
            if add_eos {
                match eos {
                    Some(eos) => {
                        tokens.push(
                            #[verifier::truncate]
                            (eos as TokenId),
                        );
                    },
                    None => {
                        return Err(
                            TranslateError::Runtime(
                                String::from_str("source vocabulary has no EOS token"),
                            ),
                        );
                    },
                }
            }
            Ok(tokens)
        },
    }
}

/// The pieces that a text is split into, or why it cannot be.
pub open spec fn split_outcome(model: Seq<u8>, text: Seq<char>) -> Result<Seq<usize>, Seq<char>> {
    if cannot_normalize(model, text) {
        Err("normalization rules tear a character apart"@)
    } else if normal_form(model, text) matches Ok(normal) && cannot_merge(model, normal) {
        Err("unused pieces cannot be merged"@)
    } else {
        pieces_of(model, text)
    }
}

/// The text that pieces make up, or why they make up none.
pub open spec fn join_outcome(model: Seq<u8>, pieces: Seq<usize>) -> Result<Seq<char>, Seq<char>> {
    if table_of(model, DENORMALIZER) is Some && (text_of(without_denormalizer(model), pieces)
        matches Ok(text) && cannot_denormalize(model, text)) {
        Err("denormalization rules tear a character apart"@)
    } else {
        text_of(model, pieces)
    }
}

/// What is wrong with a serialized model, if anything.
pub open spec fn vocabulary_fault(model: Seq<u8>) -> Option<LoadFault> {
    if rules_break_off(model, NORMALIZER) || rules_break_off(model, DENORMALIZER) {
        Some(LoadFault::InvalidVocabulary("normalization rules break off"@))
    } else {
        match load_failure(model) {
            Some(text) => Some(LoadFault::InvalidVocabulary(text)),
            None => size_fault(piece_count(model)),
        }
    }
}

/// Copies the table of the rules under the given field number of a vocabulary.
fn copy_table(model: &[u8], number: u32) -> (table: Option<Vec<u8>>)
    ensures
        match table {
            Some(table) => table_of(model@, number) == Some(table@),
            None => table_of(model@, number) is None,
        },
{
    match find_table(model, number) {
        None => None,
        Some(table) => Some(vstd::slice::slice_to_vec(table)),
    }
}

/// Loads a processor without the denormalization rules of a vocabulary, where it
/// has any.
fn load_joiner(bytes: Vec<u8>) -> (joiner: Option<Joiner>)
    requires
        !rules_break_off(bytes@, NORMALIZER),
        load_failure(without_denormalizer(bytes@)) is None,
    ensures
        match joiner {
            Some(joiner) => {
                &&& table_of(bytes@, DENORMALIZER) == Some(joiner.rules@)
                &&& held_model(joiner.processor) == without_denormalizer(bytes@)
            },
            None => table_of(bytes@, DENORMALIZER) is None,
        },
{
    let rules: Vec<u8> = copy_table(bytes.as_slice(), DENORMALIZER)?;
    proof {
        denormalizers_are_replaced(bytes@);
    }
    let mut plain: Vec<u8> = bytes;
    plain.push(0x2a);
    plain.push(0x00);
    assert(plain@ == without_denormalizer(bytes@));
    match load_processor(plain.as_slice()) {
        Ok(processor) => Some(Joiner { processor, rules }),
        Err(_) => None,
    }
}

impl Vocabulary {
    /// Every piece has a token ID of its own, and what decides whether a text
    /// can be handled is that of the serialized model.
    #[verifier::type_invariant]
    pub closed spec fn valid(&self) -> bool {
        &&& piece_count(self@) <= MAX_PIECES
        &&& match self.rules {
            Some(rules) => table_of(self@, NORMALIZER) == Some(rules@),
            None => table_of(self@, NORMALIZER) is None,
        }
        &&& parts_of(self.symbols@) == pieces_of_kind(self@, USER_DEFINED)
        &&& match self.unused {
            Some(unused) => merges_pairs(self@) && parts_of(unused@) == pieces_of_kind(
                self@,
                UNUSED,
            ),
            None => !merges_pairs(self@),
        }
        &&& match self.joiner {
            Some(joiner) => {
                &&& table_of(self@, DENORMALIZER) == Some(joiner.rules@)
                &&& held_model(joiner.processor) == without_denormalizer(self@)
            },
            None => table_of(self@, DENORMALIZER) is None,
        }
    }

    /// Loads a serialized SentencePiece model.
    pub fn load(bytes: Vec<u8>) -> (loaded: Result<Vocabulary, LoadError>)
        ensures
            match loaded {
                Ok(vocabulary) => {
                    &&& vocabulary_fault(bytes@) is None
                    &&& vocabulary@ == bytes@
                },
                Err(error) => vocabulary_fault(bytes@) == Some(error@),
            },
    {
        if check_rules(bytes.as_slice(), NORMALIZER) || check_rules(
            bytes.as_slice(),
            DENORMALIZER,
        ) {
            return Err(
                LoadError::InvalidVocabulary(String::from_str("normalization rules break off")),
            );
        }
        match load_processor(bytes.as_slice()) {
            Err(text) => Err(LoadError::InvalidVocabulary(text)),
            Ok(processor) => {
                check_size(count_pieces(&processor))?;
                let rules: Option<Vec<u8>> = copy_table(bytes.as_slice(), NORMALIZER);
                let symbols: Vec<Vec<u8>> = find_pieces(bytes.as_slice(), USER_DEFINED);
                let unused: Option<Vec<Vec<u8>>> = if check_merging(bytes.as_slice()) {
                    Some(find_pieces(bytes.as_slice(), UNUSED))
                } else {
                    None
                };
                let joiner: Option<Joiner> = load_joiner(bytes);
                Ok(Vocabulary { processor, rules, symbols, unused, joiner })
            },
        }
    }

    /// Number of tokens.
    pub fn len(&self) -> (count: usize)
        ensures
            count == piece_count(self@),
            count <= MAX_PIECES,
    {
        proof {
            use_type_invariant(self);
        }
        count_pieces(&self.processor)
    }

    /// The end-of-sentence token.
    pub fn eos_id(&self) -> (id: Option<TokenId>)
        ensures
            match id {
                Some(id) => eos_piece(self@) == Some(id as usize) && id < piece_count(self@),
                None => eos_piece(self@) is None,
            },
    {
        proof {
            use_type_invariant(self);
        }
        match find_eos(&self.processor) {
            Some(id) => Some(id as TokenId),
            None => None,
        }
    }

    /// The unknown token.
    pub fn unk_id(&self) -> (id: TokenId)
        ensures
            id as usize == unk_piece(self@),
            id < piece_count(self@),
    {
        proof {
            use_type_invariant(self);
        }
        find_unk(&self.processor) as TokenId
    }

    /// Splits a text into pieces, where it can be.
    fn split_text(&self, input: &str) -> (pieces: Result<Vec<usize>, String>)
        ensures
            outcome_of(pieces) == split_outcome(self@, input@),
            pieces matches Ok(pieces) ==> forall|k: int|
                0 <= k < pieces@.len() ==> #[trigger] pieces@[k] < piece_count(self@),
    {
        proof {
            use_type_invariant(self);
        }
        if let Some(rules) = &self.rules {
            if check_text(rules.as_slice(), &self.symbols, input.as_bytes()) {
                return Err(String::from_str("normalization rules tear a character apart"));
            }
        }
        if let Some(unused) = &self.unused {
            if unused.len() == 0 {
                return split(&self.processor, input);
            }
            if let Ok(normal) = normalize(&self.processor, input) {
                if check_tangles(unused, normal.as_str().as_bytes()) {
                    return Err(String::from_str("unused pieces cannot be merged"));
                }
            }
        }
        split(&self.processor, input)
    }

    /// Encodes a text, with the end-of-sentence token behind it where it is
    /// asked for.
    pub fn encode(&self, input: &str, add_eos: bool) -> (tokens: Result<
        Vec<TokenId>,
        TranslateError,
    >)
        ensures
            match tokens {
                Ok(tokens) => {
                    &&& tokens_of(split_outcome(self@, input@), eos_piece(self@), add_eos) == Ok::<
                        Seq<TokenId>,
                        TranslateFault,
                    >(tokens@)
                    &&& forall|k: int|
                        0 <= k < tokens@.len() ==> #[trigger] tokens@[k] < piece_count(self@)
                },
                Err(error) => tokens_of(split_outcome(self@, input@), eos_piece(self@), add_eos)
                    == Err::<Seq<TokenId>, TranslateFault>(error@),
            },
    {
        proof {
            use_type_invariant(self);
        }
        finish_encoding(self.split_text(input), find_eos(&self.processor), add_eos)
    }

    /// Decodes token IDs.
    pub fn decode(&self, ids: &[TokenId]) -> (text: Result<String, TranslateError>)
        ensures
            match text {
                Ok(text) => join_outcome(self@, as_pieces(ids@)) == Ok::<Seq<char>, Seq<char>>(
                    text@,
                ),
                Err(error) => join_outcome(self@, as_pieces(ids@)) matches Err(text) && error@
                    == TranslateFault::Runtime(text),
            },
    {
        proof {
            use_type_invariant(self);
        }
        let pieces: Vec<usize> = to_pieces(ids);
        if let Some(joiner) = &self.joiner {
            proof {
                denormalizers_are_replaced(self@);
            }
            if let Ok(plain) = join(&joiner.processor, pieces.as_slice()) {
                let symbols: Vec<Vec<u8>> = Vec::new();
                assert(parts_of(symbols@) == Seq::<Seq<u8>>::empty());
                if check_text(joiner.rules.as_slice(), &symbols, plain.as_str().as_bytes()) {
                    return Err(
                        TranslateError::Runtime(
                            String::from_str("denormalization rules tear a character apart"),
                        ),
                    );
                }
            }
        }
        match join(&self.processor, pieces.as_slice()) {
            Ok(text) => Ok(text),
            Err(text) => Err(TranslateError::Runtime(text)),
        }
    }
}

/// A text is encoded exactly where it can be split and, where the
/// end-of-sentence token is asked for, the vocabulary has one. Token `k` is
/// piece `k`, and the end-of-sentence token comes behind all pieces.
pub proof fn encodings_follow_pieces(
    pieces: Result<Seq<usize>, Seq<char>>,
    eos: Option<usize>,
    add_eos: bool,
    tokens: Seq<TokenId>,
)
    requires
        pieces matches Ok(list) ==> forall|k: int|
            0 <= k < list.len() ==> #[trigger] list[k] <= 0xffff_ffff,
        eos matches Some(id) ==> id <= 0xffff_ffff,
    ensures
        tokens_of(pieces, eos, add_eos) == Ok::<Seq<TokenId>, TranslateFault>(tokens) <==> {
            &&& pieces matches Ok(list) && tokens.len() == list.len() + if add_eos {
                1int
            } else {
                0
            } && (forall|k: int| 0 <= k < list.len() ==> #[trigger] tokens[k] == list[k]) && (
            add_eos ==> eos is Some && tokens[list.len() as int] == eos->0)
        },
        tokens_of(pieces, eos, add_eos) is Ok <==> pieces is Ok && (add_eos ==> eos is Some),
{
    if let Ok(list) = pieces {
        if tokens.len() == list.len() + (if add_eos {
            1int
        } else {
            0
        }) && (forall|k: int| 0 <= k < list.len() ==> #[trigger] tokens[k] == list[k]) && (
        add_eos ==> eos is Some && tokens[list.len() as int] == eos->0) {
            if add_eos {
                assert(tokens =~= as_tokens(list).push(eos->0 as TokenId));
            } else {
                assert(tokens =~= as_tokens(list));
            }
        }
    }
}

/// Decoding hands over every token as the piece with the same number, in
/// order.
pub proof fn pieces_are_tokens(tokens: Seq<TokenId>)
    ensures
        as_pieces(tokens).len() == tokens.len(),
        forall|k: int| 0 <= k < tokens.len() ==> #[trigger] as_pieces(tokens)[k] == tokens[k],
{
}

/// What a text is split into, where it is, is what the model splits it into,
/// and what pieces make up is what they make up with the model. Without
/// normalization rules and merged pairs every text is left to the model.
pub proof fn models_decide_texts(model: Seq<u8>, text: Seq<char>, pieces: Seq<usize>)
    ensures
        split_outcome(model, text) is Ok ==> split_outcome(model, text) == pieces_of(model, text),
        join_outcome(model, pieces) is Ok ==> join_outcome(model, pieces) == text_of(
            model,
            pieces,
        ),
        table_of(model, NORMALIZER) is None && !merges_pairs(model) ==> split_outcome(model, text)
            == pieces_of(model, text),
        table_of(model, DENORMALIZER) is None ==> join_outcome(model, pieces) == text_of(
            model,
            pieces,
        ),
{
}

/// A vocabulary loads exactly where its rules are whole, the model can be read
/// and token IDs of 32 bits tell its pieces apart.
pub proof fn vocabularies_load(model: Seq<u8>)
    ensures
        vocabulary_fault(model) is None <==> {
            &&& !rules_break_off(model, NORMALIZER)
            &&& !rules_break_off(model, DENORMALIZER)
            &&& load_failure(model) is None
            &&& piece_count(model) <= 0xffff_ffff
        },
        vocabulary_fault(model) matches Some(fault) ==> fault is InvalidVocabulary,
{
}

/// An outcome is the list or the text of the error that it holds.
pub proof fn outcomes_are_in_place<T>(list: Vec<T>, text: String)
    ensures
        outcome_of(Ok::<Vec<T>, String>(list)) == Ok::<Seq<T>, Seq<char>>(list@),
        outcome_of(Err::<Vec<T>, String>(text)) == Err::<Seq<T>, Seq<char>>(text@),
{
}

} // verus!
