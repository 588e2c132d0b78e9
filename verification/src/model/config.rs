//! The configuration that a Marian model carries as YAML text.

use crate::error::{LoadError, LoadFault};
use crate::message::{decimal_text, decimal_usize};
use vstd::prelude::*;
use vstd::string::*;

verus! {

/// The `special:model.yml` entries that matter for inference.
#[derive(Debug)]
pub struct ModelConfig {
    /// Model family (`type`).
    pub model_type: String,
    /// Width of the embeddings and hidden states.
    pub dim_emb: usize,
    /// Vocabulary sizes, source first.
    pub dim_vocabs: Vec<usize>,
    /// Number of encoder layers.
    pub enc_depth: usize,
    /// Number of decoder layers.
    pub dec_depth: usize,
    /// Number of attention heads.
    pub transformer_heads: usize,
    /// Inner width of the feed-forward blocks.
    pub transformer_dim_ffn: usize,
    /// Number of linear layers in a feed-forward block.
    pub transformer_ffn_depth: usize,
    /// Activation of the feed-forward blocks.
    pub transformer_ffn_activation: String,
    /// How the decoder attends to its own output.
    pub transformer_decoder_autoreg: String,
    /// Recurrent cell of the decoder.
    pub dec_cell: String,
    /// Target embeddings double as the output projection.
    pub tied_embeddings: bool,
    /// All embeddings are one matrix.
    pub tied_embeddings_all: bool,
    /// Layer normalization outside of the transformer blocks.
    pub layer_normalization: bool,
    /// Operations behind each transformer block.
    pub transformer_postprocess: String,
    /// Operations in front of each transformer block.
    pub transformer_preprocess: String,
    /// Operations behind the last transformer block.
    pub transformer_postprocess_top: String,
    /// Version of the toolkit that wrote the model.
    pub version: String,
}

/// The numbers behind a position of a list, each with a separator in front.
pub open spec fn list_tail(numbers: Seq<usize>) -> Seq<char>
    decreases numbers.len(),
{
    if numbers.len() == 0 {
        Seq::empty()
    } else {
        list_tail(numbers.drop_last()) + ", "@ + decimal_text(numbers.last() as nat)
    }
}

/// A list of numbers in brackets.
pub open spec fn list_text(numbers: Seq<usize>) -> Seq<char> {
    if numbers.len() == 0 {
        "[]"@
    } else {
        "["@ + decimal_text(numbers[0] as nat) + list_tail(numbers.skip(1)) + "]"@
    }
}

/// Writes a list of numbers in brackets.
pub fn bracketed(numbers: &[usize]) -> (text: String)
    ensures
        text@ == list_text(numbers@),
{
    if numbers.len() == 0 {
        return String::from_str("[]");
    }
    let ghost rest = numbers@.skip(1);
    let mut tail: String = String::new();
    let mut index: usize = 1;
    proof {
        assert(rest.take(0) == Seq::<usize>::empty());
        assert(tail@ == Seq::<char>::empty());
    }
    while index < numbers.len()
        invariant
            1 <= index <= numbers@.len(),
            rest == numbers@.skip(1),
            tail@ == list_tail(rest.take(index - 1)),
        decreases numbers@.len() - index,
    {
        proof {
            assert(rest.take(index as int).drop_last() == rest.take(index - 1));
        }
        tail = tail.concat(", ").concat(decimal_usize(numbers[index]).as_str());
        index = index + 1;
    }
    proof {
        assert(rest.take(index - 1) == rest);
    }
    String::from_str("[").concat(decimal_usize(numbers[0]).as_str()).concat(tail.as_str()).concat(
        "]",
    )
}

impl ModelConfig {
    /// The dimensions describe a transformer that can be built.
    pub open spec fn well_formed(&self) -> bool {
        &&& self.dim_emb >= 4
        &&& self.dim_emb % 2 == 0
        &&& self.dim_vocabs@.len() == 2
        &&& self.dim_vocabs@[0] > 0
        &&& self.dim_vocabs@[1] > 0
        &&& self.enc_depth > 0
        &&& self.dec_depth > 0
        &&& self.transformer_heads > 0
        &&& self.dim_emb % self.transformer_heads == 0
        &&& self.transformer_dim_ffn > 0
        &&& self.transformer_ffn_depth > 0
    }

    /// The dimensions as an error message lists them.
    pub open spec fn dimension_text(&self) -> Seq<char> {
        "invalid model dimensions: dim="@ + decimal_text(self.dim_emb as nat) + ", vocabs="@
            + list_text(self.dim_vocabs@) + ", enc-depth="@ + decimal_text(self.enc_depth as nat)
            + ", dec-depth="@ + decimal_text(self.dec_depth as nat) + ", heads="@ + decimal_text(
            self.transformer_heads as nat,
        ) + ", ffn-dim="@ + decimal_text(self.transformer_dim_ffn as nat) + ", ffn-depth="@
            + decimal_text(self.transformer_ffn_depth as nat)
    }

    /// What is wrong with the dimensions, if anything.
    pub open spec fn dimension_fault(&self) -> LoadFault {
        LoadFault::InvalidModel(self.dimension_text())
    }

    /// Checks that the dimensions describe a transformer that can be built.
    pub fn validate_well_formed(&self) -> (checked: Result<(), LoadError>)
        ensures
            match checked {
                Ok(_) => self.well_formed(),
                Err(error) => !self.well_formed() && error@ == self.dimension_fault(),
            },
    {
        let valid = self.dim_emb >= 4 && self.dim_emb % 2 == 0 && self.dim_vocabs.len() == 2
            && self.dim_vocabs[0] > 0 && self.dim_vocabs[1] > 0 && self.enc_depth > 0
            && self.dec_depth > 0 && self.transformer_heads > 0 && self.dim_emb
            % self.transformer_heads == 0 && self.transformer_dim_ffn > 0
            && self.transformer_ffn_depth > 0;
        if valid {
            return Ok(());
        }
        let text: String = String::from_str("invalid model dimensions: dim=").concat(
            decimal_usize(self.dim_emb).as_str(),
        ).concat(", vocabs=").concat(bracketed(self.dim_vocabs.as_slice()).as_str()).concat(
            ", enc-depth=",
        ).concat(decimal_usize(self.enc_depth).as_str()).concat(", dec-depth=").concat(
            decimal_usize(self.dec_depth).as_str(),
        ).concat(", heads=").concat(decimal_usize(self.transformer_heads).as_str()).concat(
            ", ffn-dim=",
        ).concat(decimal_usize(self.transformer_dim_ffn).as_str()).concat(", ffn-depth=").concat(
            decimal_usize(self.transformer_ffn_depth).as_str(),
        );
        Err(LoadError::InvalidModel(text))
    }
}

/// The dimensions can be used exactly where a hidden state has at least two
/// pairs of numbers, is made up of equally wide heads, there are two
/// vocabularies with tokens, and no layer count or inner width is zero.
pub proof fn usable_dimensions_divide(config: ModelConfig)
    ensures
        config.well_formed() <==> {
            &&& exists|half: int| half >= 2 && #[trigger] (2 * half) == config.dim_emb
            &&& config.transformer_heads > 0
            &&& exists|width: int| #[trigger] (config.transformer_heads * width) == config.dim_emb
            &&& config.dim_vocabs@.len() == 2
            &&& forall|side: int| 0 <= side < 2 ==> #[trigger] config.dim_vocabs@[side] > 0
            &&& config.enc_depth > 0
            &&& config.dec_depth > 0
            &&& config.transformer_dim_ffn > 0
            &&& config.transformer_ffn_depth > 0
        },
{
    let dim = config.dim_emb as int;
    let heads = config.transformer_heads as int;
    assert(2 * (dim / 2) == dim <==> dim % 2 == 0);
    if heads > 0 {
        vstd::arithmetic::div_mod::lemma_fundamental_div_mod(dim, heads);
        if dim % heads == 0 {
            assert(heads * (dim / heads) == dim);
        }
        if exists|width: int| #[trigger] (config.transformer_heads * width) == config.dim_emb {
            let width = choose|width: int| #[trigger]
                (config.transformer_heads * width) == config.dim_emb;
            assert(width * heads == heads * width) by (nonlinear_arith);
            vstd::arithmetic::div_mod::lemma_fundamental_div_mod_converse(dim, heads, width, 0);
        }
    }
    if config.well_formed() {
        assert(2 * (dim / 2) == config.dim_emb);
    }
}

} // verus!
