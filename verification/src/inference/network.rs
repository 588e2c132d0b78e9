//! The layers of the network.

use crate::error::{TranslateError, TranslateFault};
use crate::inference::backend::{Linear, LinearContents};
use crate::inference::embedding::{
    Embedding, EmbeddingContents, OutputProjection, PreparedOutput, ProjectionContents,
};
use crate::inference::network::state::{rows_exist, selected_rows, DecoderState};
use crate::text::TokenId;
use vstd::prelude::*;

pub mod attention;
pub mod compile;
pub mod layers;
pub mod state;

verus! {

/// Dimensions of a network.
#[derive(Debug, Clone, Copy)]
pub struct NetworkSpec {
    /// Width of embeddings and hidden states.
    pub dim: usize,
    /// Number of attention heads.
    pub heads: usize,
    /// Number of encoder layers.
    pub encoder_layers: usize,
    /// Number of decoder layers.
    pub decoder_layers: usize,
    /// Inner width of the feed-forward blocks.
    pub ffn_dim: usize,
    /// Number of transforms in a feed-forward block.
    pub ffn_depth: usize,
    /// Number of source tokens.
    pub source_vocab: usize,
    /// Number of target tokens.
    pub target_vocab: usize,
}

/// Normalization over the width of a hidden state, with patterns of the scale
/// and the bias of every position.
pub struct LayerNorm {
    /// Width.
    pub dim: usize,
    /// Patterns of the scales.
    pub scale: Vec<u32>,
    /// Patterns of the biases.
    pub bias: Vec<u32>,
}

/// The numbers of a normalization.
#[verifier::ext_equal]
pub struct NormContents {
    /// Width.
    pub dim: usize,
    /// Patterns of the scales.
    pub scale: Seq<u32>,
    /// Patterns of the biases.
    pub bias: Seq<u32>,
}

impl View for LayerNorm {
    type V = NormContents;

    open spec fn view(&self) -> NormContents {
        NormContents { dim: self.dim, scale: self.scale@, bias: self.bias@ }
    }
}

/// A stack of affine transforms with rectification between them.
pub struct FeedForward {
    /// The transforms.
    pub layers: Vec<Linear>,
    /// The normalization behind them.
    pub norm: LayerNorm,
}

/// The numbers of transforms.
pub open spec fn linears(layers: Seq<Linear>) -> Seq<LinearContents> {
    layers.map_values(|linear: Linear| linear@)
}

/// The numbers of a feed-forward block.
#[verifier::ext_equal]
pub struct FeedForwardContents {
    /// The transforms.
    pub layers: Seq<LinearContents>,
    /// The normalization behind them.
    pub norm: NormContents,
}

impl View for FeedForward {
    type V = FeedForwardContents;

    open spec fn view(&self) -> FeedForwardContents {
        FeedForwardContents { layers: linears(self.layers@), norm: self.norm@ }
    }
}

/// A simplified recurrent unit.
pub struct Ssru {
    /// Width.
    pub dim: usize,
    /// Transform to the candidate state.
    pub candidate: Linear,
    /// Transform to the forget gate.
    pub forget: Linear,
    /// The normalization behind them.
    pub norm: LayerNorm,
}

/// The numbers of a recurrent unit.
#[verifier::ext_equal]
pub struct SsruContents {
    /// Width.
    pub dim: usize,
    /// Transform to the candidate state.
    pub candidate: LinearContents,
    /// Transform to the forget gate.
    pub forget: LinearContents,
    /// The normalization behind them.
    pub norm: NormContents,
}

impl View for Ssru {
    type V = SsruContents;

    open spec fn view(&self) -> SsruContents {
        SsruContents {
            dim: self.dim,
            candidate: self.candidate@,
            forget: self.forget@,
            norm: self.norm@,
        }
    }
}

/// Multi-head attention.
pub struct Attention {
    /// Width.
    pub dim: usize,
    /// Number of heads.
    pub heads: usize,
    /// Width of a head.
    pub head_dim: usize,
    /// Transform to the queries.
    pub query: Linear,
    /// Transform to the keys.
    pub key: Linear,
    /// Transform to the values.
    pub value: Linear,
    /// Transform of the joined heads.
    pub output: Linear,
    /// The normalization behind it.
    pub norm: LayerNorm,
}

/// The numbers of an attention block.
#[verifier::ext_equal]
pub struct AttentionContents {
    /// Width.
    pub dim: usize,
    /// Number of heads.
    pub heads: usize,
    /// Width of a head.
    pub head_dim: usize,
    /// Transform to the queries.
    pub query: LinearContents,
    /// Transform to the keys.
    pub key: LinearContents,
    /// Transform to the values.
    pub value: LinearContents,
    /// Transform of the joined heads.
    pub output: LinearContents,
    /// The normalization behind it.
    pub norm: NormContents,
}

impl View for Attention {
    type V = AttentionContents;

    open spec fn view(&self) -> AttentionContents {
        AttentionContents {
            dim: self.dim,
            heads: self.heads,
            head_dim: self.head_dim,
            query: self.query@,
            key: self.key@,
            value: self.value@,
            output: self.output@,
            norm: self.norm@,
        }
    }
}

/// An encoder layer.
pub struct EncoderLayer {
    /// Attention to the source.
    pub attention: Attention,
    /// Feed-forward block.
    pub ffn: FeedForward,
}

/// The numbers of an encoder layer.
#[verifier::ext_equal]
pub struct EncoderContents {
    /// Attention to the source.
    pub attention: AttentionContents,
    /// Feed-forward block.
    pub ffn: FeedForwardContents,
}

impl View for EncoderLayer {
    type V = EncoderContents;

    open spec fn view(&self) -> EncoderContents {
        EncoderContents { attention: self.attention@, ffn: self.ffn@ }
    }
}

/// A decoder layer.
pub struct DecoderLayer {
    /// Recurrent unit.
    pub ssru: Ssru,
    /// Attention to the encoded source.
    pub attention: Attention,
    /// Feed-forward block.
    pub ffn: FeedForward,
}

/// The numbers of a decoder layer.
#[verifier::ext_equal]
pub struct DecoderContents {
    /// Recurrent unit.
    pub ssru: SsruContents,
    /// Attention to the encoded source.
    pub attention: AttentionContents,
    /// Feed-forward block.
    pub ffn: FeedForwardContents,
}

impl View for DecoderLayer {
    type V = DecoderContents;

    open spec fn view(&self) -> DecoderContents {
        DecoderContents { ssru: self.ssru@, attention: self.attention@, ffn: self.ffn@ }
    }
}

/// A compiled network.
pub struct Network {
    /// Dimensions.
    pub spec: NetworkSpec,
    /// Embedding of the source tokens.
    pub source_embedding: Embedding,
    /// Embedding of the target tokens.
    pub target_embedding: Embedding,
    /// Projection onto the target tokens.
    pub output: OutputProjection,
    /// Encoder layers.
    pub encoder: Vec<EncoderLayer>,
    /// Decoder layers.
    pub decoder: Vec<DecoderLayer>,
}

/// The numbers of a network.
#[verifier::ext_equal]
pub struct NetworkContents {
    /// Dimensions.
    pub spec: NetworkSpec,
    /// Embedding of the source tokens.
    pub source_embedding: EmbeddingContents,
    /// Embedding of the target tokens.
    pub target_embedding: EmbeddingContents,
    /// Projection onto the target tokens.
    pub output: ProjectionContents,
    /// Encoder layers.
    pub encoder: Seq<EncoderContents>,
    /// Decoder layers.
    pub decoder: Seq<DecoderContents>,
}

/// The numbers of encoder layers.
pub open spec fn encoder_contents(layers: Seq<EncoderLayer>) -> Seq<EncoderContents> {
    layers.map_values(|layer: EncoderLayer| layer@)
}

/// The numbers of decoder layers.
pub open spec fn decoder_contents(layers: Seq<DecoderLayer>) -> Seq<DecoderContents> {
    layers.map_values(|layer: DecoderLayer| layer@)
}

impl View for Network {
    type V = NetworkContents;

    open spec fn view(&self) -> NetworkContents {
        NetworkContents {
            spec: self.spec,
            source_embedding: self.source_embedding@,
            target_embedding: self.target_embedding@,
            output: self.output@,
            encoder: encoder_contents(self.encoder@),
            decoder: decoder_contents(self.decoder@),
        }
    }
}

/// The transform has the given dimensions.
pub open spec fn has_shape(linear: LinearContents, input_dim: usize, output_dim: usize) -> bool {
    linear.input_dim == input_dim && linear.output_dim == output_dim
}

impl LayerNorm {
    /// Every position has a scale and a bias.
    pub open spec fn valid(&self) -> bool {
        self.scale@.len() == self.dim && self.bias@.len() == self.dim
    }
}

impl FeedForward {
    /// The transforms can be applied one after the other, from and to hidden
    /// states.
    pub open spec fn valid(&self, spec: NetworkSpec) -> bool {
        &&& self.layers@.len() == spec.ffn_depth
        &&& self.norm.valid()
        &&& self.norm.dim == spec.dim
        &&& forall|k: int|
            0 <= k < self.layers@.len() ==> (#[trigger] self.layers@[k]).valid() && has_shape(
                self.layers@[k]@,
                compile::ffn_input(spec, k + 1),
                compile::ffn_output(spec, k + 1),
            )
    }
}

impl Ssru {
    /// The transforms can be applied to hidden states.
    pub open spec fn valid(&self, dim: usize) -> bool {
        &&& self.dim == dim
        &&& self.candidate.valid() && has_shape(self.candidate@, dim, dim)
        &&& self.forget.valid() && has_shape(self.forget@, dim, dim)
        &&& self.norm.valid() && self.norm.dim == dim
    }
}

impl Attention {
    /// The transforms can be applied to hidden states, and the heads make up a
    /// hidden state.
    pub open spec fn valid(&self, spec: NetworkSpec) -> bool {
        &&& self.dim == spec.dim
        &&& self.heads == spec.heads
        &&& self.heads > 0
        &&& self.heads * self.head_dim == self.dim
        &&& self.query.valid() && has_shape(self.query@, self.dim, self.dim)
        &&& self.key.valid() && has_shape(self.key@, self.dim, self.dim)
        &&& self.value.valid() && has_shape(self.value@, self.dim, self.dim)
        &&& self.output.valid() && has_shape(self.output@, self.dim, self.dim)
        &&& self.norm.valid() && self.norm.dim == self.dim
    }
}

impl Network {
    /// All parts fit together.
    pub open spec fn valid(&self) -> bool {
        &&& self.source_embedding.valid()
        &&& self.source_embedding.rows == self.spec.source_vocab
        &&& self.source_embedding.cols == self.spec.dim
        &&& self.target_embedding.valid()
        &&& self.target_embedding.rows == self.spec.target_vocab
        &&& self.target_embedding.cols == self.spec.dim
        &&& self.output.valid()
        &&& self.output@.embedding == self.target_embedding@
        &&& self.encoder@.len() == self.spec.encoder_layers
        &&& self.decoder@.len() == self.spec.decoder_layers
        &&& forall|k: int|
            0 <= k < self.encoder@.len() ==> (#[trigger] self.encoder@[k]).attention.valid(self.spec)
                && self.encoder@[k].ffn.valid(self.spec)
        &&& forall|k: int|
            0 <= k < self.decoder@.len() ==> (#[trigger] self.decoder@[k]).ssru.valid(self.spec.dim)
                && self.decoder@[k].attention.valid(self.spec) && self.decoder@[k].ffn.valid(
                self.spec,
            )
    }
}

impl Network {
    /// The decoder state before the first step: `zero` everywhere.
    pub fn new_decoder_state<T: Copy>(&self, rows: usize, zero: T) -> (state: DecoderState<T>)
        requires
            rows * self.spec.dim <= usize::MAX,
        ensures
            state@ == Seq::new(
                self.spec.decoder_layers as nat,
                |layer: int| Seq::new((rows * self.spec.dim) as nat, |i: int| zero),
            ),
    {
        DecoderState::new(self.spec.decoder_layers, rows, self.spec.dim, zero)
    }

    /// Keeps the given rows of a decoder state, in the given order.
    pub fn select_decoder_state<T: Copy>(&self, state: DecoderState<T>, rows: &[usize]) -> (selected:
        DecoderState<T>)
        requires
            forall|l: int|
                0 <= l < state@.len() ==> rows_exist(
                    #[trigger] state@[l],
                    rows@,
                    self.spec.dim as int,
                ),
        ensures
            selected@ == state@.map_values(
                |layer: Seq<T>| selected_rows(layer, rows@, self.spec.dim as int),
            ),
    {
        state.select(rows, self.spec.dim)
    }

    /// Projects onto the tokens of a shortlist.
    pub fn prepare_output(&self, shortlist: &[TokenId]) -> (prepared: Result<
        PreparedOutput,
        TranslateError,
    >)
        requires
            self.valid(),
            self@.output.can_prepare(shortlist@),
        ensures
            match prepared {
                Ok(prepared) => prepared.linear.valid() && self@.output.prepared(shortlist@)
                    == Ok::<LinearContents, TranslateFault>(prepared.linear@),
                Err(error) => self@.output.prepared(shortlist@) == Err::<
                    LinearContents,
                    TranslateFault,
                >(error@),
            },
    {
        self.output.prepare(shortlist)
    }
}

/// The contents of a block are the contents of its parts, each in its place.
pub proof fn contents_are_those_of_parts(
    attention: Attention,
    ssru: Ssru,
    ffn: FeedForward,
    norm: LayerNorm,
)
    ensures
        attention@.dim == attention.dim,
        attention@.heads == attention.heads,
        attention@.head_dim == attention.head_dim,
        attention@.query == attention.query@,
        attention@.key == attention.key@,
        attention@.value == attention.value@,
        attention@.output == attention.output@,
        attention@.norm == attention.norm@,
        ssru@.dim == ssru.dim,
        ssru@.candidate == ssru.candidate@,
        ssru@.forget == ssru.forget@,
        ssru@.norm == ssru.norm@,
        ffn@.layers.len() == ffn.layers@.len(),
        forall|k: int|
            0 <= k < ffn.layers@.len() ==> #[trigger] ffn@.layers[k] == ffn.layers@[k]@,
        ffn@.norm == ffn.norm@,
        norm@.dim == norm.dim,
        norm@.scale == norm.scale@,
        norm@.bias == norm.bias@,
{
}

/// The contents of a network are the contents of its parts, each in its place.
pub proof fn network_contents_are_those_of_parts(network: Network)
    ensures
        network@.spec == network.spec,
        network@.source_embedding == network.source_embedding@,
        network@.target_embedding == network.target_embedding@,
        network@.output == network.output@,
        network@.encoder.len() == network.encoder@.len(),
        forall|k: int|
            0 <= k < network.encoder@.len() ==> (#[trigger] network@.encoder[k]).attention
                == network.encoder@[k].attention@ && network@.encoder[k].ffn
                == network.encoder@[k].ffn@,
        network@.decoder.len() == network.decoder@.len(),
        forall|k: int|
            0 <= k < network.decoder@.len() ==> (#[trigger] network@.decoder[k]).ssru
                == network.decoder@[k].ssru@ && network@.decoder[k].attention
                == network.decoder@[k].attention@ && network@.decoder[k].ffn
                == network.decoder@[k].ffn@,
        network.source_embedding@.rows == network.source_embedding.rows,
        network.source_embedding@.cols == network.source_embedding.cols,
        network.source_embedding@.values == network.source_embedding.values@,
        network.source_embedding@.multiplier == network.source_embedding.multiplier,
        network.output@.bias == network.output.bias@,
        network.output@.activation_multiplier == network.output.activation_multiplier,
{
}

} // verus!
