//! Compiling a network from an archive.

use crate::error::{LoadError, LoadFault};
use crate::inference::backend::{packable, tensor_linear, Linear, LinearContents, Scalar};
use crate::inference::embedding::{
    shared_projection, tensor_embedding, Embedding, EmbeddingContents, OutputProjection,
};
use crate::inference::network::{
    decoder_contents, encoder_contents, has_shape, linears, Attention, AttentionContents,
    DecoderContents, DecoderLayer, EncoderContents, EncoderLayer, FeedForward,
    FeedForwardContents, LayerNorm, Network, NetworkContents, NetworkSpec, NormContents, Ssru,
    SsruContents,
};
use crate::message::{decimal_text, decimal_usize, digits_write_numbers};
use crate::model::binary::{
    elements_of, sound, DataContents, ModelArchive, Tensor, TensorContents, TensorData,
};
use crate::model::config::ModelConfig;
use vstd::prelude::*;
use vstd::string::*;

verus! {

/// A text in quotes, as `Debug` shows it.
pub uninterp spec fn quoted_text(text: Seq<char>) -> Seq<char>;

/// Puts a text in quotes with the `Debug` format of `str`.
///
/// Claimed of it: the outcome depends on the text alone. Which characters are
/// escaped, and how, is named, not described.
#[verifier::external_body]
fn quoted(text: &str) -> (shown: String)
    ensures
        shown@ == quoted_text(text@),
{
    format!("{text:?}")
}

/// Shows a truth value.
fn truth(value: bool) -> (text: &'static str)
    ensures
        text@ == truth_text(value),
{
    if value {
        "true"
    } else {
        "false"
    }
}

/// See [`truth`].
pub open spec fn truth_text(value: bool) -> Seq<char> {
    if value {
        "true"@
    } else {
        "false"@
    }
}

/// Compares a text with a literal.
fn is_text(text: &String, literal: &str) -> (same: bool)
    ensures
        same == (text@ == literal@),
{
    let other: String = String::from_str(literal);
    *text == other
}

/// The layers are of the kinds that are implemented, and some embeddings are
/// tied.
pub open spec fn has_supported_layers(config: ModelConfig) -> bool {
    &&& config.model_type@ == "transformer"@
    &&& config.transformer_ffn_activation@ == "relu"@
    &&& config.transformer_decoder_autoreg@ == "rnn"@
    &&& config.dec_cell@ == "ssru"@
    &&& !config.layer_normalization
    &&& config.tied_embeddings || config.tied_embeddings_all
}

/// The operations around the layers are those that are implemented.
pub open spec fn has_supported_frame(config: ModelConfig) -> bool {
    &&& config.transformer_postprocess@ == "dan"@
    &&& config.transformer_preprocess@.len() == 0
    &&& config.transformer_postprocess_top@.len() == 0
}

/// The network can be built; vocabularies that share all embeddings have the
/// same size.
pub open spec fn is_supported(config: ModelConfig) -> bool {
    &&& has_supported_layers(config)
    &&& !config.tied_embeddings_all || config.dim_vocabs@[0] == config.dim_vocabs@[1]
    &&& has_supported_frame(config)
}

/// The features of a model, as an error message lists them.
pub open spec fn feature_text(config: ModelConfig) -> Seq<char> {
    "version="@ + config.version@ + ", type="@ + config.model_type@ + ", autoreg="@
        + config.transformer_decoder_autoreg@ + ", cell="@ + config.dec_cell@ + ", activation="@
        + config.transformer_ffn_activation@ + ", preprocess="@ + quoted_text(
        config.transformer_preprocess@,
    ) + ", postprocess="@ + quoted_text(config.transformer_postprocess@) + ", postprocess-top="@
        + quoted_text(config.transformer_postprocess_top@) + ", layer-normalization="@
        + truth_text(config.layer_normalization) + ", tied="@ + truth_text(config.tied_embeddings)
        + ", tied-all="@ + truth_text(config.tied_embeddings_all)
}

/// The dimensions of a model.
pub open spec fn dimensions(config: ModelConfig) -> NetworkSpec {
    NetworkSpec {
        dim: config.dim_emb,
        heads: config.transformer_heads,
        encoder_layers: config.enc_depth,
        decoder_layers: config.dec_depth,
        ffn_dim: config.transformer_dim_ffn,
        ffn_depth: config.transformer_ffn_depth,
        source_vocab: config.dim_vocabs@[0],
        target_vocab: config.dim_vocabs@[1],
    }
}

/// Lists the features of a model.
fn features(config: &ModelConfig) -> (text: String)
    ensures
        text@ == feature_text(*config),
{
    String::from_str("version=").concat(config.version.as_str()).concat(", type=").concat(
        config.model_type.as_str(),
    ).concat(", autoreg=").concat(config.transformer_decoder_autoreg.as_str()).concat(
        ", cell=",
    ).concat(config.dec_cell.as_str()).concat(", activation=").concat(
        config.transformer_ffn_activation.as_str(),
    ).concat(", preprocess=").concat(
        quoted(config.transformer_preprocess.as_str()).as_str(),
    ).concat(", postprocess=").concat(
        quoted(config.transformer_postprocess.as_str()).as_str(),
    ).concat(", postprocess-top=").concat(
        quoted(config.transformer_postprocess_top.as_str()).as_str(),
    ).concat(", layer-normalization=").concat(truth(config.layer_normalization)).concat(
        ", tied=",
    ).concat(truth(config.tied_embeddings)).concat(", tied-all=").concat(
        truth(config.tied_embeddings_all),
    )
}

impl NetworkSpec {
    /// The dimensions of a model whose features are supported.
    pub fn from_config(config: &ModelConfig) -> (spec: Result<NetworkSpec, LoadError>)
        requires
            has_supported_layers(*config) && (config.tied_embeddings_all || has_supported_frame(
                *config,
            )) ==> config.dim_vocabs@.len() >= 2,
        ensures
            match spec {
                Ok(spec) => is_supported(*config) && spec == dimensions(*config),
                Err(error) => !is_supported(*config) && error@
                    == LoadFault::UnsupportedArchitecture(feature_text(*config)),
            },
    {
        proof {
            reveal_strlit("");
            if config.transformer_preprocess@.len() == 0 {
                assert(config.transformer_preprocess@ == ""@);
            }
            if config.transformer_postprocess_top@.len() == 0 {
                assert(config.transformer_postprocess_top@ == ""@);
            }
        }
        let supported = is_text(&config.model_type, "transformer") && is_text(
            &config.transformer_ffn_activation,
            "relu",
        ) && is_text(&config.transformer_decoder_autoreg, "rnn") && is_text(
            &config.dec_cell,
            "ssru",
        ) && !config.layer_normalization && (config.tied_embeddings
            || config.tied_embeddings_all) && (!config.tied_embeddings_all || config.dim_vocabs[0]
            == config.dim_vocabs[1]) && is_text(&config.transformer_postprocess, "dan") && is_text(
            &config.transformer_preprocess,
            "",
        ) && is_text(&config.transformer_postprocess_top, "");
        if !supported {
            return Err(LoadError::UnsupportedArchitecture(features(config)));
        }
        Ok(
            NetworkSpec {
                dim: config.dim_emb,
                heads: config.transformer_heads,
                encoder_layers: config.enc_depth,
                decoder_layers: config.dec_depth,
                ffn_dim: config.transformer_dim_ffn,
                ffn_depth: config.transformer_ffn_depth,
                source_vocab: config.dim_vocabs[0],
                target_vocab: config.dim_vocabs[1],
            },
        )
    }
}

/// Number of inputs of a transform of a feed-forward block, counted from one.
pub open spec fn ffn_input(spec: NetworkSpec, depth: int) -> usize {
    if depth == 1 {
        spec.dim
    } else {
        spec.ffn_dim
    }
}

/// Number of outputs of a transform of a feed-forward block, counted from one.
pub open spec fn ffn_output(spec: NetworkSpec, depth: int) -> usize {
    if depth == spec.ffn_depth {
        spec.dim
    } else {
        spec.ffn_dim
    }
}

/// The tensor with a name, and the tensors without it.
pub open spec fn taken(tensors: Map<Seq<char>, TensorContents>, name: Seq<char>) -> Result<
    (TensorContents, Map<Seq<char>, TensorContents>),
    LoadFault,
> {
    if tensors.contains_key(name) {
        Ok((tensors[name], tensors.remove(name)))
    } else {
        Err(LoadFault::InvalidModel("missing required tensor "@ + name))
    }
}

/// Takes a tensor out of an archive.
pub fn take(model: &mut ModelArchive, name: &str) -> (tensor: Result<Tensor, LoadError>)
    requires
        old(model).valid(),
        sound(old(model)@.tensors),
    ensures
        final(model).valid(),
        sound(final(model)@.tensors),
        match tensor {
            Ok(tensor) => tensor@.well_formed() && tensor@.name == name@ && taken(
                old(model)@.tensors,
                name@,
            ) == Ok::<(TensorContents, Map<Seq<char>, TensorContents>), LoadFault>(
                (tensor@, final(model)@.tensors),
            ),
            Err(error) => taken(old(model)@.tensors, name@) == Err::<
                (TensorContents, Map<Seq<char>, TensorContents>),
                LoadFault,
            >(error@),
        },
{
    match model.take_tensor(name) {
        Some(tensor) => Ok(tensor),
        None => Err(
            LoadError::InvalidModel(String::from_str("missing required tensor ").concat(name)),
        ),
    }
}

/// The floating-point numbers of the tensor with a name, and the tensors
/// without it.
pub open spec fn floats_taken(tensors: Map<Seq<char>, TensorContents>, name: Seq<char>) -> Result<
    (Seq<u32>, Map<Seq<char>, TensorContents>),
    LoadFault,
> {
    match taken(tensors, name) {
        Err(fault) => Err(fault),
        Ok((tensor, rest)) => match tensor.data {
            DataContents::F32(values) => Ok((values, rest)),
            _ => Err(LoadFault::InvalidModel("tensor "@ + name + " is not float32"@)),
        },
    }
}

/// Takes the floating-point numbers of a tensor out of an archive.
pub fn take_f32(model: &mut ModelArchive, name: &str) -> (values: Result<Vec<u32>, LoadError>)
    requires
        old(model).valid(),
        sound(old(model)@.tensors),
    ensures
        final(model).valid(),
        sound(final(model)@.tensors),
        match values {
            Ok(values) => floats_taken(old(model)@.tensors, name@) == Ok::<
                (Seq<u32>, Map<Seq<char>, TensorContents>),
                LoadFault,
            >((values@, final(model)@.tensors)),
            Err(error) => floats_taken(old(model)@.tensors, name@) == Err::<
                (Seq<u32>, Map<Seq<char>, TensorContents>),
                LoadFault,
            >(error@),
        },
{
    let tensor: Tensor = take(model, name)?;
    match tensor.data {
        TensorData::F32(values) => Ok(values),
        _ => Err(
            LoadError::InvalidModel(
                String::from_str("tensor ").concat(name).concat(" is not float32"),
            ),
        ),
    }
}

/// The scale factor that is the only number of the tensor with a name, and the
/// tensors without it.
pub open spec fn scalar_taken(tensors: Map<Seq<char>, TensorContents>, name: Seq<char>) -> Result<
    (Scalar, Map<Seq<char>, TensorContents>),
    LoadFault,
> {
    match taken(tensors, name) {
        Err(fault) => Err(fault),
        Ok((tensor, rest)) => if elements_of(tensor.shape) != Some(1nat) {
            Err(LoadFault::InvalidModel("tensor "@ + name + " is not a scalar"@))
        } else {
            match tensor.data {
                DataContents::F32(values) => Ok((Scalar::Float(values[0]), rest)),
                DataContents::QuantizedI8 { values, multiplier } => Ok(
                    (Scalar::Ratio { value: values[0], multiplier }, rest),
                ),
                DataContents::Bytes => Err(
                    LoadFault::InvalidModel("tensor "@ + name + " is not a numeric scalar"@),
                ),
            }
        },
    }
}

/// Takes a scale factor out of an archive.
///
/// Mozilla's models with precomputed scale factors pass every parameter
/// through the quantizing serializer, the one-element scale factors too, so
/// these are recovered from their quantized form.
pub fn take_scalar(model: &mut ModelArchive, name: &str) -> (scalar: Result<Scalar, LoadError>)
    requires
        old(model).valid(),
        sound(old(model)@.tensors),
    ensures
        final(model).valid(),
        sound(final(model)@.tensors),
        match scalar {
            Ok(scalar) => scalar_taken(old(model)@.tensors, name@) == Ok::<
                (Scalar, Map<Seq<char>, TensorContents>),
                LoadFault,
            >((scalar, final(model)@.tensors)),
            Err(error) => scalar_taken(old(model)@.tensors, name@) == Err::<
                (Scalar, Map<Seq<char>, TensorContents>),
                LoadFault,
            >(error@),
        },
{
    let tensor: Tensor = take(model, name)?;
    if tensor.element_count() != 1 {
        return Err(
            LoadError::InvalidModel(
                String::from_str("tensor ").concat(name).concat(" is not a scalar"),
            ),
        );
    }
    match tensor.data {
        TensorData::F32(values) => Ok(Scalar::Float(values[0])),
        TensorData::QuantizedI8 { values, multiplier } => Ok(
            Scalar::Ratio { value: values[0], multiplier },
        ),
        TensorData::Bytes => Err(
            LoadError::InvalidModel(
                String::from_str("tensor ").concat(name).concat(" is not a numeric scalar"),
            ),
        ),
    }
}

/// The bias, if one is named, and the tensors without it.
pub open spec fn bias_taken(
    tensors: Map<Seq<char>, TensorContents>,
    bias_name: Option<Seq<char>>,
) -> Result<(Option<Seq<u32>>, Map<Seq<char>, TensorContents>), LoadFault> {
    match bias_name {
        None => Ok((None, tensors)),
        Some(name) => match floats_taken(tensors, name) {
            Err(fault) => Err(fault),
            Ok((bias, rest)) => Ok((Some(bias), rest)),
        },
    }
}

/// Name of the scale factor of the inputs of a transform.
pub open spec fn scale_name(weight_name: Seq<char>) -> Seq<char> {
    weight_name + "_QuantMultA"@
}

/// The transform with the named weights and bias, and the tensors without
/// those.
pub open spec fn linear_taken(
    tensors: Map<Seq<char>, TensorContents>,
    weight_name: Seq<char>,
    bias_name: Option<Seq<char>>,
) -> Result<(LinearContents, Map<Seq<char>, TensorContents>), LoadFault> {
    match scalar_taken(tensors, scale_name(weight_name)) {
        Err(fault) => Err(fault),
        Ok((activation_multiplier, rest)) => match taken(rest, weight_name) {
            Err(fault) => Err(fault),
            Ok((weight, rest)) => match bias_taken(rest, bias_name) {
                Err(fault) => Err(fault),
                Ok((bias, rest)) => match tensor_linear(weight, bias, activation_multiplier) {
                    Err(fault) => Err(fault),
                    Ok(linear) => Ok((linear, rest)),
                },
            },
        },
    }
}

/// The name, if any, as a character sequence.
pub open spec fn name_of(name: Option<&str>) -> Option<Seq<char>> {
    match name {
        Some(name) => Some(name@),
        None => None,
    }
}

proof fn positive_shapes_are_packable(tensor: TensorContents, activation_multiplier: Scalar)
    requires
        tensor.well_formed(),
    ensures
        packable(tensor, activation_multiplier),
{
    if tensor.shape.len() == 2 {
        assert(tensor.shape[0] > 0 && tensor.shape[1] > 0);
        assert(tensor.shape[0] * tensor.shape[1] > 0) by (nonlinear_arith)
            requires
                tensor.shape[0] > 0,
                tensor.shape[1] > 0,
        ;
    }
}

/// Takes a transform out of an archive.
pub fn compile_linear(model: &mut ModelArchive, weight_name: &str, bias_name: Option<&str>) -> (linear:
    Result<Linear, LoadError>)
    requires
        old(model).valid(),
        sound(old(model)@.tensors),
    ensures
        final(model).valid(),
        sound(final(model)@.tensors),
        match linear {
            Ok(linear) => linear.valid() && linear_taken(
                old(model)@.tensors,
                weight_name@,
                name_of(bias_name),
            ) == Ok::<(LinearContents, Map<Seq<char>, TensorContents>), LoadFault>(
                (linear@, final(model)@.tensors),
            ),
            Err(error) => linear_taken(old(model)@.tensors, weight_name@, name_of(bias_name))
                == Err::<(LinearContents, Map<Seq<char>, TensorContents>), LoadFault>(error@),
        },
{
    let scale: String = String::from_str(weight_name).concat("_QuantMultA");
    let activation_multiplier: Scalar = take_scalar(model, scale.as_str())?;
    let weight: Tensor = take(model, weight_name)?;
    let bias: Option<Vec<u32>> = match bias_name {
        Some(name) => Some(take_f32(model, name)?),
        None => None,
    };
    proof {
        positive_shapes_are_packable(weight@, activation_multiplier);
    }
    Linear::compile(weight, bias, activation_multiplier)
}

/// What is wrong with the dimensions of a transform, if anything.
pub open spec fn shape_fault(
    linear: LinearContents,
    expected_input: usize,
    expected_output: usize,
    label: Seq<char>,
) -> Option<LoadFault> {
    if has_shape(linear, expected_input, expected_output) {
        None
    } else {
        Some(
            LoadFault::InvalidModel(
                label + " has shape "@ + decimal_text(linear.input_dim as nat) + "x"@
                    + decimal_text(linear.output_dim as nat) + ", expected "@ + decimal_text(
                    expected_input as nat,
                ) + "x"@ + decimal_text(expected_output as nat),
            ),
        )
    }
}

/// Checks the dimensions of a transform.
pub fn require_linear_shape(
    linear: &Linear,
    expected_input: usize,
    expected_output: usize,
    label: &str,
) -> (checked: Result<(), LoadError>)
    ensures
        match checked {
            Ok(_) => shape_fault(linear@, expected_input, expected_output, label@) is None,
            Err(error) => shape_fault(linear@, expected_input, expected_output, label@) == Some(
                error@,
            ),
        },
{
    let (input_dim, output_dim) = linear.shape();
    if input_dim != expected_input || output_dim != expected_output {
        return Err(
            LoadError::InvalidModel(
                String::from_str(label).concat(" has shape ").concat(
                    decimal_usize(input_dim).as_str(),
                ).concat("x").concat(decimal_usize(output_dim).as_str()).concat(
                    ", expected ",
                ).concat(decimal_usize(expected_input).as_str()).concat("x").concat(
                    decimal_usize(expected_output).as_str(),
                ),
            ),
        );
    }
    Ok(())
}

/// The normalization with the given prefix, and the tensors without it.
pub open spec fn norm_taken(
    tensors: Map<Seq<char>, TensorContents>,
    prefix: Seq<char>,
    dim: usize,
) -> Result<(NormContents, Map<Seq<char>, TensorContents>), LoadFault> {
    match floats_taken(tensors, prefix + "_scale"@) {
        Err(fault) => Err(fault),
        Ok((scale, rest)) => match floats_taken(rest, prefix + "_bias"@) {
            Err(fault) => Err(fault),
            Ok((bias, rest)) => if scale.len() != dim || bias.len() != dim {
                Err(
                    LoadFault::InvalidModel(
                        "layer norm "@ + prefix + " has dimension ("@ + decimal_text(scale.len())
                            + ", "@ + decimal_text(bias.len()) + "), expected "@ + decimal_text(
                            dim as nat,
                        ),
                    ),
                )
            } else {
                Ok((NormContents { dim, scale, bias }, rest))
            },
        },
    }
}

impl LayerNorm {
    /// Takes a normalization out of an archive.
    pub fn compile(model: &mut ModelArchive, prefix: &str, dim: usize) -> (norm: Result<
        LayerNorm,
        LoadError,
    >)
        requires
            old(model).valid(),
            sound(old(model)@.tensors),
        ensures
            final(model).valid(),
            sound(final(model)@.tensors),
            match norm {
                Ok(norm) => norm.valid() && norm.dim == dim && norm_taken(
                    old(model)@.tensors,
                    prefix@,
                    dim,
                ) == Ok::<(NormContents, Map<Seq<char>, TensorContents>), LoadFault>(
                    (norm@, final(model)@.tensors),
                ),
                Err(error) => norm_taken(old(model)@.tensors, prefix@, dim) == Err::<
                    (NormContents, Map<Seq<char>, TensorContents>),
                    LoadFault,
                >(error@),
            },
    {
        let scale: Vec<u32> = take_f32(model, String::from_str(prefix).concat("_scale").as_str())?;
        let bias: Vec<u32> = take_f32(model, String::from_str(prefix).concat("_bias").as_str())?;
        if scale.len() != dim || bias.len() != dim {
            return Err(
                LoadError::InvalidModel(
                    String::from_str("layer norm ").concat(prefix).concat(
                        " has dimension (",
                    ).concat(decimal_usize(scale.len()).as_str()).concat(", ").concat(
                        decimal_usize(bias.len()).as_str(),
                    ).concat("), expected ").concat(decimal_usize(dim).as_str()),
                ),
            );
        }
        Ok(LayerNorm { dim, scale, bias })
    }
}

/// The recurrent unit with the given prefix, and the tensors without it.
pub open spec fn ssru_taken(
    tensors: Map<Seq<char>, TensorContents>,
    prefix: Seq<char>,
    dim: usize,
) -> Result<(SsruContents, Map<Seq<char>, TensorContents>), LoadFault> {
    match linear_taken(tensors, prefix + "_W"@, None) {
        Err(fault) => Err(fault),
        Ok((candidate, rest)) => match linear_taken(
            rest,
            prefix + "_Wf"@,
            Some(prefix + "_bf"@),
        ) {
            Err(fault) => Err(fault),
            Ok((forget, rest)) => match shape_fault(candidate, dim, dim, prefix + " candidate"@) {
                Some(fault) => Err(fault),
                None => match shape_fault(forget, dim, dim, prefix + " forget"@) {
                    Some(fault) => Err(fault),
                    None => match norm_taken(rest, prefix + "_ffn_ln"@, dim) {
                        Err(fault) => Err(fault),
                        Ok((norm, rest)) => Ok((SsruContents { dim, candidate, forget, norm }, rest)),
                    },
                },
            },
        },
    }
}

impl Ssru {
    /// Takes a recurrent unit out of an archive.
    pub fn compile(model: &mut ModelArchive, prefix: &str, dim: usize) -> (ssru: Result<
        Ssru,
        LoadError,
    >)
        requires
            old(model).valid(),
            sound(old(model)@.tensors),
        ensures
            final(model).valid(),
            sound(final(model)@.tensors),
            match ssru {
                Ok(ssru) => ssru.valid(dim) && ssru_taken(old(model)@.tensors, prefix@, dim)
                    == Ok::<(SsruContents, Map<Seq<char>, TensorContents>), LoadFault>(
                    (ssru@, final(model)@.tensors),
                ),
                Err(error) => ssru_taken(old(model)@.tensors, prefix@, dim) == Err::<
                    (SsruContents, Map<Seq<char>, TensorContents>),
                    LoadFault,
                >(error@),
            },
    {
        let candidate: Linear = compile_linear(
            model,
            String::from_str(prefix).concat("_W").as_str(),
            None,
        )?;
        let forget: Linear = compile_linear(
            model,
            String::from_str(prefix).concat("_Wf").as_str(),
            Some(String::from_str(prefix).concat("_bf").as_str()),
        )?;
        require_linear_shape(
            &candidate,
            dim,
            dim,
            String::from_str(prefix).concat(" candidate").as_str(),
        )?;
        require_linear_shape(
            &forget,
            dim,
            dim,
            String::from_str(prefix).concat(" forget").as_str(),
        )?;
        let norm: LayerNorm = LayerNorm::compile(
            model,
            String::from_str(prefix).concat("_ffn_ln").as_str(),
            dim,
        )?;
        Ok(Ssru { dim, candidate, forget, norm })
    }
}

/// The transforms of a feed-forward block behind those already taken, and the
/// tensors without them.
pub open spec fn more_layers_taken(
    tensors: Map<Seq<char>, TensorContents>,
    prefix: Seq<char>,
    spec: NetworkSpec,
    done: Seq<LinearContents>,
) -> Result<(Seq<LinearContents>, Map<Seq<char>, TensorContents>), LoadFault>
    decreases spec.ffn_depth - done.len(),
{
    if done.len() >= spec.ffn_depth {
        Ok((done, tensors))
    } else {
        let depth = done.len() + 1;
        match linear_taken(
            tensors,
            prefix + "_W"@ + decimal_text(depth),
            Some(prefix + "_b"@ + decimal_text(depth)),
        ) {
            Err(fault) => Err(fault),
            Ok((linear, rest)) => match shape_fault(
                linear,
                ffn_input(spec, depth as int),
                ffn_output(spec, depth as int),
                prefix + " layer "@ + decimal_text(depth),
            ) {
                Some(fault) => Err(fault),
                None => more_layers_taken(rest, prefix, spec, done.push(linear)),
            },
        }
    }
}

/// The feed-forward block with the given prefix, and the tensors without it.
pub open spec fn ffn_taken(
    tensors: Map<Seq<char>, TensorContents>,
    prefix: Seq<char>,
    spec: NetworkSpec,
) -> Result<(FeedForwardContents, Map<Seq<char>, TensorContents>), LoadFault> {
    match more_layers_taken(tensors, prefix, spec, Seq::empty()) {
        Err(fault) => Err(fault),
        Ok((layers, rest)) => match norm_taken(rest, prefix + "_ffn_ln"@, spec.dim) {
            Err(fault) => Err(fault),
            Ok((norm, rest)) => Ok((FeedForwardContents { layers, norm }, rest)),
        },
    }
}

/// Takes the transforms of a feed-forward block out of an archive.
fn compile_layers(model: &mut ModelArchive, prefix: &str, spec: NetworkSpec) -> (layers: Result<
    Vec<Linear>,
    LoadError,
>)
    requires
        old(model).valid(),
        sound(old(model)@.tensors),
    ensures
        final(model).valid(),
        sound(final(model)@.tensors),
        match layers {
            Ok(layers) => {
                &&& layers@.len() == spec.ffn_depth
                &&& forall|k: int|
                    0 <= k < layers@.len() ==> (#[trigger] layers@[k]).valid() && has_shape(
                        layers@[k]@,
                        ffn_input(spec, k + 1),
                        ffn_output(spec, k + 1),
                    )
                &&& more_layers_taken(old(model)@.tensors, prefix@, spec, Seq::empty()) == Ok::<
                    (Seq<LinearContents>, Map<Seq<char>, TensorContents>),
                    LoadFault,
                >((linears(layers@), final(model)@.tensors))
            },
            Err(error) => more_layers_taken(old(model)@.tensors, prefix@, spec, Seq::empty())
                == Err::<(Seq<LinearContents>, Map<Seq<char>, TensorContents>), LoadFault>(error@),
        },
{
    let mut layers: Vec<Linear> = Vec::new();
    let ghost expected = more_layers_taken(model@.tensors, prefix@, spec, Seq::empty());
    proof {
        assert(linears(layers@) == Seq::<LinearContents>::empty());
    }
    while layers.len() < spec.ffn_depth
        invariant
            layers@.len() <= spec.ffn_depth,
            model.valid(),
            sound(model@.tensors),
            forall|k: int|
                0 <= k < layers@.len() ==> (#[trigger] layers@[k]).valid() && has_shape(
                    layers@[k]@,
                    ffn_input(spec, k + 1),
                    ffn_output(spec, k + 1),
                ),
            expected == more_layers_taken(old(model)@.tensors, prefix@, spec, Seq::empty()),
            expected == more_layers_taken(model@.tensors, prefix@, spec, linears(layers@)),
        decreases spec.ffn_depth - layers@.len(),
    {
        let depth: usize = layers.len() + 1;
        let number: String = decimal_usize(depth);
        let linear: Linear = compile_linear(
            model,
            String::from_str(prefix).concat("_W").concat(number.as_str()).as_str(),
            Some(String::from_str(prefix).concat("_b").concat(number.as_str()).as_str()),
        )?;
        let expected_input: usize = if depth == 1 {
            spec.dim
        } else {
            spec.ffn_dim
        };
        let expected_output: usize = if depth == spec.ffn_depth {
            spec.dim
        } else {
            spec.ffn_dim
        };
        require_linear_shape(
            &linear,
            expected_input,
            expected_output,
            String::from_str(prefix).concat(" layer ").concat(number.as_str()).as_str(),
        )?;
        let ghost before = linears(layers@);
        layers.push(linear);
        proof {
            assert(linears(layers@) == before.push(linear@));
        }
    }
    Ok(layers)
}

impl FeedForward {
    /// Takes a feed-forward block out of an archive.
    pub fn compile(model: &mut ModelArchive, prefix: &str, spec: NetworkSpec) -> (ffn: Result<
        FeedForward,
        LoadError,
    >)
        requires
            old(model).valid(),
            sound(old(model)@.tensors),
        ensures
            final(model).valid(),
            sound(final(model)@.tensors),
            match ffn {
                Ok(ffn) => ffn.valid(spec) && ffn_taken(old(model)@.tensors, prefix@, spec)
                    == Ok::<(FeedForwardContents, Map<Seq<char>, TensorContents>), LoadFault>(
                    (ffn@, final(model)@.tensors),
                ),
                Err(error) => ffn_taken(old(model)@.tensors, prefix@, spec) == Err::<
                    (FeedForwardContents, Map<Seq<char>, TensorContents>),
                    LoadFault,
                >(error@),
            },
    {
        let layers: Vec<Linear> = compile_layers(model, prefix, spec)?;
        let norm: LayerNorm = LayerNorm::compile(
            model,
            String::from_str(prefix).concat("_ffn_ln").as_str(),
            spec.dim,
        )?;
        Ok(FeedForward { layers, norm })
    }
}

/// The transforms of an attention block: queries, keys, values and output.
pub open spec fn heads_taken(tensors: Map<Seq<char>, TensorContents>, prefix: Seq<char>) -> Result<
    (
        (LinearContents, LinearContents, LinearContents, LinearContents),
        Map<Seq<char>, TensorContents>,
    ),
    LoadFault,
> {
    match linear_taken(tensors, prefix + "_Wq"@, Some(prefix + "_bq"@)) {
        Err(fault) => Err(fault),
        Ok((query, rest)) => match linear_taken(rest, prefix + "_Wk"@, Some(prefix + "_bk"@)) {
            Err(fault) => Err(fault),
            Ok((key, rest)) => match linear_taken(rest, prefix + "_Wv"@, Some(prefix + "_bv"@)) {
                Err(fault) => Err(fault),
                Ok((value, rest)) => match linear_taken(
                    rest,
                    prefix + "_Wo"@,
                    Some(prefix + "_bo"@),
                ) {
                    Err(fault) => Err(fault),
                    Ok((output, rest)) => Ok(((query, key, value, output), rest)),
                },
            },
        },
    }
}

/// What is wrong with the dimensions of the transforms of an attention block,
/// if anything.
pub open spec fn heads_fault(
    transforms: (LinearContents, LinearContents, LinearContents, LinearContents),
    prefix: Seq<char>,
    dim: usize,
) -> Option<LoadFault> {
    match shape_fault(transforms.0, dim, dim, prefix + " "@ + "query"@) {
        Some(fault) => Some(fault),
        None => match shape_fault(transforms.1, dim, dim, prefix + " "@ + "key"@) {
            Some(fault) => Some(fault),
            None => match shape_fault(transforms.2, dim, dim, prefix + " "@ + "value"@) {
                Some(fault) => Some(fault),
                None => shape_fault(transforms.3, dim, dim, prefix + " "@ + "output"@),
            },
        },
    }
}

/// The attention block with the given prefix, and the tensors without it.
pub open spec fn attention_taken(
    tensors: Map<Seq<char>, TensorContents>,
    prefix: Seq<char>,
    spec: NetworkSpec,
) -> Result<(AttentionContents, Map<Seq<char>, TensorContents>), LoadFault> {
    match heads_taken(tensors, prefix) {
        Err(fault) => Err(fault),
        Ok((transforms, rest)) => match heads_fault(transforms, prefix, spec.dim) {
            Some(fault) => Err(fault),
            None => match norm_taken(rest, prefix + "_Wo_ln"@, spec.dim) {
                Err(fault) => Err(fault),
                Ok((norm, rest)) => Ok(
                    (
                        AttentionContents {
                            dim: spec.dim,
                            heads: spec.heads,
                            head_dim: spec.dim / spec.heads,
                            query: transforms.0,
                            key: transforms.1,
                            value: transforms.2,
                            output: transforms.3,
                            norm,
                        },
                        rest,
                    ),
                ),
            },
        },
    }
}

/// Takes a transform of an attention block out of an archive.
fn compile_head(model: &mut ModelArchive, prefix: &str, weight: &str, bias: &str) -> (linear: Result<
    Linear,
    LoadError,
>)
    requires
        old(model).valid(),
        sound(old(model)@.tensors),
    ensures
        final(model).valid(),
        sound(final(model)@.tensors),
        match linear {
            Ok(linear) => linear.valid() && linear_taken(
                old(model)@.tensors,
                prefix@ + weight@,
                Some(prefix@ + bias@),
            ) == Ok::<(LinearContents, Map<Seq<char>, TensorContents>), LoadFault>(
                (linear@, final(model)@.tensors),
            ),
            Err(error) => linear_taken(
                old(model)@.tensors,
                prefix@ + weight@,
                Some(prefix@ + bias@),
            ) == Err::<(LinearContents, Map<Seq<char>, TensorContents>), LoadFault>(error@),
        },
{
    compile_linear(
        model,
        String::from_str(prefix).concat(weight).as_str(),
        Some(String::from_str(prefix).concat(bias).as_str()),
    )
}

/// Checks the dimensions of a transform of an attention block.
fn require_head_shape(linear: &Linear, dim: usize, prefix: &str, name: &str) -> (checked: Result<
    (),
    LoadError,
>)
    ensures
        match checked {
            Ok(_) => shape_fault(linear@, dim, dim, prefix@ + " "@ + name@) is None,
            Err(error) => shape_fault(linear@, dim, dim, prefix@ + " "@ + name@) == Some(error@),
        },
{
    require_linear_shape(
        linear,
        dim,
        dim,
        String::from_str(prefix).concat(" ").concat(name).as_str(),
    )
}

impl Attention {
    /// Takes an attention block out of an archive.
    pub fn compile(model: &mut ModelArchive, prefix: &str, spec: NetworkSpec) -> (attention: Result<
        Attention,
        LoadError,
    >)
        requires
            old(model).valid(),
            sound(old(model)@.tensors),
            spec.heads > 0,
        ensures
            final(model).valid(),
            sound(final(model)@.tensors),
            match attention {
                Ok(attention) => {
                    &&& spec.dim % spec.heads == 0 ==> attention.valid(spec)
                    &&& attention_taken(old(model)@.tensors, prefix@, spec) == Ok::<
                        (AttentionContents, Map<Seq<char>, TensorContents>),
                        LoadFault,
                    >((attention@, final(model)@.tensors))
                },
                Err(error) => attention_taken(old(model)@.tensors, prefix@, spec) == Err::<
                    (AttentionContents, Map<Seq<char>, TensorContents>),
                    LoadFault,
                >(error@),
            },
    {
        let query: Linear = compile_head(model, prefix, "_Wq", "_bq")?;
        let key: Linear = compile_head(model, prefix, "_Wk", "_bk")?;
        let value: Linear = compile_head(model, prefix, "_Wv", "_bv")?;
        let output: Linear = compile_head(model, prefix, "_Wo", "_bo")?;
        require_head_shape(&query, spec.dim, prefix, "query")?;
        require_head_shape(&key, spec.dim, prefix, "key")?;
        require_head_shape(&value, spec.dim, prefix, "value")?;
        require_head_shape(&output, spec.dim, prefix, "output")?;
        let norm: LayerNorm = LayerNorm::compile(
            model,
            String::from_str(prefix).concat("_Wo_ln").as_str(),
            spec.dim,
        )?;
        proof {
            vstd::arithmetic::div_mod::lemma_fundamental_div_mod(
                spec.dim as int,
                spec.heads as int,
            );
        }
        Ok(
            Attention {
                dim: spec.dim,
                heads: spec.heads,
                head_dim: spec.dim / spec.heads,
                query,
                key,
                value,
                output,
                norm,
            },
        )
    }
}

/// The embedding with a name, and the tensors without it.
pub open spec fn embedding_taken(
    tensors: Map<Seq<char>, TensorContents>,
    name: Seq<char>,
    rows: usize,
    dim: usize,
) -> Result<(EmbeddingContents, Map<Seq<char>, TensorContents>), LoadFault> {
    match taken(tensors, name) {
        Err(fault) => Err(fault),
        Ok((tensor, rest)) => match tensor_embedding(tensor, rows, dim) {
            Err(fault) => Err(fault),
            Ok(embedding) => Ok((embedding, rest)),
        },
    }
}

/// Takes an embedding out of an archive.
fn compile_embedding(model: &mut ModelArchive, name: &str, rows: usize, dim: usize) -> (embedding:
    Result<Embedding, LoadError>)
    requires
        old(model).valid(),
        sound(old(model)@.tensors),
    ensures
        final(model).valid(),
        sound(final(model)@.tensors),
        match embedding {
            Ok(embedding) => embedding.valid() && embedding.rows == rows && embedding.cols == dim
                && embedding_taken(old(model)@.tensors, name@, rows, dim) == Ok::<
                (EmbeddingContents, Map<Seq<char>, TensorContents>),
                LoadFault,
            >((embedding@, final(model)@.tensors)),
            Err(error) => embedding_taken(old(model)@.tensors, name@, rows, dim) == Err::<
                (EmbeddingContents, Map<Seq<char>, TensorContents>),
                LoadFault,
            >(error@),
        },
{
    let tensor: Tensor = take(model, name)?;
    Embedding::compile(tensor, rows, dim)
}

/// The embeddings of source and target, and the tensors without them.
pub open spec fn embeddings_taken(
    tensors: Map<Seq<char>, TensorContents>,
    tied_all: bool,
    spec: NetworkSpec,
) -> Result<
    ((EmbeddingContents, EmbeddingContents), Map<Seq<char>, TensorContents>),
    LoadFault,
> {
    if tied_all {
        match embedding_taken(tensors, "Wemb"@, spec.target_vocab, spec.dim) {
            Err(fault) => Err(fault),
            Ok((shared, rest)) => Ok(((shared, shared), rest)),
        }
    } else {
        match embedding_taken(tensors, "encoder_Wemb"@, spec.source_vocab, spec.dim) {
            Err(fault) => Err(fault),
            Ok((source, rest)) => match embedding_taken(
                rest,
                "decoder_Wemb"@,
                spec.target_vocab,
                spec.dim,
            ) {
                Err(fault) => Err(fault),
                Ok((target, rest)) => Ok(((source, target), rest)),
            },
        }
    }
}

/// Name of the weights of the output projection.
pub open spec fn output_weight_name(tied_all: bool) -> Seq<char> {
    if tied_all {
        "Wemb"@
    } else {
        "decoder_Wemb"@
    }
}

/// Takes the embeddings of source and target out of an archive.
fn compile_embeddings(model: &mut ModelArchive, tied_all: bool, spec: NetworkSpec) -> (embeddings:
    Result<(Embedding, Embedding), LoadError>)
    requires
        old(model).valid(),
        sound(old(model)@.tensors),
        tied_all ==> spec.source_vocab == spec.target_vocab,
    ensures
        final(model).valid(),
        sound(final(model)@.tensors),
        match embeddings {
            Ok((source, target)) => {
                &&& source.valid() && source.rows == spec.source_vocab && source.cols == spec.dim
                &&& target.valid() && target.rows == spec.target_vocab && target.cols == spec.dim
                &&& embeddings_taken(old(model)@.tensors, tied_all, spec) == Ok::<
                    ((EmbeddingContents, EmbeddingContents), Map<Seq<char>, TensorContents>),
                    LoadFault,
                >(((source@, target@), final(model)@.tensors))
            },
            Err(error) => embeddings_taken(old(model)@.tensors, tied_all, spec) == Err::<
                ((EmbeddingContents, EmbeddingContents), Map<Seq<char>, TensorContents>),
                LoadFault,
            >(error@),
        },
{
    if tied_all {
        let shared: Embedding = compile_embedding(model, "Wemb", spec.target_vocab, spec.dim)?;
        return Ok((shared.share(), shared));
    }
    let source: Embedding = compile_embedding(model, "encoder_Wemb", spec.source_vocab, spec.dim)?;
    let target: Embedding = compile_embedding(model, "decoder_Wemb", spec.target_vocab, spec.dim)?;
    Ok((source, target))
}

/// Prefix of a part of an encoder or decoder layer, counted from one.
pub open spec fn layer_prefix(side: Seq<char>, layer: nat, part: Seq<char>) -> Seq<char> {
    side + decimal_text(layer) + part
}

/// The prefix of a part of a layer.
fn prefix_of(side: &str, layer: usize, part: &str) -> (prefix: String)
    ensures
        prefix@ == layer_prefix(side@, layer as nat, part@),
{
    String::from_str(side).concat(decimal_usize(layer).as_str()).concat(part)
}

/// The encoder layers behind those already taken, and the tensors without
/// them.
pub open spec fn more_encoder_taken(
    tensors: Map<Seq<char>, TensorContents>,
    spec: NetworkSpec,
    done: Seq<EncoderContents>,
) -> Result<(Seq<EncoderContents>, Map<Seq<char>, TensorContents>), LoadFault>
    decreases spec.encoder_layers - done.len(),
{
    if done.len() >= spec.encoder_layers {
        Ok((done, tensors))
    } else {
        let layer = done.len() + 1;
        match attention_taken(tensors, layer_prefix("encoder_l"@, layer, "_self"@), spec) {
            Err(fault) => Err(fault),
            Ok((attention, rest)) => match ffn_taken(
                rest,
                layer_prefix("encoder_l"@, layer, "_ffn"@),
                spec,
            ) {
                Err(fault) => Err(fault),
                Ok((ffn, rest)) => more_encoder_taken(
                    rest,
                    spec,
                    done.push(EncoderContents { attention, ffn }),
                ),
            },
        }
    }
}

/// Takes the encoder layers out of an archive.
fn compile_encoder(model: &mut ModelArchive, spec: NetworkSpec) -> (layers: Result<
    Vec<EncoderLayer>,
    LoadError,
>)
    requires
        old(model).valid(),
        sound(old(model)@.tensors),
        spec.heads > 0,
        spec.dim % spec.heads == 0,
    ensures
        final(model).valid(),
        sound(final(model)@.tensors),
        match layers {
            Ok(layers) => {
                &&& layers@.len() == spec.encoder_layers
                &&& forall|k: int|
                    0 <= k < layers@.len() ==> (#[trigger] layers@[k]).attention.valid(spec)
                        && layers@[k].ffn.valid(spec)
                &&& more_encoder_taken(old(model)@.tensors, spec, Seq::empty()) == Ok::<
                    (Seq<EncoderContents>, Map<Seq<char>, TensorContents>),
                    LoadFault,
                >((encoder_contents(layers@), final(model)@.tensors))
            },
            Err(error) => more_encoder_taken(old(model)@.tensors, spec, Seq::empty()) == Err::<
                (Seq<EncoderContents>, Map<Seq<char>, TensorContents>),
                LoadFault,
            >(error@),
        },
{
    let mut layers: Vec<EncoderLayer> = Vec::new();
    let ghost expected = more_encoder_taken(model@.tensors, spec, Seq::empty());
    proof {
        assert(encoder_contents(layers@) == Seq::<EncoderContents>::empty());
    }
    while layers.len() < spec.encoder_layers
        invariant
            layers@.len() <= spec.encoder_layers,
            model.valid(),
            sound(model@.tensors),
            spec.heads > 0,
            spec.dim % spec.heads == 0,
            forall|k: int|
                0 <= k < layers@.len() ==> (#[trigger] layers@[k]).attention.valid(spec)
                    && layers@[k].ffn.valid(spec),
            expected == more_encoder_taken(old(model)@.tensors, spec, Seq::empty()),
            expected == more_encoder_taken(model@.tensors, spec, encoder_contents(layers@)),
        decreases spec.encoder_layers - layers@.len(),
    {
        let layer: usize = layers.len() + 1;
        let attention: Attention = Attention::compile(
            model,
            prefix_of("encoder_l", layer, "_self").as_str(),
            spec,
        )?;
        let ffn: FeedForward = FeedForward::compile(
            model,
            prefix_of("encoder_l", layer, "_ffn").as_str(),
            spec,
        )?;
        let ghost before = encoder_contents(layers@);
        let ghost contents = EncoderContents { attention: attention@, ffn: ffn@ };
        layers.push(EncoderLayer { attention, ffn });
        proof {
            assert(encoder_contents(layers@) == before.push(contents));
        }
    }
    Ok(layers)
}

/// The decoder layers behind those already taken, and the tensors without
/// them.
pub open spec fn more_decoder_taken(
    tensors: Map<Seq<char>, TensorContents>,
    spec: NetworkSpec,
    done: Seq<DecoderContents>,
) -> Result<(Seq<DecoderContents>, Map<Seq<char>, TensorContents>), LoadFault>
    decreases spec.decoder_layers - done.len(),
{
    if done.len() >= spec.decoder_layers {
        Ok((done, tensors))
    } else {
        let layer = done.len() + 1;
        match ssru_taken(tensors, layer_prefix("decoder_l"@, layer, "_rnn"@), spec.dim) {
            Err(fault) => Err(fault),
            Ok((ssru, rest)) => match attention_taken(
                rest,
                layer_prefix("decoder_l"@, layer, "_context"@),
                spec,
            ) {
                Err(fault) => Err(fault),
                Ok((attention, rest)) => match ffn_taken(
                    rest,
                    layer_prefix("decoder_l"@, layer, "_ffn"@),
                    spec,
                ) {
                    Err(fault) => Err(fault),
                    Ok((ffn, rest)) => more_decoder_taken(
                        rest,
                        spec,
                        done.push(DecoderContents { ssru, attention, ffn }),
                    ),
                },
            },
        }
    }
}

/// Takes the decoder layers out of an archive.
fn compile_decoder(model: &mut ModelArchive, spec: NetworkSpec) -> (layers: Result<
    Vec<DecoderLayer>,
    LoadError,
>)
    requires
        old(model).valid(),
        sound(old(model)@.tensors),
        spec.heads > 0,
        spec.dim % spec.heads == 0,
    ensures
        final(model).valid(),
        sound(final(model)@.tensors),
        match layers {
            Ok(layers) => {
                &&& layers@.len() == spec.decoder_layers
                &&& forall|k: int|
                    0 <= k < layers@.len() ==> (#[trigger] layers@[k]).ssru.valid(spec.dim)
                        && layers@[k].attention.valid(spec) && layers@[k].ffn.valid(spec)
                &&& more_decoder_taken(old(model)@.tensors, spec, Seq::empty()) == Ok::<
                    (Seq<DecoderContents>, Map<Seq<char>, TensorContents>),
                    LoadFault,
                >((decoder_contents(layers@), final(model)@.tensors))
            },
            Err(error) => more_decoder_taken(old(model)@.tensors, spec, Seq::empty()) == Err::<
                (Seq<DecoderContents>, Map<Seq<char>, TensorContents>),
                LoadFault,
            >(error@),
        },
{
    let mut layers: Vec<DecoderLayer> = Vec::new();
    let ghost expected = more_decoder_taken(model@.tensors, spec, Seq::empty());
    proof {
        assert(decoder_contents(layers@) == Seq::<DecoderContents>::empty());
    }
    while layers.len() < spec.decoder_layers
        invariant
            layers@.len() <= spec.decoder_layers,
            model.valid(),
            sound(model@.tensors),
            spec.heads > 0,
            spec.dim % spec.heads == 0,
            forall|k: int|
                0 <= k < layers@.len() ==> (#[trigger] layers@[k]).ssru.valid(spec.dim)
                    && layers@[k].attention.valid(spec) && layers@[k].ffn.valid(spec),
            expected == more_decoder_taken(old(model)@.tensors, spec, Seq::empty()),
            expected == more_decoder_taken(model@.tensors, spec, decoder_contents(layers@)),
        decreases spec.decoder_layers - layers@.len(),
    {
        let layer: usize = layers.len() + 1;
        let ssru: Ssru = Ssru::compile(
            model,
            prefix_of("decoder_l", layer, "_rnn").as_str(),
            spec.dim,
        )?;
        let attention: Attention = Attention::compile(
            model,
            prefix_of("decoder_l", layer, "_context").as_str(),
            spec,
        )?;
        let ffn: FeedForward = FeedForward::compile(
            model,
            prefix_of("decoder_l", layer, "_ffn").as_str(),
            spec,
        )?;
        let ghost before = decoder_contents(layers@);
        let ghost contents = DecoderContents {
            ssru: ssru@,
            attention: attention@,
            ffn: ffn@,
        };
        layers.push(DecoderLayer { ssru, attention, ffn });
        proof {
            assert(decoder_contents(layers@) == before.push(contents));
        }
    }
    Ok(layers)
}

/// What is wrong with the dimensions of a network, if anything.
pub open spec fn dimension_fault(spec: NetworkSpec) -> Option<LoadFault> {
    if spec.heads == 0 || spec.dim % spec.heads != 0 {
        Some(
            LoadFault::InvalidModel(
                "embedding dimension "@ + decimal_text(spec.dim as nat) + " is not divisible by "@
                    + decimal_text(spec.heads as nat) + " attention heads"@,
            ),
        )
    } else if spec.ffn_depth == 0 {
        Some(LoadFault::InvalidModel("transformer FFN depth must be positive"@))
    } else {
        None
    }
}

/// Checks the dimensions of a network.
fn check_dimensions(spec: NetworkSpec) -> (checked: Result<(), LoadError>)
    ensures
        match checked {
            Ok(_) => dimension_fault(spec) is None,
            Err(error) => dimension_fault(spec) == Some(error@),
        },
{
    if spec.heads == 0 || spec.dim % spec.heads != 0 {
        return Err(
            LoadError::InvalidModel(
                String::from_str("embedding dimension ").concat(
                    decimal_usize(spec.dim).as_str(),
                ).concat(" is not divisible by ").concat(
                    decimal_usize(spec.heads).as_str(),
                ).concat(" attention heads"),
            ),
        );
    }
    if spec.ffn_depth == 0 {
        return Err(
            LoadError::InvalidModel(String::from_str("transformer FFN depth must be positive")),
        );
    }
    Ok(())
}

/// The network that tensors hold, given its dimensions.
pub open spec fn network_taken(
    tensors: Map<Seq<char>, TensorContents>,
    tied_all: bool,
    spec: NetworkSpec,
) -> Result<NetworkContents, LoadFault> {
    match embeddings_taken(tensors, tied_all, spec) {
        Err(fault) => Err(fault),
        Ok((embeddings, rest)) => match floats_taken(rest, "decoder_ff_logit_out_b"@) {
            Err(fault) => Err(fault),
            Ok((bias, rest)) => match scalar_taken(
                rest,
                scale_name(output_weight_name(tied_all)),
            ) {
                Err(fault) => Err(fault),
                Ok((multiplier, rest)) => match shared_projection(embeddings.1, multiplier, bias) {
                    Err(fault) => Err(fault),
                    Ok(output) => match more_encoder_taken(rest, spec, Seq::empty()) {
                        Err(fault) => Err(fault),
                        Ok((encoder, rest)) => match more_decoder_taken(rest, spec, Seq::empty()) {
                            Err(fault) => Err(fault),
                            Ok((decoder, _)) => Ok(
                                NetworkContents {
                                    spec,
                                    source_embedding: embeddings.0,
                                    target_embedding: embeddings.1,
                                    output,
                                    encoder,
                                    decoder,
                                },
                            ),
                        },
                    },
                },
            },
        },
    }
}

/// The network that an archive holds.
pub open spec fn network_of(
    config: ModelConfig,
    tensors: Map<Seq<char>, TensorContents>,
) -> Result<NetworkContents, LoadFault> {
    if !is_supported(config) {
        Err(LoadFault::UnsupportedArchitecture(feature_text(config)))
    } else {
        match dimension_fault(dimensions(config)) {
            Some(fault) => Err(fault),
            None => network_taken(tensors, config.tied_embeddings_all, dimensions(config)),
        }
    }
}

/// Takes a network out of an archive, given its dimensions.
fn compile_network(model: &mut ModelArchive, tied_all: bool, spec: NetworkSpec) -> (network: Result<
    Network,
    LoadError,
>)
    requires
        old(model).valid(),
        sound(old(model)@.tensors),
        dimension_fault(spec) is None,
        tied_all ==> spec.source_vocab == spec.target_vocab,
    ensures
        match network {
            Ok(network) => network.valid() && network_taken(old(model)@.tensors, tied_all, spec)
                == Ok::<NetworkContents, LoadFault>(network@),
            Err(error) => network_taken(old(model)@.tensors, tied_all, spec) == Err::<
                NetworkContents,
                LoadFault,
            >(error@),
        },
{
    let (source_embedding, target_embedding) = compile_embeddings(model, tied_all, spec)?;
    let output_bias: Vec<u32> = take_f32(model, "decoder_ff_logit_out_b")?;
    let scale: String = if tied_all {
        String::from_str("Wemb").concat("_QuantMultA")
    } else {
        String::from_str("decoder_Wemb").concat("_QuantMultA")
    };
    let multiplier: Scalar = take_scalar(model, scale.as_str())?;
    let output: OutputProjection = OutputProjection::new(
        &target_embedding,
        multiplier,
        output_bias,
    )?;
    let encoder: Vec<EncoderLayer> = compile_encoder(model, spec)?;
    let decoder: Vec<DecoderLayer> = compile_decoder(model, spec)?;
    Ok(Network { spec, source_embedding, target_embedding, output, encoder, decoder })
}

/// Compiles the network that an archive holds.
pub fn compile(model: ModelArchive) -> (network: Result<Network, LoadError>)
    requires
        model.valid(),
        sound(model@.tensors),
        has_supported_layers(model.config) && (model.config.tied_embeddings_all
            || has_supported_frame(model.config)) ==> model.config.dim_vocabs@.len() >= 2,
    ensures
        match network {
            Ok(network) => network.valid() && network_of(model.config, model@.tensors) == Ok::<
                NetworkContents,
                LoadFault,
            >(network@),
            Err(error) => network_of(model.config, model@.tensors) == Err::<
                NetworkContents,
                LoadFault,
            >(error@),
        },
{
    let mut model = model;
    let spec: NetworkSpec = NetworkSpec::from_config(&model.config)?;
    check_dimensions(spec)?;
    let tied_all: bool = model.config.tied_embeddings_all;
    compile_network(&mut model, tied_all, spec)
}

/// A scale factor is the only number of a tensor.
pub open spec fn holds_scale(
    tensors: Map<Seq<char>, TensorContents>,
    name: Seq<char>,
    scale: Scalar,
) -> bool {
    &&& tensors.contains_key(name)
    &&& elements_of(tensors[name].shape) == Some(1nat)
    &&& match scale {
        Scalar::Float(bits) => tensors[name].data matches DataContents::F32(values) && values[0]
            == bits,
        Scalar::Ratio { value, multiplier } => tensors[name].data matches DataContents::QuantizedI8 {
            values,
            multiplier: stored,
        } && values[0] == value && stored == multiplier,
    }
}

/// The numbers of a transform are those of tensors: its weights, output by
/// output, and its bias, which is zero where none is named.
pub open spec fn holds_linear(
    tensors: Map<Seq<char>, TensorContents>,
    weight_name: Seq<char>,
    bias_name: Option<Seq<char>>,
    linear: LinearContents,
) -> bool {
    &&& tensors.contains_key(weight_name)
    &&& tensors[weight_name].shape.len() == 2
    &&& tensors[weight_name].shape[0] == linear.input_dim
    &&& tensors[weight_name].shape[1] == linear.output_dim
    &&& tensors[weight_name].data == (DataContents::QuantizedI8 {
        values: linear.weights,
        multiplier: linear.weight_multiplier,
    })
    &&& holds_scale(tensors, weight_name + "_QuantMultA"@, linear.activation_multiplier)
    &&& linear.bias.len() == linear.output_dim
    &&& match bias_name {
        Some(name) => tensors.contains_key(name) && tensors[name].data == DataContents::F32(
            linear.bias,
        ),
        None => forall|i: int| 0 <= i < linear.bias.len() ==> #[trigger] linear.bias[i] == 0,
    }
}

/// The numbers of a normalization are those of two tensors.
pub open spec fn holds_norm(
    tensors: Map<Seq<char>, TensorContents>,
    prefix: Seq<char>,
    norm: NormContents,
) -> bool {
    &&& tensors.contains_key(prefix + "_scale"@)
    &&& tensors[prefix + "_scale"@].data == DataContents::F32(norm.scale)
    &&& tensors.contains_key(prefix + "_bias"@)
    &&& tensors[prefix + "_bias"@].data == DataContents::F32(norm.bias)
    &&& norm.scale.len() == norm.dim
    &&& norm.bias.len() == norm.dim
}

/// The numbers of an attention block are those of the tensors with a prefix.
pub open spec fn holds_attention(
    tensors: Map<Seq<char>, TensorContents>,
    prefix: Seq<char>,
    spec: NetworkSpec,
    attention: AttentionContents,
) -> bool {
    &&& attention.dim == spec.dim
    &&& attention.heads == spec.heads
    &&& holds_linear(tensors, prefix + "_Wq"@, Some(prefix + "_bq"@), attention.query)
    &&& holds_linear(tensors, prefix + "_Wk"@, Some(prefix + "_bk"@), attention.key)
    &&& holds_linear(tensors, prefix + "_Wv"@, Some(prefix + "_bv"@), attention.value)
    &&& holds_linear(tensors, prefix + "_Wo"@, Some(prefix + "_bo"@), attention.output)
    &&& holds_norm(tensors, prefix + "_Wo_ln"@, attention.norm)
    &&& attention.norm.dim == spec.dim
    &&& attention.query.input_dim == spec.dim && attention.query.output_dim == spec.dim
    &&& attention.key.input_dim == spec.dim && attention.key.output_dim == spec.dim
    &&& attention.value.input_dim == spec.dim && attention.value.output_dim == spec.dim
    &&& attention.output.input_dim == spec.dim && attention.output.output_dim == spec.dim
}

/// The numbers of a recurrent unit are those of the tensors with a prefix.
pub open spec fn holds_ssru(
    tensors: Map<Seq<char>, TensorContents>,
    prefix: Seq<char>,
    dim: usize,
    ssru: SsruContents,
) -> bool {
    &&& ssru.dim == dim
    &&& holds_linear(tensors, prefix + "_W"@, None, ssru.candidate)
    &&& holds_linear(tensors, prefix + "_Wf"@, Some(prefix + "_bf"@), ssru.forget)
    &&& holds_norm(tensors, prefix + "_ffn_ln"@, ssru.norm)
    &&& ssru.norm.dim == dim
    &&& ssru.candidate.input_dim == dim && ssru.candidate.output_dim == dim
    &&& ssru.forget.input_dim == dim && ssru.forget.output_dim == dim
}

/// The numbers of the first transforms of a feed-forward block are those of
/// the tensors with a prefix and their number, counted from one. The first
/// transform takes a hidden state and the last one gives one.
pub open spec fn holds_layers(
    tensors: Map<Seq<char>, TensorContents>,
    prefix: Seq<char>,
    spec: NetworkSpec,
    layers: Seq<LinearContents>,
) -> bool {
    forall|k: int|
        0 <= k < layers.len() ==> {
            &&& holds_linear(
                tensors,
                prefix + "_W"@ + decimal_text((k + 1) as nat),
                Some(prefix + "_b"@ + decimal_text((k + 1) as nat)),
                #[trigger] layers[k],
            )
            &&& layers[k].input_dim == if k == 0 {
                spec.dim
            } else {
                spec.ffn_dim
            }
            &&& layers[k].output_dim == if k == spec.ffn_depth - 1 {
                spec.dim
            } else {
                spec.ffn_dim
            }
        }
}

/// The numbers of a feed-forward block are those of the tensors with a prefix.
pub open spec fn holds_ffn(
    tensors: Map<Seq<char>, TensorContents>,
    prefix: Seq<char>,
    spec: NetworkSpec,
    ffn: FeedForwardContents,
) -> bool {
    &&& ffn.layers.len() == spec.ffn_depth
    &&& holds_layers(tensors, prefix, spec, ffn.layers)
    &&& holds_norm(tensors, prefix + "_ffn_ln"@, ffn.norm)
    &&& ffn.norm.dim == spec.dim
}

/// The numbers of an embedding are those of a tensor.
pub open spec fn holds_embedding(
    tensors: Map<Seq<char>, TensorContents>,
    name: Seq<char>,
    rows: usize,
    dim: usize,
    embedding: EmbeddingContents,
) -> bool {
    &&& tensors.contains_key(name)
    &&& tensors[name].shape.len() == 2
    &&& tensors[name].shape[0] == rows && embedding.rows == rows
    &&& tensors[name].shape[1] == dim && embedding.cols == dim
    &&& tensors[name].data == (DataContents::QuantizedI8 {
        values: embedding.values,
        multiplier: embedding.multiplier,
    })
}

/// The first encoder layers come from the tensors with their number, counted
/// from one.
pub open spec fn holds_encoder(
    tensors: Map<Seq<char>, TensorContents>,
    spec: NetworkSpec,
    layers: Seq<EncoderContents>,
) -> bool {
    forall|k: int|
        0 <= k < layers.len() ==> {
            let prefix = "encoder_l"@ + decimal_text((k + 1) as nat);
            &&& holds_attention(
                tensors,
                prefix + "_self"@,
                spec,
                (#[trigger] layers[k]).attention,
            )
            &&& holds_ffn(tensors, prefix + "_ffn"@, spec, layers[k].ffn)
        }
}

/// The first decoder layers come from the tensors with their number, counted
/// from one.
pub open spec fn holds_decoder(
    tensors: Map<Seq<char>, TensorContents>,
    spec: NetworkSpec,
    layers: Seq<DecoderContents>,
) -> bool {
    forall|k: int|
        0 <= k < layers.len() ==> {
            let prefix = "decoder_l"@ + decimal_text((k + 1) as nat);
            &&& holds_ssru(tensors, prefix + "_rnn"@, spec.dim, (#[trigger] layers[k]).ssru)
            &&& holds_attention(tensors, prefix + "_context"@, spec, layers[k].attention)
            &&& holds_ffn(tensors, prefix + "_ffn"@, spec, layers[k].ffn)
        }
}

/// The tensors are some of those of an archive.
pub open spec fn are_among(
    rest: Map<Seq<char>, TensorContents>,
    tensors: Map<Seq<char>, TensorContents>,
) -> bool {
    forall|name: Seq<char>| #[trigger]
        rest.contains_key(name) ==> tensors.contains_key(name) && tensors[name] == rest[name]
}

proof fn fewer_tensors(
    rest: Map<Seq<char>, TensorContents>,
    some: Map<Seq<char>, TensorContents>,
    tensors: Map<Seq<char>, TensorContents>,
)
    requires
        are_among(rest, some),
        are_among(some, tensors),
    ensures
        are_among(rest, tensors),
{
}

proof fn scales_are_stored(tensors: Map<Seq<char>, TensorContents>, name: Seq<char>)
    ensures
        scalar_taken(tensors, name) matches Ok((scale, rest)) ==> holds_scale(tensors, name, scale)
            && are_among(rest, tensors),
{
}

/// The weights of a compiled transform are the values of the named tensor, its
/// bias is the named one, and its scale factor is the one named after the
/// weights.
pub proof fn linears_are_stored(
    tensors: Map<Seq<char>, TensorContents>,
    weight_name: Seq<char>,
    bias_name: Option<Seq<char>>,
    linear: LinearContents,
    rest: Map<Seq<char>, TensorContents>,
)
    requires
        linear_taken(tensors, weight_name, bias_name) == Ok::<
            (LinearContents, Map<Seq<char>, TensorContents>),
            LoadFault,
        >((linear, rest)),
    ensures
        holds_linear(tensors, weight_name, bias_name, linear),
        are_among(rest, tensors),
{
    scales_are_stored(tensors, weight_name + "_QuantMultA"@);
}

/// A compiled normalization has the scales and biases of the tensors with its
/// prefix.
pub proof fn norms_are_stored(
    tensors: Map<Seq<char>, TensorContents>,
    prefix: Seq<char>,
    dim: usize,
    norm: NormContents,
    rest: Map<Seq<char>, TensorContents>,
)
    requires
        norm_taken(tensors, prefix, dim) == Ok::<
            (NormContents, Map<Seq<char>, TensorContents>),
            LoadFault,
        >((norm, rest)),
    ensures
        holds_norm(tensors, prefix, norm),
        norm.dim == dim,
        are_among(rest, tensors),
{
}

proof fn linears_stay_stored(
    rest: Map<Seq<char>, TensorContents>,
    tensors: Map<Seq<char>, TensorContents>,
    weight_name: Seq<char>,
    bias_name: Option<Seq<char>>,
    linear: LinearContents,
)
    requires
        are_among(rest, tensors),
        holds_linear(rest, weight_name, bias_name, linear),
    ensures
        holds_linear(tensors, weight_name, bias_name, linear),
{
    assert(tensors.contains_key(weight_name) && tensors[weight_name] == rest[weight_name]);
    let scale = weight_name + "_QuantMultA"@;
    assert(holds_scale(rest, scale, linear.activation_multiplier));
    assert(tensors.contains_key(scale) && tensors[scale] == rest[scale]);
    if let Some(name) = bias_name {
        assert(tensors.contains_key(name) && tensors[name] == rest[name]);
    }
}

proof fn norms_stay_stored(
    rest: Map<Seq<char>, TensorContents>,
    tensors: Map<Seq<char>, TensorContents>,
    prefix: Seq<char>,
    norm: NormContents,
)
    requires
        are_among(rest, tensors),
        holds_norm(rest, prefix, norm),
    ensures
        holds_norm(tensors, prefix, norm),
{
    let scale = prefix + "_scale"@;
    let bias = prefix + "_bias"@;
    assert(tensors.contains_key(scale) && tensors[scale] == rest[scale]);
    assert(tensors.contains_key(bias) && tensors[bias] == rest[bias]);
}

proof fn attentions_stay_stored(
    rest: Map<Seq<char>, TensorContents>,
    tensors: Map<Seq<char>, TensorContents>,
    prefix: Seq<char>,
    spec: NetworkSpec,
    attention: AttentionContents,
)
    requires
        are_among(rest, tensors),
        holds_attention(rest, prefix, spec, attention),
    ensures
        holds_attention(tensors, prefix, spec, attention),
{
    linears_stay_stored(rest, tensors, prefix + "_Wq"@, Some(prefix + "_bq"@), attention.query);
    linears_stay_stored(rest, tensors, prefix + "_Wk"@, Some(prefix + "_bk"@), attention.key);
    linears_stay_stored(rest, tensors, prefix + "_Wv"@, Some(prefix + "_bv"@), attention.value);
    linears_stay_stored(rest, tensors, prefix + "_Wo"@, Some(prefix + "_bo"@), attention.output);
    norms_stay_stored(rest, tensors, prefix + "_Wo_ln"@, attention.norm);
}

proof fn layers_stay_stored(
    rest: Map<Seq<char>, TensorContents>,
    tensors: Map<Seq<char>, TensorContents>,
    prefix: Seq<char>,
    spec: NetworkSpec,
    layers: Seq<LinearContents>,
)
    requires
        are_among(rest, tensors),
        holds_layers(rest, prefix, spec, layers),
    ensures
        holds_layers(tensors, prefix, spec, layers),
{
    assert forall|k: int| 0 <= k < layers.len() implies holds_linear(
        tensors,
        prefix + "_W"@ + decimal_text((k + 1) as nat),
        Some(prefix + "_b"@ + decimal_text((k + 1) as nat)),
        #[trigger] layers[k],
    ) by {
        linears_stay_stored(
            rest,
            tensors,
            prefix + "_W"@ + decimal_text((k + 1) as nat),
            Some(prefix + "_b"@ + decimal_text((k + 1) as nat)),
            layers[k],
        );
    }
}

proof fn ffns_stay_stored(
    rest: Map<Seq<char>, TensorContents>,
    tensors: Map<Seq<char>, TensorContents>,
    prefix: Seq<char>,
    spec: NetworkSpec,
    ffn: FeedForwardContents,
)
    requires
        are_among(rest, tensors),
        holds_ffn(rest, prefix, spec, ffn),
    ensures
        holds_ffn(tensors, prefix, spec, ffn),
{
    layers_stay_stored(rest, tensors, prefix, spec, ffn.layers);
    norms_stay_stored(rest, tensors, prefix + "_ffn_ln"@, ffn.norm);
}

/// In a compiled attention block with prefix `p`, the weights of the query,
/// key, value and output transforms are the values of the archive's tensors
/// `p_Wq`, `p_Wk`, `p_Wv` and `p_Wo`, and their biases those of `p_bq`, `p_bk`,
/// `p_bv` and `p_bo`; the normalization is that of `p_Wo_ln`. The heads divide
/// a hidden state evenly wherever that is possible.
#[verifier::spinoff_prover]
#[verifier::rlimit(60)]
pub proof fn attentions_are_stored(
    tensors: Map<Seq<char>, TensorContents>,
    prefix: Seq<char>,
    spec: NetworkSpec,
    attention: AttentionContents,
    rest: Map<Seq<char>, TensorContents>,
)
    requires
        attention_taken(tensors, prefix, spec) == Ok::<
            (AttentionContents, Map<Seq<char>, TensorContents>),
            LoadFault,
        >((attention, rest)),
    ensures
        holds_attention(tensors, prefix, spec, attention),
        spec.heads > 0 && spec.dim % spec.heads == 0 ==> attention.heads * attention.head_dim
            == attention.dim,
        are_among(rest, tensors),
{
    if spec.heads > 0 {
        vstd::arithmetic::div_mod::lemma_fundamental_div_mod(spec.dim as int, spec.heads as int);
    }
    let (query, without_query) = linear_taken(
        tensors,
        prefix + "_Wq"@,
        Some(prefix + "_bq"@),
    )->Ok_0;
    linears_are_stored(tensors, prefix + "_Wq"@, Some(prefix + "_bq"@), query, without_query);
    let (key, without_key) = linear_taken(
        without_query,
        prefix + "_Wk"@,
        Some(prefix + "_bk"@),
    )->Ok_0;
    linears_are_stored(without_query, prefix + "_Wk"@, Some(prefix + "_bk"@), key, without_key);
    let (value, without_value) = linear_taken(
        without_key,
        prefix + "_Wv"@,
        Some(prefix + "_bv"@),
    )->Ok_0;
    linears_are_stored(without_key, prefix + "_Wv"@, Some(prefix + "_bv"@), value, without_value);
    let (output, without_output) = linear_taken(
        without_value,
        prefix + "_Wo"@,
        Some(prefix + "_bo"@),
    )->Ok_0;
    linears_are_stored(
        without_value,
        prefix + "_Wo"@,
        Some(prefix + "_bo"@),
        output,
        without_output,
    );
    norms_are_stored(without_output, prefix + "_Wo_ln"@, spec.dim, attention.norm, rest);
    linears_stay_stored(without_query, tensors, prefix + "_Wk"@, Some(prefix + "_bk"@), key);
    linears_stay_stored(without_key, tensors, prefix + "_Wv"@, Some(prefix + "_bv"@), value);
    linears_stay_stored(without_value, tensors, prefix + "_Wo"@, Some(prefix + "_bo"@), output);
    norms_stay_stored(without_output, tensors, prefix + "_Wo_ln"@, attention.norm);
}

/// In a compiled recurrent unit with prefix `p`, the candidate transform is
/// `p_W` without a bias, the forget gate is `p_Wf` with the bias `p_bf`, and
/// the normalization is that of `p_ffn_ln`.
#[verifier::spinoff_prover]
#[verifier::rlimit(60)]
pub proof fn ssrus_are_stored(
    tensors: Map<Seq<char>, TensorContents>,
    prefix: Seq<char>,
    dim: usize,
    ssru: SsruContents,
    rest: Map<Seq<char>, TensorContents>,
)
    requires
        ssru_taken(tensors, prefix, dim) == Ok::<
            (SsruContents, Map<Seq<char>, TensorContents>),
            LoadFault,
        >((ssru, rest)),
    ensures
        holds_ssru(tensors, prefix, dim, ssru),
        are_among(rest, tensors),
{
    let (candidate, without_candidate) = linear_taken(tensors, prefix + "_W"@, None)->Ok_0;
    linears_are_stored(tensors, prefix + "_W"@, None, candidate, without_candidate);
    let (forget, without_forget) = linear_taken(
        without_candidate,
        prefix + "_Wf"@,
        Some(prefix + "_bf"@),
    )->Ok_0;
    linears_are_stored(
        without_candidate,
        prefix + "_Wf"@,
        Some(prefix + "_bf"@),
        forget,
        without_forget,
    );
    norms_are_stored(without_forget, prefix + "_ffn_ln"@, dim, ssru.norm, rest);
    linears_stay_stored(
        without_candidate,
        tensors,
        prefix + "_Wf"@,
        Some(prefix + "_bf"@),
        forget,
    );
    norms_stay_stored(without_forget, tensors, prefix + "_ffn_ln"@, ssru.norm);
}

proof fn layers_grow(
    tensors: Map<Seq<char>, TensorContents>,
    prefix: Seq<char>,
    spec: NetworkSpec,
    done: Seq<LinearContents>,
    linear: LinearContents,
)
    requires
        holds_layers(tensors, prefix, spec, done),
        done.len() < spec.ffn_depth,
        holds_linear(
            tensors,
            prefix + "_W"@ + decimal_text(done.len() + 1),
            Some(prefix + "_b"@ + decimal_text(done.len() + 1)),
            linear,
        ),
        has_shape(
            linear,
            ffn_input(spec, (done.len() + 1) as int),
            ffn_output(spec, (done.len() + 1) as int),
        ),
    ensures
        holds_layers(tensors, prefix, spec, done.push(linear)),
{
    let longer = done.push(linear);
    assert forall|k: int| 0 <= k < longer.len() implies {
        &&& holds_linear(
            tensors,
            prefix + "_W"@ + decimal_text((k + 1) as nat),
            Some(prefix + "_b"@ + decimal_text((k + 1) as nat)),
            #[trigger] longer[k],
        )
        &&& longer[k].input_dim == if k == 0 {
            spec.dim
        } else {
            spec.ffn_dim
        }
        &&& longer[k].output_dim == if k == spec.ffn_depth - 1 {
            spec.dim
        } else {
            spec.ffn_dim
        }
    } by {
        if k < done.len() {
            assert(longer[k] == done[k]);
        }
    }
}

#[verifier::spinoff_prover]
#[verifier::rlimit(60)]
proof fn more_layers_are_stored(
    tensors: Map<Seq<char>, TensorContents>,
    all: Map<Seq<char>, TensorContents>,
    prefix: Seq<char>,
    spec: NetworkSpec,
    done: Seq<LinearContents>,
    layers: Seq<LinearContents>,
    left: Map<Seq<char>, TensorContents>,
)
    requires
        are_among(tensors, all),
        holds_layers(all, prefix, spec, done),
        done.len() <= spec.ffn_depth,
        more_layers_taken(tensors, prefix, spec, done) == Ok::<
            (Seq<LinearContents>, Map<Seq<char>, TensorContents>),
            LoadFault,
        >((layers, left)),
    ensures
        layers.len() == spec.ffn_depth,
        holds_layers(all, prefix, spec, layers),
        are_among(left, all),
    decreases spec.ffn_depth - done.len(),
{
    if done.len() < spec.ffn_depth {
        let depth = done.len() + 1;
        let weight_name = prefix + "_W"@ + decimal_text(depth);
        let bias_name = Some(prefix + "_b"@ + decimal_text(depth));
        let (linear, rest) = linear_taken(tensors, weight_name, bias_name)->Ok_0;
        linears_are_stored(tensors, weight_name, bias_name, linear, rest);
        linears_stay_stored(tensors, all, weight_name, bias_name, linear);
        fewer_tensors(rest, tensors, all);
        layers_grow(all, prefix, spec, done, linear);
        more_layers_are_stored(rest, all, prefix, spec, done.push(linear), layers, left);
    }
}

/// Transform `k` of a compiled feed-forward block with prefix `p`, counted from
/// one, is `p_Wk` with the bias `p_bk`, and the normalization is that of
/// `p_ffn_ln`.
#[verifier::spinoff_prover]
#[verifier::rlimit(60)]
pub proof fn ffns_are_stored(
    tensors: Map<Seq<char>, TensorContents>,
    prefix: Seq<char>,
    spec: NetworkSpec,
    ffn: FeedForwardContents,
    rest: Map<Seq<char>, TensorContents>,
)
    requires
        ffn_taken(tensors, prefix, spec) == Ok::<
            (FeedForwardContents, Map<Seq<char>, TensorContents>),
            LoadFault,
        >((ffn, rest)),
    ensures
        holds_ffn(tensors, prefix, spec, ffn),
        are_among(rest, tensors),
{
    let (layers, without_layers) = more_layers_taken(tensors, prefix, spec, Seq::empty())->Ok_0;
    more_layers_are_stored(
        tensors,
        tensors,
        prefix,
        spec,
        Seq::empty(),
        layers,
        without_layers,
    );
    norms_are_stored(without_layers, prefix + "_ffn_ln"@, spec.dim, ffn.norm, rest);
    norms_stay_stored(without_layers, tensors, prefix + "_ffn_ln"@, ffn.norm);
    fewer_tensors(rest, without_layers, tensors);
}

proof fn encoder_grows(
    tensors: Map<Seq<char>, TensorContents>,
    spec: NetworkSpec,
    done: Seq<EncoderContents>,
    layer: EncoderContents,
)
    requires
        holds_encoder(tensors, spec, done),
        holds_attention(
            tensors,
            "encoder_l"@ + decimal_text(done.len() + 1) + "_self"@,
            spec,
            layer.attention,
        ),
        holds_ffn(
            tensors,
            "encoder_l"@ + decimal_text(done.len() + 1) + "_ffn"@,
            spec,
            layer.ffn,
        ),
    ensures
        holds_encoder(tensors, spec, done.push(layer)),
{
    let longer = done.push(layer);
    assert forall|k: int| 0 <= k < longer.len() implies {
        let prefix = "encoder_l"@ + decimal_text((k + 1) as nat);
        &&& holds_attention(tensors, prefix + "_self"@, spec, (#[trigger] longer[k]).attention)
        &&& holds_ffn(tensors, prefix + "_ffn"@, spec, longer[k].ffn)
    } by {
        if k < done.len() {
            assert(longer[k] == done[k]);
        }
    }
}

#[verifier::spinoff_prover]
#[verifier::rlimit(60)]
proof fn more_encoder_is_stored(
    tensors: Map<Seq<char>, TensorContents>,
    all: Map<Seq<char>, TensorContents>,
    spec: NetworkSpec,
    done: Seq<EncoderContents>,
    layers: Seq<EncoderContents>,
    left: Map<Seq<char>, TensorContents>,
)
    requires
        are_among(tensors, all),
        holds_encoder(all, spec, done),
        done.len() <= spec.encoder_layers,
        more_encoder_taken(tensors, spec, done) == Ok::<
            (Seq<EncoderContents>, Map<Seq<char>, TensorContents>),
            LoadFault,
        >((layers, left)),
    ensures
        layers.len() == spec.encoder_layers,
        holds_encoder(all, spec, layers),
        are_among(left, all),
    decreases spec.encoder_layers - done.len(),
{
    if done.len() < spec.encoder_layers {
        let side = "encoder_l"@ + decimal_text(done.len() + 1);
        let (attention, without) = attention_taken(tensors, side + "_self"@, spec)->Ok_0;
        attentions_are_stored(tensors, side + "_self"@, spec, attention, without);
        attentions_stay_stored(tensors, all, side + "_self"@, spec, attention);
        fewer_tensors(without, tensors, all);
        let (ffn, rest) = ffn_taken(without, side + "_ffn"@, spec)->Ok_0;
        ffns_are_stored(without, side + "_ffn"@, spec, ffn, rest);
        ffns_stay_stored(without, all, side + "_ffn"@, spec, ffn);
        fewer_tensors(rest, without, all);
        let layer = EncoderContents { attention, ffn };
        encoder_grows(all, spec, done, layer);
        more_encoder_is_stored(rest, all, spec, done.push(layer), layers, left);
    }
}

proof fn ssrus_stay_stored(
    rest: Map<Seq<char>, TensorContents>,
    tensors: Map<Seq<char>, TensorContents>,
    prefix: Seq<char>,
    dim: usize,
    ssru: SsruContents,
)
    requires
        are_among(rest, tensors),
        holds_ssru(rest, prefix, dim, ssru),
    ensures
        holds_ssru(tensors, prefix, dim, ssru),
{
    linears_stay_stored(rest, tensors, prefix + "_W"@, None, ssru.candidate);
    linears_stay_stored(rest, tensors, prefix + "_Wf"@, Some(prefix + "_bf"@), ssru.forget);
    norms_stay_stored(rest, tensors, prefix + "_ffn_ln"@, ssru.norm);
}

proof fn decoder_grows(
    tensors: Map<Seq<char>, TensorContents>,
    spec: NetworkSpec,
    done: Seq<DecoderContents>,
    layer: DecoderContents,
)
    requires
        holds_decoder(tensors, spec, done),
        holds_ssru(
            tensors,
            "decoder_l"@ + decimal_text(done.len() + 1) + "_rnn"@,
            spec.dim,
            layer.ssru,
        ),
        holds_attention(
            tensors,
            "decoder_l"@ + decimal_text(done.len() + 1) + "_context"@,
            spec,
            layer.attention,
        ),
        holds_ffn(
            tensors,
            "decoder_l"@ + decimal_text(done.len() + 1) + "_ffn"@,
            spec,
            layer.ffn,
        ),
    ensures
        holds_decoder(tensors, spec, done.push(layer)),
{
    let longer = done.push(layer);
    assert forall|k: int| 0 <= k < longer.len() implies {
        let prefix = "decoder_l"@ + decimal_text((k + 1) as nat);
        &&& holds_ssru(tensors, prefix + "_rnn"@, spec.dim, (#[trigger] longer[k]).ssru)
        &&& holds_attention(tensors, prefix + "_context"@, spec, longer[k].attention)
        &&& holds_ffn(tensors, prefix + "_ffn"@, spec, longer[k].ffn)
    } by {
        if k < done.len() {
            assert(longer[k] == done[k]);
        }
    }
}

#[verifier::spinoff_prover]
#[verifier::rlimit(60)]
proof fn more_decoder_is_stored(
    tensors: Map<Seq<char>, TensorContents>,
    all: Map<Seq<char>, TensorContents>,
    spec: NetworkSpec,
    done: Seq<DecoderContents>,
    layers: Seq<DecoderContents>,
    left: Map<Seq<char>, TensorContents>,
)
    requires
        are_among(tensors, all),
        holds_decoder(all, spec, done),
        done.len() <= spec.decoder_layers,
        more_decoder_taken(tensors, spec, done) == Ok::<
            (Seq<DecoderContents>, Map<Seq<char>, TensorContents>),
            LoadFault,
        >((layers, left)),
    ensures
        layers.len() == spec.decoder_layers,
        holds_decoder(all, spec, layers),
    decreases spec.decoder_layers - done.len(),
{
    if done.len() < spec.decoder_layers {
        let side = "decoder_l"@ + decimal_text(done.len() + 1);
        let (ssru, without_ssru) = ssru_taken(tensors, side + "_rnn"@, spec.dim)->Ok_0;
        ssrus_are_stored(tensors, side + "_rnn"@, spec.dim, ssru, without_ssru);
        ssrus_stay_stored(tensors, all, side + "_rnn"@, spec.dim, ssru);
        fewer_tensors(without_ssru, tensors, all);
        let (attention, without) = attention_taken(without_ssru, side + "_context"@, spec)->Ok_0;
        attentions_are_stored(without_ssru, side + "_context"@, spec, attention, without);
        attentions_stay_stored(without_ssru, all, side + "_context"@, spec, attention);
        fewer_tensors(without, without_ssru, all);
        let (ffn, rest) = ffn_taken(without, side + "_ffn"@, spec)->Ok_0;
        ffns_are_stored(without, side + "_ffn"@, spec, ffn, rest);
        ffns_stay_stored(without, all, side + "_ffn"@, spec, ffn);
        fewer_tensors(rest, without, all);
        let layer = DecoderContents { ssru, attention, ffn };
        decoder_grows(all, spec, done, layer);
        more_decoder_is_stored(rest, all, spec, done.push(layer), layers, left);
    }
}

#[verifier::spinoff_prover]
#[verifier::rlimit(60)]
proof fn embeddings_are_stored(
    tensors: Map<Seq<char>, TensorContents>,
    tied_all: bool,
    spec: NetworkSpec,
    embeddings: (EmbeddingContents, EmbeddingContents),
    rest: Map<Seq<char>, TensorContents>,
)
    requires
        embeddings_taken(tensors, tied_all, spec) == Ok::<
            ((EmbeddingContents, EmbeddingContents), Map<Seq<char>, TensorContents>),
            LoadFault,
        >((embeddings, rest)),
    ensures
        tied_all ==> holds_embedding(
            tensors,
            "Wemb"@,
            spec.target_vocab,
            spec.dim,
            embeddings.0,
        ) && embeddings.1 == embeddings.0,
        !tied_all ==> holds_embedding(
            tensors,
            "encoder_Wemb"@,
            spec.source_vocab,
            spec.dim,
            embeddings.0,
        ) && holds_embedding(
            tensors,
            "decoder_Wemb"@,
            spec.target_vocab,
            spec.dim,
            embeddings.1,
        ),
        are_among(rest, tensors),
{
}

/// A compiled network has the dimensions of its configuration, and every
/// number of it is that of the archive's tensor with the name of its place:
/// encoder layer `k`, counted from one, comes from `encoder_lk_self` and
/// `encoder_lk_ffn`, decoder layer `k` from `decoder_lk_rnn`,
/// `decoder_lk_context` and `decoder_lk_ffn`, the embeddings from `Wemb` where
/// all are tied and else from `encoder_Wemb` and `decoder_Wemb`, and the output
/// bias from `decoder_ff_logit_out_b`.
#[verifier::spinoff_prover]
#[verifier::rlimit(60)]
pub proof fn networks_are_stored(
    config: ModelConfig,
    tensors: Map<Seq<char>, TensorContents>,
    network: NetworkContents,
)
    requires
        network_of(config, tensors) == Ok::<NetworkContents, LoadFault>(network),
    ensures
        network.spec.dim == config.dim_emb,
        network.spec.heads == config.transformer_heads,
        network.spec.ffn_dim == config.transformer_dim_ffn,
        network.spec.ffn_depth == config.transformer_ffn_depth,
        network.spec.encoder_layers == config.enc_depth,
        network.spec.decoder_layers == config.dec_depth,
        network.spec.source_vocab == config.dim_vocabs@[0],
        network.spec.target_vocab == config.dim_vocabs@[1],
        network.spec.heads > 0,
        network.spec.dim % network.spec.heads == 0,
        network.spec.ffn_depth > 0,
        network.encoder.len() == config.enc_depth,
        holds_encoder(tensors, network.spec, network.encoder),
        network.decoder.len() == config.dec_depth,
        holds_decoder(tensors, network.spec, network.decoder),
        holds_embedding(
            tensors,
            if config.tied_embeddings_all {
                "Wemb"@
            } else {
                "encoder_Wemb"@
            },
            config.dim_vocabs@[0],
            config.dim_emb,
            network.source_embedding,
        ),
        holds_embedding(
            tensors,
            if config.tied_embeddings_all {
                "Wemb"@
            } else {
                "decoder_Wemb"@
            },
            config.dim_vocabs@[1],
            config.dim_emb,
            network.target_embedding,
        ),
        network.output.embedding == network.target_embedding,
        tensors.contains_key("decoder_ff_logit_out_b"@),
        tensors["decoder_ff_logit_out_b"@].data == DataContents::F32(network.output.bias),
        network.output.bias.len() == config.dim_vocabs@[1],
        holds_scale(
            tensors,
            if config.tied_embeddings_all {
                "Wemb"@ + "_QuantMultA"@
            } else {
                "decoder_Wemb"@ + "_QuantMultA"@
            },
            network.output.activation_multiplier,
        ),
{
    let spec = network.spec;
    let tied_all = config.tied_embeddings_all;
    let (embeddings, without_embeddings) = embeddings_taken(tensors, tied_all, spec)->Ok_0;
    embeddings_are_stored(tensors, tied_all, spec, embeddings, without_embeddings);
    let (bias, without_bias) = floats_taken(without_embeddings, "decoder_ff_logit_out_b"@)->Ok_0;
    scales_are_stored(without_bias, scale_name(output_weight_name(tied_all)));
    let (multiplier, rest) = scalar_taken(
        without_bias,
        scale_name(output_weight_name(tied_all)),
    )->Ok_0;
    let (encoder, left) = more_encoder_taken(rest, spec, Seq::empty())->Ok_0;
    more_encoder_is_stored(rest, tensors, spec, Seq::empty(), encoder, left);
    let (decoder, unused) = more_decoder_taken(left, spec, Seq::empty())->Ok_0;
    more_decoder_is_stored(left, tensors, spec, Seq::empty(), decoder, unused);
}

/// A transform can be compiled from its numbers.
pub open spec fn compiles(linear: LinearContents) -> bool {
    &&& linear.weights.len() == linear.input_dim * linear.output_dim
    &&& linear.input_dim * linear.output_dim <= usize::MAX
    &&& linear.activation_multiplier.usable()
    &&& crate::ieee::finite_and_positive(linear.weight_multiplier)
}

/// A name starts with a prefix.
pub open spec fn starts_with(name: Seq<char>, prefix: Seq<char>) -> bool {
    prefix.len() <= name.len() && name.take(prefix.len() as int) == prefix
}

/// Tensors are left over that are among the given ones, with all whose names do
/// not start with a prefix.
pub open spec fn are_left(
    rest: Map<Seq<char>, TensorContents>,
    tensors: Map<Seq<char>, TensorContents>,
    prefix: Seq<char>,
) -> bool {
    &&& are_among(rest, tensors)
    &&& forall|name: Seq<char>| #[trigger]
        rest.contains_key(name) || !tensors.contains_key(name) || starts_with(name, prefix)
}

proof fn joined_names(prefix: Seq<char>, tail: Seq<char>)
    ensures
        starts_with(prefix + tail, prefix),
        (prefix + tail).len() == prefix.len() + tail.len(),
        forall|k: int|
            0 <= k < tail.len() ==> (prefix + tail)[prefix.len() + k] == #[trigger] tail[k],
{
    assert((prefix + tail).take(prefix.len() as int) =~= prefix);
}

/// A transform whose numbers are stored under its names is compiled, where the
/// names differ; only its own tensors are taken out.
pub proof fn stored_linears_compile(
    tensors: Map<Seq<char>, TensorContents>,
    weight_name: Seq<char>,
    bias_name: Option<Seq<char>>,
    linear: LinearContents,
) -> (rest: Map<Seq<char>, TensorContents>)
    requires
        holds_linear(tensors, weight_name, bias_name, linear),
        compiles(linear),
        bias_name matches Some(name) ==> name != weight_name && name != weight_name
            + "_QuantMultA"@,
    ensures
        linear_taken(tensors, weight_name, bias_name) == Ok::<
            (LinearContents, Map<Seq<char>, TensorContents>),
            LoadFault,
        >((linear, rest)),
        are_among(rest, tensors),
        forall|name: Seq<char>| #[trigger]
            rest.contains_key(name) || !tensors.contains_key(name) || name == weight_name || name
                == weight_name + "_QuantMultA"@ || Some(name) == bias_name,
{
    let scale = weight_name + "_QuantMultA"@;
    reveal_strlit("_QuantMultA");
    assert(scale.len() != weight_name.len());
    let rest = tensors.remove(scale).remove(weight_name);
    if bias_name is None {
        assert(linear.bias =~= crate::inference::backend::zeros(linear.output_dim as nat));
        rest
    } else {
        rest.remove(bias_name->0)
    }
}

proof fn stored_norms_compile(
    tensors: Map<Seq<char>, TensorContents>,
    prefix: Seq<char>,
    norm: NormContents,
) -> (rest: Map<Seq<char>, TensorContents>)
    requires
        holds_norm(tensors, prefix, norm),
    ensures
        norm_taken(tensors, prefix, norm.dim) == Ok::<
            (NormContents, Map<Seq<char>, TensorContents>),
            LoadFault,
        >((norm, rest)),
        are_among(rest, tensors),
        forall|name: Seq<char>| #[trigger]
            rest.contains_key(name) || !tensors.contains_key(name) || name == prefix + "_scale"@
                || name == prefix + "_bias"@,
{
    reveal_strlit("_scale");
    reveal_strlit("_bias");
    assert((prefix + "_scale"@).len() != (prefix + "_bias"@).len());
    tensors.remove(prefix + "_scale"@).remove(prefix + "_bias"@)
}

proof fn linears_survive(
    tensors: Map<Seq<char>, TensorContents>,
    rest: Map<Seq<char>, TensorContents>,
    weight_name: Seq<char>,
    bias_name: Option<Seq<char>>,
    linear: LinearContents,
)
    requires
        holds_linear(tensors, weight_name, bias_name, linear),
        are_among(rest, tensors),
        rest.contains_key(weight_name),
        rest.contains_key(weight_name + "_QuantMultA"@),
        bias_name matches Some(name) ==> rest.contains_key(name),
    ensures
        holds_linear(rest, weight_name, bias_name, linear),
{
    let scale = weight_name + "_QuantMultA"@;
    assert(holds_scale(tensors, scale, linear.activation_multiplier));
    assert(tensors[scale] == rest[scale]);
    assert(tensors[weight_name] == rest[weight_name]);
    if let Some(name) = bias_name {
        assert(tensors[name] == rest[name]);
    }
}

proof fn norms_survive(
    tensors: Map<Seq<char>, TensorContents>,
    rest: Map<Seq<char>, TensorContents>,
    prefix: Seq<char>,
    norm: NormContents,
)
    requires
        holds_norm(tensors, prefix, norm),
        are_among(rest, tensors),
        rest.contains_key(prefix + "_scale"@),
        rest.contains_key(prefix + "_bias"@),
    ensures
        holds_norm(rest, prefix, norm),
{
    assert(tensors[prefix + "_scale"@] == rest[prefix + "_scale"@]);
    assert(tensors[prefix + "_bias"@] == rest[prefix + "_bias"@]);
}

/// What tells the names of a block apart: their length and two characters.
spec fn mark(name: Seq<char>, start: int) -> (int, char, char) {
    (name.len() - start, name[start + 1], name[start + 2])
}

proof fn tails_have_marks(prefix: Seq<char>, tail: Seq<char>, more: Seq<char>)
    requires
        tail.len() >= 3,
    ensures
        mark(prefix + tail, prefix.len() as int) == (tail.len() as int, tail[1], tail[2]),
        mark(prefix + tail + more, prefix.len() as int) == (
            (tail.len() + more.len()) as int,
            tail[1],
            tail[2],
        ),
        starts_with(prefix + tail, prefix),
        starts_with(prefix + tail + more, prefix),
{
    joined_names(prefix, tail);
    joined_names(prefix + tail, more);
    assert((prefix + tail + more).take(prefix.len() as int) =~= prefix);
}

#[verifier::spinoff_prover]
#[verifier::rlimit(60)]
proof fn attention_names_differ(prefix: Seq<char>)
    ensures
        ({
            let start = prefix.len() as int;
            &&& mark(prefix + "_Wq"@, start) == (3int, 'W', 'q')
            &&& mark(prefix + "_Wq"@ + "_QuantMultA"@, start) == (14int, 'W', 'q')
            &&& mark(prefix + "_bq"@, start) == (3int, 'b', 'q')
            &&& mark(prefix + "_Wk"@, start) == (3int, 'W', 'k')
            &&& mark(prefix + "_Wk"@ + "_QuantMultA"@, start) == (14int, 'W', 'k')
            &&& mark(prefix + "_bk"@, start) == (3int, 'b', 'k')
            &&& mark(prefix + "_Wv"@, start) == (3int, 'W', 'v')
            &&& mark(prefix + "_Wv"@ + "_QuantMultA"@, start) == (14int, 'W', 'v')
            &&& mark(prefix + "_bv"@, start) == (3int, 'b', 'v')
            &&& mark(prefix + "_Wo"@, start) == (3int, 'W', 'o')
            &&& mark(prefix + "_Wo"@ + "_QuantMultA"@, start) == (14int, 'W', 'o')
            &&& mark(prefix + "_bo"@, start) == (3int, 'b', 'o')
            &&& mark(prefix + "_Wo_ln"@ + "_scale"@, start) == (12int, 'W', 'o')
            &&& mark(prefix + "_Wo_ln"@ + "_bias"@, start) == (11int, 'W', 'o')
        }),
        starts_with(prefix + "_Wq"@, prefix),
        starts_with(prefix + "_Wq"@ + "_QuantMultA"@, prefix),
        starts_with(prefix + "_bq"@, prefix),
        starts_with(prefix + "_Wk"@, prefix),
        starts_with(prefix + "_Wk"@ + "_QuantMultA"@, prefix),
        starts_with(prefix + "_bk"@, prefix),
        starts_with(prefix + "_Wv"@, prefix),
        starts_with(prefix + "_Wv"@ + "_QuantMultA"@, prefix),
        starts_with(prefix + "_bv"@, prefix),
        starts_with(prefix + "_Wo"@, prefix),
        starts_with(prefix + "_Wo"@ + "_QuantMultA"@, prefix),
        starts_with(prefix + "_bo"@, prefix),
        starts_with(prefix + "_Wo_ln"@ + "_scale"@, prefix),
        starts_with(prefix + "_Wo_ln"@ + "_bias"@, prefix),
{
    reveal_strlit("_QuantMultA");
    reveal_strlit("_scale");
    reveal_strlit("_bias");
    reveal_strlit("_Wq");
    reveal_strlit("_bq");
    reveal_strlit("_Wk");
    reveal_strlit("_bk");
    reveal_strlit("_Wv");
    reveal_strlit("_bv");
    reveal_strlit("_Wo");
    reveal_strlit("_bo");
    reveal_strlit("_Wo_ln");
    tails_have_marks(prefix, "_Wq"@, "_QuantMultA"@);
    tails_have_marks(prefix, "_bq"@, "_QuantMultA"@);
    tails_have_marks(prefix, "_Wk"@, "_QuantMultA"@);
    tails_have_marks(prefix, "_bk"@, "_QuantMultA"@);
    tails_have_marks(prefix, "_Wv"@, "_QuantMultA"@);
    tails_have_marks(prefix, "_bv"@, "_QuantMultA"@);
    tails_have_marks(prefix, "_Wo"@, "_QuantMultA"@);
    tails_have_marks(prefix, "_bo"@, "_QuantMultA"@);
    tails_have_marks(prefix, "_Wo_ln"@, "_scale"@);
    tails_have_marks(prefix, "_Wo_ln"@, "_bias"@);
}

/// The transforms of an attention block can be compiled.
pub open spec fn attention_compiles(spec: NetworkSpec, attention: AttentionContents) -> bool {
    &&& compiles(attention.query)
    &&& compiles(attention.key)
    &&& compiles(attention.value)
    &&& compiles(attention.output)
    &&& attention.head_dim == spec.dim / spec.heads
}

/// An attention block whose numbers are stored under its names is compiled;
/// only tensors with its prefix are taken out.
#[verifier::spinoff_prover]
#[verifier::rlimit(60)]
pub proof fn stored_attentions_compile(
    tensors: Map<Seq<char>, TensorContents>,
    prefix: Seq<char>,
    spec: NetworkSpec,
    attention: AttentionContents,
) -> (rest: Map<Seq<char>, TensorContents>)
    requires
        holds_attention(tensors, prefix, spec, attention),
        attention_compiles(spec, attention),
    ensures
        attention_taken(tensors, prefix, spec) == Ok::<
            (AttentionContents, Map<Seq<char>, TensorContents>),
            LoadFault,
        >((attention, rest)),
        are_left(rest, tensors, prefix),
{
    attention_names_differ(prefix);
    let (wq, bq) = (prefix + "_Wq"@, Some(prefix + "_bq"@));
    let (wk, bk) = (prefix + "_Wk"@, Some(prefix + "_bk"@));
    let (wv, bv) = (prefix + "_Wv"@, Some(prefix + "_bv"@));
    let (wo, bo) = (prefix + "_Wo"@, Some(prefix + "_bo"@));
    let ln = prefix + "_Wo_ln"@;
    let without_query = stored_linears_compile(tensors, wq, bq, attention.query);
    linears_survive(tensors, without_query, wk, bk, attention.key);
    linears_survive(tensors, without_query, wv, bv, attention.value);
    linears_survive(tensors, without_query, wo, bo, attention.output);
    norms_survive(tensors, without_query, ln, attention.norm);
    let without_key = stored_linears_compile(without_query, wk, bk, attention.key);
    linears_survive(without_query, without_key, wv, bv, attention.value);
    linears_survive(without_query, without_key, wo, bo, attention.output);
    norms_survive(without_query, without_key, ln, attention.norm);
    let without_value = stored_linears_compile(without_key, wv, bv, attention.value);
    linears_survive(without_key, without_value, wo, bo, attention.output);
    norms_survive(without_key, without_value, ln, attention.norm);
    let without_output = stored_linears_compile(without_value, wo, bo, attention.output);
    norms_survive(without_value, without_output, ln, attention.norm);
    let rest = stored_norms_compile(without_output, ln, attention.norm);
    rest
}

proof fn ssru_names_differ(prefix: Seq<char>)
    ensures
        ({
            let start = prefix.len() as int;
            &&& (prefix + "_W"@).len() == start + 2
            &&& (prefix + "_W"@ + "_QuantMultA"@).len() == start + 13
            &&& (prefix + "_W"@ + "_QuantMultA"@)[start + 1] == 'W'
            &&& mark(prefix + "_Wf"@, start) == (3int, 'W', 'f')
            &&& mark(prefix + "_Wf"@ + "_QuantMultA"@, start) == (14int, 'W', 'f')
            &&& mark(prefix + "_bf"@, start) == (3int, 'b', 'f')
            &&& mark(prefix + "_ffn_ln"@ + "_scale"@, start) == (13int, 'f', 'f')
            &&& mark(prefix + "_ffn_ln"@ + "_bias"@, start) == (12int, 'f', 'f')
        }),
        starts_with(prefix + "_W"@, prefix),
        starts_with(prefix + "_W"@ + "_QuantMultA"@, prefix),
        starts_with(prefix + "_Wf"@, prefix),
        starts_with(prefix + "_Wf"@ + "_QuantMultA"@, prefix),
        starts_with(prefix + "_bf"@, prefix),
        starts_with(prefix + "_ffn_ln"@ + "_scale"@, prefix),
        starts_with(prefix + "_ffn_ln"@ + "_bias"@, prefix),
{
    reveal_strlit("_QuantMultA");
    reveal_strlit("_scale");
    reveal_strlit("_bias");
    reveal_strlit("_W");
    reveal_strlit("_Wf");
    reveal_strlit("_bf");
    reveal_strlit("_ffn_ln");
    joined_names(prefix, "_W"@);
    joined_names(prefix + "_W"@, "_QuantMultA"@);
    assert((prefix + "_W"@ + "_QuantMultA"@).take(prefix.len() as int) =~= prefix);
    tails_have_marks(prefix, "_Wf"@, "_QuantMultA"@);
    tails_have_marks(prefix, "_bf"@, "_QuantMultA"@);
    tails_have_marks(prefix, "_ffn_ln"@, "_scale"@);
    tails_have_marks(prefix, "_ffn_ln"@, "_bias"@);
}

/// A recurrent unit whose numbers are stored under its names is compiled; only
/// tensors with its prefix are taken out.
#[verifier::spinoff_prover]
#[verifier::rlimit(60)]
pub proof fn stored_ssrus_compile(
    tensors: Map<Seq<char>, TensorContents>,
    prefix: Seq<char>,
    dim: usize,
    ssru: SsruContents,
) -> (rest: Map<Seq<char>, TensorContents>)
    requires
        holds_ssru(tensors, prefix, dim, ssru),
        compiles(ssru.candidate),
        compiles(ssru.forget),
    ensures
        ssru_taken(tensors, prefix, dim) == Ok::<
            (SsruContents, Map<Seq<char>, TensorContents>),
            LoadFault,
        >((ssru, rest)),
        are_left(rest, tensors, prefix),
{
    ssru_names_differ(prefix);
    let (wf, bf) = (prefix + "_Wf"@, Some(prefix + "_bf"@));
    let ln = prefix + "_ffn_ln"@;
    let without_candidate = stored_linears_compile(tensors, prefix + "_W"@, None, ssru.candidate);
    linears_survive(tensors, without_candidate, wf, bf, ssru.forget);
    norms_survive(tensors, without_candidate, ln, ssru.norm);
    let without_forget = stored_linears_compile(without_candidate, wf, bf, ssru.forget);
    norms_survive(without_candidate, without_forget, ln, ssru.norm);
    let rest = stored_norms_compile(without_forget, ln, ssru.norm);
    rest
}

/// The tensors whose names start with a prefix are still there.
pub open spec fn are_kept(
    rest: Map<Seq<char>, TensorContents>,
    tensors: Map<Seq<char>, TensorContents>,
    prefix: Seq<char>,
) -> bool {
    &&& are_among(rest, tensors)
    &&& forall|name: Seq<char>| #[trigger]
        rest.contains_key(name) || !tensors.contains_key(name) || !starts_with(name, prefix)
}

proof fn longer_names_start(prefix: Seq<char>, tail: Seq<char>, name: Seq<char>)
    requires
        starts_with(name, prefix + tail),
    ensures
        starts_with(name, prefix),
{
    assert(name.take(prefix.len() as int) =~= (prefix + tail).take(prefix.len() as int));
    assert((prefix + tail).take(prefix.len() as int) =~= prefix);
}

proof fn numbers_differ(one: nat, other: nat)
    ensures
        one != other ==> decimal_text(one) != decimal_text(other),
        forall|k: int|
            0 <= k < decimal_text(one).len() ==> #[trigger] decimal_text(one)[k] != '_',
        decimal_text(one).len() >= 1,
{
    digits_write_numbers(one, 10);
    digits_write_numbers(other, 10);
}

/// Different parts behind the same beginning, which differ in a character, have
/// different names.
proof fn parts_differ(base: Seq<char>, one: Seq<char>, other: Seq<char>, at: int)
    requires
        0 <= at < one.len(),
        at < other.len(),
        one[at] != other[at],
    ensures
        forall|name: Seq<char>| #[trigger]
            starts_with(name, base + one) ==> !starts_with(name, base + other),
{
    assert forall|name: Seq<char>| #[trigger] starts_with(name, base + one) implies !starts_with(
        name,
        base + other,
    ) by {
        if starts_with(name, base + other) {
            let place = base.len() + at;
            assert((base + one)[place] == one[at]);
            assert((base + other)[place] == other[at]);
            assert(name.take((base + one).len() as int)[place] == name[place]);
            assert(name.take((base + other).len() as int)[place] == name[place]);
        }
    }
}

/// Layers with different numbers have different names.
proof fn layers_differ(
    side: Seq<char>,
    one: nat,
    part: Seq<char>,
    other: nat,
    other_part: Seq<char>,
)
    requires
        one != other,
        part.len() > 0,
        part[0] == '_',
        other_part.len() > 0,
        other_part[0] == '_',
    ensures
        forall|name: Seq<char>| #[trigger]
            starts_with(name, side + decimal_text(one) + part) ==> !starts_with(
                name,
                side + decimal_text(other) + other_part,
            ),
{
    let left = decimal_text(one);
    let right = decimal_text(other);
    numbers_differ(one, other);
    numbers_differ(other, one);
    assert forall|name: Seq<char>| #[trigger]
        starts_with(name, side + left + part) implies !starts_with(
        name,
        side + right + other_part,
    ) by {
        if starts_with(name, side + right + other_part) {
            let start = side.len() as int;
            let p = side + left + part;
            let q = side + right + other_part;
            assert(forall|k: int| 0 <= k < p.len() ==> p[k] == name.take(p.len() as int)[k]);
            assert(forall|k: int| 0 <= k < q.len() ==> q[k] == name.take(q.len() as int)[k]);
            assert(p[start + left.len()] == '_');
            assert(q[start + right.len()] == '_');
            assert(name[start + left.len()] == '_');
            assert(name[start + right.len()] == '_');
            if left.len() < right.len() {
                assert(q[start + left.len()] == right[left.len() as int]);
            } else if right.len() < left.len() {
                assert(p[start + right.len()] == left[right.len() as int]);
            } else {
                assert forall|k: int| 0 <= k < left.len() implies left[k] == right[k] by {
                    assert(p[start + k] == left[k]);
                    assert(q[start + k] == right[k]);
                    assert(name[start + k] == left[k]);
                    assert(name[start + k] == right[k]);
                }
                assert(left =~= right);
            }
        }
    }
}

proof fn kept_apart(
    rest: Map<Seq<char>, TensorContents>,
    tensors: Map<Seq<char>, TensorContents>,
    taken: Seq<char>,
    prefix: Seq<char>,
)
    requires
        are_left(rest, tensors, taken),
        forall|name: Seq<char>| #[trigger]
            starts_with(name, prefix) ==> !starts_with(name, taken),
    ensures
        are_kept(rest, tensors, prefix),
{
}

proof fn attentions_survive(
    tensors: Map<Seq<char>, TensorContents>,
    rest: Map<Seq<char>, TensorContents>,
    prefix: Seq<char>,
    spec: NetworkSpec,
    attention: AttentionContents,
)
    requires
        holds_attention(tensors, prefix, spec, attention),
        are_kept(rest, tensors, prefix),
    ensures
        holds_attention(rest, prefix, spec, attention),
{
    attention_names_differ(prefix);
    linears_survive(tensors, rest, prefix + "_Wq"@, Some(prefix + "_bq"@), attention.query);
    linears_survive(tensors, rest, prefix + "_Wk"@, Some(prefix + "_bk"@), attention.key);
    linears_survive(tensors, rest, prefix + "_Wv"@, Some(prefix + "_bv"@), attention.value);
    linears_survive(tensors, rest, prefix + "_Wo"@, Some(prefix + "_bo"@), attention.output);
    norms_survive(tensors, rest, prefix + "_Wo_ln"@, attention.norm);
}

proof fn ssrus_survive(
    tensors: Map<Seq<char>, TensorContents>,
    rest: Map<Seq<char>, TensorContents>,
    prefix: Seq<char>,
    dim: usize,
    ssru: SsruContents,
)
    requires
        holds_ssru(tensors, prefix, dim, ssru),
        are_kept(rest, tensors, prefix),
    ensures
        holds_ssru(rest, prefix, dim, ssru),
{
    ssru_names_differ(prefix);
    linears_survive(tensors, rest, prefix + "_W"@, None, ssru.candidate);
    linears_survive(tensors, rest, prefix + "_Wf"@, Some(prefix + "_bf"@), ssru.forget);
    norms_survive(tensors, rest, prefix + "_ffn_ln"@, ssru.norm);
}

proof fn ffn_names_have_kinds(prefix: Seq<char>, depth: nat)
    ensures
        ({
            let start = prefix.len() as int;
            let weight = prefix + "_W"@ + decimal_text(depth);
            let bias = prefix + "_b"@ + decimal_text(depth);
            let scale = weight + "_QuantMultA"@;
            &&& starts_with(weight, prefix) && starts_with(bias, prefix) && starts_with(
                scale,
                prefix,
            )
            &&& weight.len() == start + 2 + decimal_text(depth).len()
            &&& bias.len() == start + 2 + decimal_text(depth).len()
            &&& scale.len() == weight.len() + 11
            &&& weight[start + 1] == 'W'
            &&& scale[start + 1] == 'W'
            &&& bias[start + 1] == 'b'
            &&& scale[start + 2 + decimal_text(depth).len()] == '_'
            &&& forall|k: int|
                0 <= k < decimal_text(depth).len() ==> weight[start + 2 + k]
                    == #[trigger] decimal_text(depth)[k] && bias[start + 2 + k] == decimal_text(
                    depth,
                )[k] && scale[start + 2 + k] == decimal_text(depth)[k]
        }),
{
    reveal_strlit("_W");
    reveal_strlit("_b");
    reveal_strlit("_QuantMultA");
    let weight = prefix + "_W"@ + decimal_text(depth);
    let bias = prefix + "_b"@ + decimal_text(depth);
    assert(weight.take(prefix.len() as int) =~= prefix);
    assert(bias.take(prefix.len() as int) =~= prefix);
    assert((weight + "_QuantMultA"@).take(prefix.len() as int) =~= prefix);
}

proof fn ffn_names_differ(prefix: Seq<char>, one: nat, other: nat)
    requires
        one != other,
    ensures
        ({
            let weight = prefix + "_W"@ + decimal_text(one);
            let bias = prefix + "_b"@ + decimal_text(one);
            let other_weight = prefix + "_W"@ + decimal_text(other);
            let other_bias = prefix + "_b"@ + decimal_text(other);
            &&& weight != other_weight
            &&& weight != other_weight + "_QuantMultA"@
            &&& weight + "_QuantMultA"@ != other_weight
            &&& weight + "_QuantMultA"@ != other_weight + "_QuantMultA"@
            &&& bias != other_bias
        }),
{
    let start = prefix.len() as int;
    let weight = prefix + "_W"@ + decimal_text(one);
    let bias = prefix + "_b"@ + decimal_text(one);
    let other_weight = prefix + "_W"@ + decimal_text(other);
    let other_bias = prefix + "_b"@ + decimal_text(other);
    let left = decimal_text(one);
    let right = decimal_text(other);
    numbers_differ(one, other);
    numbers_differ(other, one);
    ffn_names_have_kinds(prefix, one);
    ffn_names_have_kinds(prefix, other);
    if left.len() == right.len() {
        let k = choose|k: int| 0 <= k < left.len() && left[k] != right[k];
        if forall|k: int| 0 <= k < left.len() ==> left[k] == right[k] {
            assert(left =~= right);
        }
        assert(weight[start + 2 + k] == left[k] && other_weight[start + 2 + k] == right[k]);
        assert(bias[start + 2 + k] == left[k] && other_bias[start + 2 + k] == right[k]);
    } else {
        if left.len() > right.len() {
            assert(left[right.len() as int] != '_');
        } else {
            assert(right[left.len() as int] != '_');
        }
    }
}

proof fn norm_names_have_kinds(prefix: Seq<char>)
    ensures
        starts_with(prefix + "_ffn_ln"@ + "_scale"@, prefix),
        starts_with(prefix + "_ffn_ln"@ + "_bias"@, prefix),
        (prefix + "_ffn_ln"@ + "_scale"@)[prefix.len() as int + 1] == 'f',
        (prefix + "_ffn_ln"@ + "_bias"@)[prefix.len() as int + 1] == 'f',
{
    ssru_names_differ(prefix);
}

/// The transforms behind some number are stored and can be compiled.
spec fn later_layers_hold(
    tensors: Map<Seq<char>, TensorContents>,
    prefix: Seq<char>,
    spec: NetworkSpec,
    layers: Seq<LinearContents>,
    done: int,
) -> bool {
    forall|k: int|
        done <= k < layers.len() ==> {
            &&& holds_linear(
                tensors,
                prefix + "_W"@ + decimal_text((k + 1) as nat),
                Some(prefix + "_b"@ + decimal_text((k + 1) as nat)),
                #[trigger] layers[k],
            )
            &&& compiles(layers[k])
            &&& has_shape(layers[k], ffn_input(spec, k + 1), ffn_output(spec, k + 1))
        }
}

#[verifier::spinoff_prover]
#[verifier::rlimit(60)]
proof fn stored_layers_compile(
    tensors: Map<Seq<char>, TensorContents>,
    prefix: Seq<char>,
    spec: NetworkSpec,
    layers: Seq<LinearContents>,
    done: int,
) -> (rest: Map<Seq<char>, TensorContents>)
    requires
        layers.len() == spec.ffn_depth,
        0 <= done <= layers.len(),
        later_layers_hold(tensors, prefix, spec, layers, done),
    ensures
        more_layers_taken(tensors, prefix, spec, layers.take(done)) == Ok::<
            (Seq<LinearContents>, Map<Seq<char>, TensorContents>),
            LoadFault,
        >((layers, rest)),
        are_among(rest, tensors),
        forall|name: Seq<char>| #[trigger]
            rest.contains_key(name) || !tensors.contains_key(name) || (starts_with(name, prefix) && (
            name[prefix.len() as int + 1] == 'W' || name[prefix.len() as int + 1] == 'b')),
    decreases layers.len() - done,
{
    if done == layers.len() {
        assert(layers.take(done) =~= layers);
        tensors
    } else {
        let depth = (done + 1) as nat;
        let linear = layers[done];
        let weight = prefix + "_W"@ + decimal_text(depth);
        let bias = prefix + "_b"@ + decimal_text(depth);
        ffn_names_have_kinds(prefix, depth);
        let without = stored_linears_compile(tensors, weight, Some(bias), linear);
        assert(later_layers_hold(without, prefix, spec, layers, done + 1)) by {
            assert forall|k: int| done + 1 <= k < layers.len() implies holds_linear(
                without,
                prefix + "_W"@ + decimal_text((k + 1) as nat),
                Some(prefix + "_b"@ + decimal_text((k + 1) as nat)),
                #[trigger] layers[k],
            ) by {
                ffn_names_have_kinds(prefix, (k + 1) as nat);
                ffn_names_differ(prefix, (k + 1) as nat, depth);
                linears_survive(
                    tensors,
                    without,
                    prefix + "_W"@ + decimal_text((k + 1) as nat),
                    Some(prefix + "_b"@ + decimal_text((k + 1) as nat)),
                    layers[k],
                );
            }
        }
        let rest = stored_layers_compile(without, prefix, spec, layers, done + 1);
        assert(layers.take(done).push(linear) =~= layers.take(done + 1));
        rest
    }
}

/// The transforms of a feed-forward block can be compiled.
pub open spec fn ffn_compiles(ffn: FeedForwardContents) -> bool {
    forall|k: int| 0 <= k < ffn.layers.len() ==> compiles(#[trigger] ffn.layers[k])
}

/// A feed-forward block whose numbers are stored under its names is compiled;
/// only tensors with its prefix are taken out.
#[verifier::spinoff_prover]
#[verifier::rlimit(60)]
pub proof fn stored_ffns_compile(
    tensors: Map<Seq<char>, TensorContents>,
    prefix: Seq<char>,
    spec: NetworkSpec,
    ffn: FeedForwardContents,
) -> (rest: Map<Seq<char>, TensorContents>)
    requires
        holds_ffn(tensors, prefix, spec, ffn),
        ffn_compiles(ffn),
    ensures
        ffn_taken(tensors, prefix, spec) == Ok::<
            (FeedForwardContents, Map<Seq<char>, TensorContents>),
            LoadFault,
        >((ffn, rest)),
        are_left(rest, tensors, prefix),
{
    assert(later_layers_hold(tensors, prefix, spec, ffn.layers, 0));
    let without = stored_layers_compile(tensors, prefix, spec, ffn.layers, 0);
    assert(ffn.layers.take(0) =~= Seq::<LinearContents>::empty());
    norm_names_have_kinds(prefix);
    norms_survive(tensors, without, prefix + "_ffn_ln"@, ffn.norm);
    stored_norms_compile(without, prefix + "_ffn_ln"@, ffn.norm)
}

proof fn ffns_survive(
    tensors: Map<Seq<char>, TensorContents>,
    rest: Map<Seq<char>, TensorContents>,
    prefix: Seq<char>,
    spec: NetworkSpec,
    ffn: FeedForwardContents,
)
    requires
        holds_ffn(tensors, prefix, spec, ffn),
        are_kept(rest, tensors, prefix),
    ensures
        holds_ffn(rest, prefix, spec, ffn),
{
    norm_names_have_kinds(prefix);
    norms_survive(tensors, rest, prefix + "_ffn_ln"@, ffn.norm);
    let layers = ffn.layers;
    assert forall|k: int| 0 <= k < layers.len() implies holds_linear(
        rest,
        prefix + "_W"@ + decimal_text((k + 1) as nat),
        Some(prefix + "_b"@ + decimal_text((k + 1) as nat)),
        #[trigger] layers[k],
    ) by {
        ffn_names_have_kinds(prefix, (k + 1) as nat);
        linears_survive(
            tensors,
            rest,
            prefix + "_W"@ + decimal_text((k + 1) as nat),
            Some(prefix + "_b"@ + decimal_text((k + 1) as nat)),
            layers[k],
        );
    }
}

proof fn left_widely(
    rest: Map<Seq<char>, TensorContents>,
    tensors: Map<Seq<char>, TensorContents>,
    prefix: Seq<char>,
    tail: Seq<char>,
)
    requires
        are_left(rest, tensors, prefix + tail),
    ensures
        are_left(rest, tensors, prefix),
{
    assert forall|name: Seq<char>| #[trigger]
        rest.contains_key(name) || !tensors.contains_key(name) || starts_with(name, prefix) by {
        if starts_with(name, prefix + tail) {
            longer_names_start(prefix, tail, name);
        }
    }
}

proof fn left_in_turn(
    rest: Map<Seq<char>, TensorContents>,
    some: Map<Seq<char>, TensorContents>,
    tensors: Map<Seq<char>, TensorContents>,
    prefix: Seq<char>,
)
    requires
        are_left(rest, some, prefix),
        are_left(some, tensors, prefix),
    ensures
        are_left(rest, tensors, prefix),
{
    fewer_tensors(rest, some, tensors);
    assert forall|name: Seq<char>| #[trigger]
        rest.contains_key(name) || !tensors.contains_key(name) || starts_with(name, prefix) by {
        assert(some.contains_key(name) || !tensors.contains_key(name) || starts_with(name, prefix));
    }
}

/// The encoder layers behind some number are stored and can be compiled.
spec fn later_encoder_holds(
    tensors: Map<Seq<char>, TensorContents>,
    spec: NetworkSpec,
    layers: Seq<EncoderContents>,
    done: int,
) -> bool {
    forall|k: int|
        done <= k < layers.len() ==> {
            let prefix = "encoder_l"@ + decimal_text((k + 1) as nat);
            &&& holds_attention(
                tensors,
                prefix + "_self"@,
                spec,
                (#[trigger] layers[k]).attention,
            )
            &&& holds_ffn(tensors, prefix + "_ffn"@, spec, layers[k].ffn)
            &&& attention_compiles(spec, layers[k].attention)
            &&& ffn_compiles(layers[k].ffn)
        }
}

proof fn encoder_parts_differ(one: nat, other: nat)
    ensures
        ({
            let base = "encoder_l"@ + decimal_text(one);
            let later = "encoder_l"@ + decimal_text(other);
            &&& forall|name: Seq<char>| #[trigger]
                starts_with(name, base + "_ffn"@) ==> !starts_with(name, base + "_self"@)
            &&& one != other ==> forall|name: Seq<char>| #[trigger]
                starts_with(name, later + "_self"@) ==> !starts_with(name, base + "_self"@)
                    && !starts_with(name, base + "_ffn"@)
            &&& one != other ==> forall|name: Seq<char>| #[trigger]
                starts_with(name, later + "_ffn"@) ==> !starts_with(name, base + "_self"@)
                    && !starts_with(name, base + "_ffn"@)
        }),
{
    reveal_strlit("_self");
    reveal_strlit("_ffn");
    parts_differ("encoder_l"@ + decimal_text(one), "_ffn"@, "_self"@, 1);
    if one != other {
        layers_differ("encoder_l"@, other, "_self"@, one, "_self"@);
        layers_differ("encoder_l"@, other, "_self"@, one, "_ffn"@);
        layers_differ("encoder_l"@, other, "_ffn"@, one, "_self"@);
        layers_differ("encoder_l"@, other, "_ffn"@, one, "_ffn"@);
    }
}

#[verifier::spinoff_prover]
#[verifier::rlimit(60)]
proof fn stored_encoder_compiles(
    tensors: Map<Seq<char>, TensorContents>,
    spec: NetworkSpec,
    layers: Seq<EncoderContents>,
    done: int,
) -> (rest: Map<Seq<char>, TensorContents>)
    requires
        layers.len() == spec.encoder_layers,
        0 <= done <= layers.len(),
        later_encoder_holds(tensors, spec, layers, done),
    ensures
        more_encoder_taken(tensors, spec, layers.take(done)) == Ok::<
            (Seq<EncoderContents>, Map<Seq<char>, TensorContents>),
            LoadFault,
        >((layers, rest)),
        are_left(rest, tensors, "encoder_l"@),
    decreases layers.len() - done,
{
    if done == layers.len() {
        assert(layers.take(done) =~= layers);
        tensors
    } else {
        let number = (done + 1) as nat;
        let side = "encoder_l"@;
        let base = side + decimal_text(number);
        let layer = layers[done];
        encoder_parts_differ(number, number);
        let without = stored_attentions_compile(tensors, base + "_self"@, spec, layer.attention);
        kept_apart(without, tensors, base + "_self"@, base + "_ffn"@);
        ffns_survive(tensors, without, base + "_ffn"@, spec, layer.ffn);
        let left = stored_ffns_compile(without, base + "_ffn"@, spec, layer.ffn);
        assert(later_encoder_holds(left, spec, layers, done + 1)) by {
            assert forall|k: int| done + 1 <= k < layers.len() implies {
                let prefix = "encoder_l"@ + decimal_text((k + 1) as nat);
                &&& holds_attention(
                    left,
                    prefix + "_self"@,
                    spec,
                    (#[trigger] layers[k]).attention,
                )
                &&& holds_ffn(left, prefix + "_ffn"@, spec, layers[k].ffn)
            } by {
                let prefix = "encoder_l"@ + decimal_text((k + 1) as nat);
                encoder_parts_differ(number, (k + 1) as nat);
                kept_apart(without, tensors, base + "_self"@, prefix + "_self"@);
                kept_apart(without, tensors, base + "_self"@, prefix + "_ffn"@);
                attentions_survive(tensors, without, prefix + "_self"@, spec, layers[k].attention);
                ffns_survive(tensors, without, prefix + "_ffn"@, spec, layers[k].ffn);
                kept_apart(left, without, base + "_ffn"@, prefix + "_self"@);
                kept_apart(left, without, base + "_ffn"@, prefix + "_ffn"@);
                attentions_survive(without, left, prefix + "_self"@, spec, layers[k].attention);
                ffns_survive(without, left, prefix + "_ffn"@, spec, layers[k].ffn);
            }
        }
        let rest = stored_encoder_compiles(left, spec, layers, done + 1);
        assert(layers.take(done).push(layer) =~= layers.take(done + 1));
        left_widely(without, tensors, base, "_self"@);
        left_widely(left, without, base, "_ffn"@);
        left_in_turn(left, without, tensors, base);
        left_widely(left, tensors, side, decimal_text(number));
        left_in_turn(rest, left, tensors, side);
        rest
    }
}

/// The decoder layers behind some number are stored and can be compiled.
spec fn later_decoder_holds(
    tensors: Map<Seq<char>, TensorContents>,
    spec: NetworkSpec,
    layers: Seq<DecoderContents>,
    done: int,
) -> bool {
    forall|k: int|
        done <= k < layers.len() ==> {
            let prefix = "decoder_l"@ + decimal_text((k + 1) as nat);
            &&& holds_ssru(tensors, prefix + "_rnn"@, spec.dim, (#[trigger] layers[k]).ssru)
            &&& holds_attention(tensors, prefix + "_context"@, spec, layers[k].attention)
            &&& holds_ffn(tensors, prefix + "_ffn"@, spec, layers[k].ffn)
            &&& compiles(layers[k].ssru.candidate)
            &&& compiles(layers[k].ssru.forget)
            &&& attention_compiles(spec, layers[k].attention)
            &&& ffn_compiles(layers[k].ffn)
        }
}

proof fn decoder_parts_differ(number: nat)
    ensures
        ({
            let base = "decoder_l"@ + decimal_text(number);
            &&& forall|name: Seq<char>| #[trigger]
                starts_with(name, base + "_context"@) ==> !starts_with(name, base + "_rnn"@)
            &&& forall|name: Seq<char>| #[trigger]
                starts_with(name, base + "_ffn"@) ==> !starts_with(name, base + "_rnn"@)
                    && !starts_with(name, base + "_context"@)
        }),
{
    reveal_strlit("_rnn");
    reveal_strlit("_context");
    reveal_strlit("_ffn");
    let base = "decoder_l"@ + decimal_text(number);
    parts_differ(base, "_context"@, "_rnn"@, 1);
    parts_differ(base, "_ffn"@, "_rnn"@, 1);
    parts_differ(base, "_ffn"@, "_context"@, 1);
}

proof fn decoder_layers_differ(number: nat, other: nat, part: Seq<char>)
    requires
        number != other,
        part.len() > 0,
        part[0] == '_',
    ensures
        ({
            let base = "decoder_l"@ + decimal_text(number);
            let later = "decoder_l"@ + decimal_text(other);
            forall|name: Seq<char>| #[trigger]
                starts_with(name, later + part) ==> !starts_with(name, base + "_rnn"@)
                    && !starts_with(name, base + "_context"@) && !starts_with(name, base + "_ffn"@)
        }),
{
    reveal_strlit("_rnn");
    reveal_strlit("_context");
    reveal_strlit("_ffn");
    layers_differ("decoder_l"@, other, part, number, "_rnn"@);
    layers_differ("decoder_l"@, other, part, number, "_context"@);
    layers_differ("decoder_l"@, other, part, number, "_ffn"@);
}

proof fn kept_in_turn(
    rest: Map<Seq<char>, TensorContents>,
    some: Map<Seq<char>, TensorContents>,
    tensors: Map<Seq<char>, TensorContents>,
    prefix: Seq<char>,
)
    requires
        are_kept(rest, some, prefix),
        are_kept(some, tensors, prefix),
    ensures
        are_kept(rest, tensors, prefix),
{
    fewer_tensors(rest, some, tensors);
    assert forall|name: Seq<char>| #[trigger]
        rest.contains_key(name) || !tensors.contains_key(name) || !starts_with(name, prefix) by {
        assert(some.contains_key(name) || !tensors.contains_key(name) || !starts_with(name, prefix));
    }
}

proof fn later_parts_are_kept(
    tensors: Map<Seq<char>, TensorContents>,
    without_ssru: Map<Seq<char>, TensorContents>,
    without: Map<Seq<char>, TensorContents>,
    left: Map<Seq<char>, TensorContents>,
    number: nat,
    other: nat,
    part: Seq<char>,
)
    requires
        number != other,
        part.len() > 0,
        part[0] == '_',
        are_left(without_ssru, tensors, "decoder_l"@ + decimal_text(number) + "_rnn"@),
        are_left(without, without_ssru, "decoder_l"@ + decimal_text(number) + "_context"@),
        are_left(left, without, "decoder_l"@ + decimal_text(number) + "_ffn"@),
    ensures
        are_kept(left, tensors, "decoder_l"@ + decimal_text(other) + part),
{
    let base = "decoder_l"@ + decimal_text(number);
    let prefix = "decoder_l"@ + decimal_text(other) + part;
    decoder_layers_differ(number, other, part);
    kept_apart(without_ssru, tensors, base + "_rnn"@, prefix);
    kept_apart(without, without_ssru, base + "_context"@, prefix);
    kept_apart(left, without, base + "_ffn"@, prefix);
    kept_in_turn(without, without_ssru, tensors, prefix);
    kept_in_turn(left, without, tensors, prefix);
}

#[verifier::spinoff_prover]
#[verifier::rlimit(60)]
proof fn stored_decoder_compiles(
    tensors: Map<Seq<char>, TensorContents>,
    spec: NetworkSpec,
    layers: Seq<DecoderContents>,
    done: int,
) -> (rest: Map<Seq<char>, TensorContents>)
    requires
        layers.len() == spec.decoder_layers,
        0 <= done <= layers.len(),
        later_decoder_holds(tensors, spec, layers, done),
    ensures
        more_decoder_taken(tensors, spec, layers.take(done)) == Ok::<
            (Seq<DecoderContents>, Map<Seq<char>, TensorContents>),
            LoadFault,
        >((layers, rest)),
    decreases layers.len() - done,
{
    if done == layers.len() {
        assert(layers.take(done) =~= layers);
        tensors
    } else {
        let number = (done + 1) as nat;
        let base = "decoder_l"@ + decimal_text(number);
        let layer = layers[done];
        decoder_parts_differ(number);
        let without_ssru = stored_ssrus_compile(tensors, base + "_rnn"@, spec.dim, layer.ssru);
        kept_apart(without_ssru, tensors, base + "_rnn"@, base + "_context"@);
        kept_apart(without_ssru, tensors, base + "_rnn"@, base + "_ffn"@);
        attentions_survive(tensors, without_ssru, base + "_context"@, spec, layer.attention);
        ffns_survive(tensors, without_ssru, base + "_ffn"@, spec, layer.ffn);
        let without = stored_attentions_compile(
            without_ssru,
            base + "_context"@,
            spec,
            layer.attention,
        );
        kept_apart(without, without_ssru, base + "_context"@, base + "_ffn"@);
        ffns_survive(without_ssru, without, base + "_ffn"@, spec, layer.ffn);
        let left = stored_ffns_compile(without, base + "_ffn"@, spec, layer.ffn);
        assert(later_decoder_holds(left, spec, layers, done + 1)) by {
            reveal_strlit("_rnn");
            reveal_strlit("_context");
            reveal_strlit("_ffn");
            assert forall|k: int| done + 1 <= k < layers.len() implies {
                let prefix = "decoder_l"@ + decimal_text((k + 1) as nat);
                &&& holds_ssru(left, prefix + "_rnn"@, spec.dim, (#[trigger] layers[k]).ssru)
                &&& holds_attention(left, prefix + "_context"@, spec, layers[k].attention)
                &&& holds_ffn(left, prefix + "_ffn"@, spec, layers[k].ffn)
            } by {
                let other = (k + 1) as nat;
                let prefix = "decoder_l"@ + decimal_text(other);
                later_parts_are_kept(
                    tensors,
                    without_ssru,
                    without,
                    left,
                    number,
                    other,
                    "_rnn"@,
                );
                later_parts_are_kept(
                    tensors,
                    without_ssru,
                    without,
                    left,
                    number,
                    other,
                    "_context"@,
                );
                later_parts_are_kept(
                    tensors,
                    without_ssru,
                    without,
                    left,
                    number,
                    other,
                    "_ffn"@,
                );
                ssrus_survive(tensors, left, prefix + "_rnn"@, spec.dim, layers[k].ssru);
                attentions_survive(tensors, left, prefix + "_context"@, spec, layers[k].attention);
                ffns_survive(tensors, left, prefix + "_ffn"@, spec, layers[k].ffn);
            }
        }
        let rest = stored_decoder_compiles(left, spec, layers, done + 1);
        assert(layers.take(done).push(layer) =~= layers.take(done + 1));
        rest
    }
}

/// All transforms of a network can be compiled.
pub open spec fn network_compiles(network: NetworkContents) -> bool {
    &&& forall|k: int|
        0 <= k < network.encoder.len() ==> attention_compiles(
            network.spec,
            (#[trigger] network.encoder[k]).attention,
        ) && ffn_compiles(network.encoder[k].ffn)
    &&& forall|k: int|
        0 <= k < network.decoder.len() ==> compiles((#[trigger] network.decoder[k]).ssru.candidate)
            && compiles(network.decoder[k].ssru.forget) && attention_compiles(
            network.spec,
            network.decoder[k].attention,
        ) && ffn_compiles(network.decoder[k].ffn)
}

proof fn encoder_stays(
    tensors: Map<Seq<char>, TensorContents>,
    rest: Map<Seq<char>, TensorContents>,
    network: NetworkContents,
)
    requires
        network_compiles(network),
        holds_encoder(tensors, network.spec, network.encoder),
        are_kept(rest, tensors, "encoder_l"@),
    ensures
        later_encoder_holds(rest, network.spec, network.encoder, 0),
{
    let spec = network.spec;
    assert forall|k: int| 0 <= k < network.encoder.len() implies {
        let prefix = "encoder_l"@ + decimal_text((k + 1) as nat);
        &&& holds_attention(
            rest,
            prefix + "_self"@,
            spec,
            (#[trigger] network.encoder[k]).attention,
        )
        &&& holds_ffn(rest, prefix + "_ffn"@, spec, network.encoder[k].ffn)
    } by {
        let number = decimal_text((k + 1) as nat);
        let prefix = "encoder_l"@ + number;
        kept_narrowly(rest, tensors, "encoder_l"@, number, "_self"@);
        kept_narrowly(rest, tensors, "encoder_l"@, number, "_ffn"@);
        attentions_survive(tensors, rest, prefix + "_self"@, spec, network.encoder[k].attention);
        ffns_survive(tensors, rest, prefix + "_ffn"@, spec, network.encoder[k].ffn);
    }
}

proof fn kept_narrowly(
    rest: Map<Seq<char>, TensorContents>,
    tensors: Map<Seq<char>, TensorContents>,
    side: Seq<char>,
    number: Seq<char>,
    part: Seq<char>,
)
    requires
        are_kept(rest, tensors, side),
    ensures
        are_kept(rest, tensors, side + number + part),
{
    assert forall|name: Seq<char>| #[trigger]
        rest.contains_key(name) || !tensors.contains_key(name) || !starts_with(
            name,
            side + number + part,
        ) by {
        if starts_with(name, side + number + part) {
            longer_names_start(side + number, part, name);
            longer_names_start(side, number, name);
        }
    }
}

#[verifier::spinoff_prover]
#[verifier::rlimit(60)]
proof fn other_names_are_no_layers()
    ensures
        !starts_with("Wemb"@, "encoder_l"@),
        !starts_with("Wemb"@, "decoder_l"@),
        !starts_with("encoder_Wemb"@, "encoder_l"@),
        !starts_with("encoder_Wemb"@, "decoder_l"@),
        !starts_with("decoder_Wemb"@, "encoder_l"@),
        !starts_with("decoder_Wemb"@, "decoder_l"@),
        !starts_with("decoder_ff_logit_out_b"@, "encoder_l"@),
        !starts_with("decoder_ff_logit_out_b"@, "decoder_l"@),
        !starts_with("Wemb"@ + "_QuantMultA"@, "encoder_l"@),
        !starts_with("Wemb"@ + "_QuantMultA"@, "decoder_l"@),
        !starts_with("decoder_Wemb"@ + "_QuantMultA"@, "encoder_l"@),
        !starts_with("decoder_Wemb"@ + "_QuantMultA"@, "decoder_l"@),
        "encoder_Wemb"@ != "decoder_Wemb"@,
        "Wemb"@ != "decoder_ff_logit_out_b"@,
        "Wemb"@ != "Wemb"@ + "_QuantMultA"@,
        "decoder_ff_logit_out_b"@ != "Wemb"@ + "_QuantMultA"@,
        "encoder_Wemb"@ != "decoder_ff_logit_out_b"@,
        "decoder_Wemb"@ != "decoder_ff_logit_out_b"@,
        "encoder_Wemb"@ != "decoder_Wemb"@ + "_QuantMultA"@,
        "decoder_Wemb"@ != "decoder_Wemb"@ + "_QuantMultA"@,
        "decoder_ff_logit_out_b"@ != "decoder_Wemb"@ + "_QuantMultA"@,
        forall|name: Seq<char>| #[trigger]
            starts_with(name, "decoder_l"@) ==> !starts_with(name, "encoder_l"@),
{
    reveal_strlit("Wemb");
    reveal_strlit("encoder_Wemb");
    reveal_strlit("decoder_Wemb");
    reveal_strlit("decoder_ff_logit_out_b");
    reveal_strlit("_QuantMultA");
    reveal_strlit("encoder_l");
    reveal_strlit("decoder_l");
    assert("encoder_Wemb"@[0] != "decoder_Wemb"@[0]);
    assert forall|name: Seq<char>| name.len() > 0 && (name[0] == 'W' || (name.len() > 8 && name[8]
        != 'l')) implies !#[trigger] starts_with(name, "encoder_l"@) by {
        if starts_with(name, "encoder_l"@) {
            assert(name.take(9)[0] == name[0] && name.take(9)[8] == name[8]);
        }
    }
    assert forall|name: Seq<char>| name.len() > 0 && (name[0] == 'W' || (name.len() > 8 && name[8]
        != 'l')) implies !#[trigger] starts_with(name, "decoder_l"@) by {
        if starts_with(name, "decoder_l"@) {
            assert(name.take(9)[0] == name[0] && name.take(9)[8] == name[8]);
        }
    }
    assert forall|name: Seq<char>| #[trigger] starts_with(name, "decoder_l"@) implies !starts_with(
        name,
        "encoder_l"@,
    ) by {
        assert(name.take(9)[0] == name[0]);
    }
}

#[verifier::spinoff_prover]
#[verifier::rlimit(60)]
proof fn stored_embeddings_compile(
    tensors: Map<Seq<char>, TensorContents>,
    tied_all: bool,
    spec: NetworkSpec,
    source: EmbeddingContents,
    target: EmbeddingContents,
) -> (rest: Map<Seq<char>, TensorContents>)
    requires
        tied_all ==> holds_embedding(tensors, "Wemb"@, spec.target_vocab, spec.dim, target)
            && source == target,
        !tied_all ==> holds_embedding(
            tensors,
            "encoder_Wemb"@,
            spec.source_vocab,
            spec.dim,
            source,
        ) && holds_embedding(tensors, "decoder_Wemb"@, spec.target_vocab, spec.dim, target),
    ensures
        embeddings_taken(tensors, tied_all, spec) == Ok::<
            ((EmbeddingContents, EmbeddingContents), Map<Seq<char>, TensorContents>),
            LoadFault,
        >(((source, target), rest)),
        tied_all ==> rest == tensors.remove("Wemb"@),
        !tied_all ==> rest == tensors.remove("encoder_Wemb"@).remove("decoder_Wemb"@),
{
    if tied_all {
        assert(tensors["Wemb"@].shape =~= seq![spec.target_vocab, spec.dim]);
        tensors.remove("Wemb"@)
    } else {
        other_names_are_no_layers();
        assert(tensors["encoder_Wemb"@].shape =~= seq![spec.source_vocab, spec.dim]);
        assert(tensors["decoder_Wemb"@].shape =~= seq![spec.target_vocab, spec.dim]);
        tensors.remove("encoder_Wemb"@).remove("decoder_Wemb"@)
    }
}

#[verifier::spinoff_prover]
#[verifier::rlimit(60)]
proof fn stored_front_compiles(
    tensors: Map<Seq<char>, TensorContents>,
    tied_all: bool,
    spec: NetworkSpec,
    network: NetworkContents,
) -> (parts: (Map<Seq<char>, TensorContents>, Map<Seq<char>, TensorContents>))
    requires
        tied_all ==> holds_embedding(
            tensors,
            "Wemb"@,
            spec.target_vocab,
            spec.dim,
            network.target_embedding,
        ) && network.source_embedding == network.target_embedding,
        !tied_all ==> holds_embedding(
            tensors,
            "encoder_Wemb"@,
            spec.source_vocab,
            spec.dim,
            network.source_embedding,
        ) && holds_embedding(
            tensors,
            "decoder_Wemb"@,
            spec.target_vocab,
            spec.dim,
            network.target_embedding,
        ),
        tensors.contains_key("decoder_ff_logit_out_b"@),
        tensors["decoder_ff_logit_out_b"@].data == DataContents::F32(network.output.bias),
        holds_scale(
            tensors,
            if tied_all {
                "Wemb"@ + "_QuantMultA"@
            } else {
                "decoder_Wemb"@ + "_QuantMultA"@
            },
            network.output.activation_multiplier,
        ),
    ensures
        embeddings_taken(tensors, tied_all, spec) == Ok::<
            ((EmbeddingContents, EmbeddingContents), Map<Seq<char>, TensorContents>),
            LoadFault,
        >(((network.source_embedding, network.target_embedding), parts.0)),
        floats_taken(parts.0, "decoder_ff_logit_out_b"@) == Ok::<
            (Seq<u32>, Map<Seq<char>, TensorContents>),
            LoadFault,
        >((network.output.bias, parts.0.remove("decoder_ff_logit_out_b"@))),
        scalar_taken(
            parts.0.remove("decoder_ff_logit_out_b"@),
            scale_name(output_weight_name(tied_all)),
        ) == Ok::<(Scalar, Map<Seq<char>, TensorContents>), LoadFault>(
            (network.output.activation_multiplier, parts.1),
        ),
        are_kept(parts.1, tensors, "encoder_l"@),
        are_kept(parts.1, tensors, "decoder_l"@),
{
    let bias_name = "decoder_ff_logit_out_b"@;
    let scale = if tied_all {
        "Wemb"@ + "_QuantMultA"@
    } else {
        "decoder_Wemb"@ + "_QuantMultA"@
    };
    let rest = stored_embeddings_compile(
        tensors,
        tied_all,
        spec,
        network.source_embedding,
        network.target_embedding,
    );
    other_names_are_no_layers();
    let without = rest.remove(bias_name);
    assert(scale == scale_name(output_weight_name(tied_all)));
    assert(rest.contains_key(bias_name) && rest[bias_name] == tensors[bias_name]);
    assert(without.contains_key(scale) && without[scale] == tensors[scale]);
    (rest, without.remove(scale))
}

/// A supported network whose numbers are stored under their names is compiled
/// to these numbers.
#[verifier::spinoff_prover]
#[verifier::rlimit(60)]
pub proof fn stored_networks_compile(
    config: ModelConfig,
    tensors: Map<Seq<char>, TensorContents>,
    network: NetworkContents,
)
    requires
        is_supported(config),
        network.spec == dimensions(config),
        network.spec.heads > 0,
        network.spec.dim % network.spec.heads == 0,
        network.spec.ffn_depth > 0,
        network_compiles(network),
        network.encoder.len() == config.enc_depth,
        holds_encoder(tensors, network.spec, network.encoder),
        network.decoder.len() == config.dec_depth,
        holds_decoder(tensors, network.spec, network.decoder),
        holds_embedding(
            tensors,
            if config.tied_embeddings_all {
                "Wemb"@
            } else {
                "encoder_Wemb"@
            },
            config.dim_vocabs@[0],
            config.dim_emb,
            network.source_embedding,
        ),
        holds_embedding(
            tensors,
            if config.tied_embeddings_all {
                "Wemb"@
            } else {
                "decoder_Wemb"@
            },
            config.dim_vocabs@[1],
            config.dim_emb,
            network.target_embedding,
        ),
        network.output.embedding == network.target_embedding,
        tensors.contains_key("decoder_ff_logit_out_b"@),
        tensors["decoder_ff_logit_out_b"@].data == DataContents::F32(network.output.bias),
        network.output.bias.len() == config.dim_vocabs@[1],
        holds_scale(
            tensors,
            if config.tied_embeddings_all {
                "Wemb"@ + "_QuantMultA"@
            } else {
                "decoder_Wemb"@ + "_QuantMultA"@
            },
            network.output.activation_multiplier,
        ),
    ensures
        network_of(config, tensors) == Ok::<NetworkContents, LoadFault>(network),
{
    let spec = network.spec;
    let tied_all = config.tied_embeddings_all;
    let (rest, left) = stored_front_compiles(tensors, tied_all, spec, network);
    encoder_stays(tensors, left, network);
    let behind = stored_encoder_compiles(left, spec, network.encoder, 0);
    assert(network.encoder.take(0) =~= Seq::<EncoderContents>::empty());
    other_names_are_no_layers();
    kept_apart(behind, left, "encoder_l"@, "decoder_l"@);
    kept_in_turn(behind, left, tensors, "decoder_l"@);
    decoder_stays(tensors, behind, network);
    let unused = stored_decoder_compiles(behind, spec, network.decoder, 0);
    assert(network.decoder.take(0) =~= Seq::<DecoderContents>::empty());
}

proof fn decoder_stays(
    tensors: Map<Seq<char>, TensorContents>,
    rest: Map<Seq<char>, TensorContents>,
    network: NetworkContents,
)
    requires
        network_compiles(network),
        holds_decoder(tensors, network.spec, network.decoder),
        are_kept(rest, tensors, "decoder_l"@),
    ensures
        later_decoder_holds(rest, network.spec, network.decoder, 0),
{
    let spec = network.spec;
    assert forall|k: int| 0 <= k < network.decoder.len() implies {
        let prefix = "decoder_l"@ + decimal_text((k + 1) as nat);
        &&& holds_ssru(rest, prefix + "_rnn"@, spec.dim, (#[trigger] network.decoder[k]).ssru)
        &&& holds_attention(rest, prefix + "_context"@, spec, network.decoder[k].attention)
        &&& holds_ffn(rest, prefix + "_ffn"@, spec, network.decoder[k].ffn)
    } by {
        let number = decimal_text((k + 1) as nat);
        let prefix = "decoder_l"@ + number;
        kept_narrowly(rest, tensors, "decoder_l"@, number, "_rnn"@);
        kept_narrowly(rest, tensors, "decoder_l"@, number, "_context"@);
        kept_narrowly(rest, tensors, "decoder_l"@, number, "_ffn"@);
        ssrus_survive(tensors, rest, prefix + "_rnn"@, spec.dim, network.decoder[k].ssru);
        attentions_survive(tensors, rest, prefix + "_context"@, spec, network.decoder[k].attention);
        ffns_survive(tensors, rest, prefix + "_ffn"@, spec, network.decoder[k].ffn);
    }
}

/// A model is supported exactly where it is a transformer with rectified
/// feed-forward blocks, recurrent units in its decoder, normalization behind
/// its blocks alone and tied embeddings; vocabularies that share all
/// embeddings have the same size.
pub proof fn supported_models_have_features(config: ModelConfig)
    ensures
        is_supported(config) <==> {
            &&& config.model_type@ == "transformer"@
            &&& config.transformer_ffn_activation@ == "relu"@
            &&& config.transformer_decoder_autoreg@ == "rnn"@
            &&& config.dec_cell@ == "ssru"@
            &&& config.transformer_postprocess@ == "dan"@
            &&& config.transformer_preprocess@ == ""@
            &&& config.transformer_postprocess_top@ == ""@
            &&& !config.layer_normalization
            &&& config.tied_embeddings || config.tied_embeddings_all
            &&& config.tied_embeddings_all ==> config.dim_vocabs@[0] == config.dim_vocabs@[1]
        },
{
    reveal_strlit("");
    assert(""@.len() == 0);
    if config.transformer_preprocess@.len() == 0 {
        assert(config.transformer_preprocess@ =~= ""@);
    }
    if config.transformer_postprocess_top@.len() == 0 {
        assert(config.transformer_postprocess_top@ =~= ""@);
    }
}

} // verus!
