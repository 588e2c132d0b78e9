//! Token embeddings and the output projection that shares their weights.

use crate::error::{LoadError, LoadFault, TranslateError, TranslateFault};
use crate::inference::backend::{
    quantized_fault, quantized_linear, Linear, LinearContents, Scalar,
};
use crate::message::{decimal, decimal_text, decimal_usize};
use crate::model::binary::{DataContents, Tensor, TensorContents, TensorData};
use crate::model::config::{bracketed, list_text};
use crate::model::shortlist::first_at_least_is_first;
use crate::text::TokenId;
use std::sync::Arc;
use vstd::prelude::*;
use vstd::string::*;

verus! {

/// One vector per token. A number is held as a quantized weight, to be divided
/// by the multiplier.
pub struct Embedding {
    /// Number of tokens.
    pub rows: usize,
    /// Length of a vector.
    pub cols: usize,
    /// Quantized weights, token by token.
    pub values: Arc<Vec<i8>>,
    /// Pattern of the multiplier.
    pub multiplier: u32,
}

/// The numbers of an embedding.
#[verifier::ext_equal]
pub struct EmbeddingContents {
    /// Number of tokens.
    pub rows: usize,
    /// Length of a vector.
    pub cols: usize,
    /// Quantized weights, token by token.
    pub values: Seq<i8>,
    /// Pattern of the multiplier.
    pub multiplier: u32,
}

impl View for Embedding {
    type V = EmbeddingContents;

    open spec fn view(&self) -> EmbeddingContents {
        EmbeddingContents {
            rows: self.rows,
            cols: self.cols,
            values: self.values@,
            multiplier: self.multiplier,
        }
    }
}

impl EmbeddingContents {
    /// Every token has a whole vector.
    pub open spec fn well_formed(self) -> bool {
        self.values.len() == self.rows * self.cols
    }

    /// The vector of a token.
    pub open spec fn vector(self, token: int) -> Seq<i8> {
        self.values.subrange(token * self.cols, (token + 1) * self.cols)
    }
}

/// The position of a vector's end is in range wherever the token is.
proof fn vector_bounds(rows: usize, cols: usize, token: int)
    requires
        0 <= token < rows,
    ensures
        0 <= token * cols <= (token + 1) * cols <= rows * cols,
        (token + 1) * cols == token * cols + cols,
{
    assert(0 <= token * cols) by (nonlinear_arith)
        requires
            0 <= token,
    ;
    assert((token + 1) * cols == token * cols + cols) by (nonlinear_arith);
    assert((token + 1) * cols <= rows * cols) by (nonlinear_arith)
        requires
            token + 1 <= rows,
    ;
}

/// The first token that is not below the limit.
pub open spec fn first_outside(ids: Seq<TokenId>, limit: usize) -> Option<TokenId> {
    crate::model::shortlist::first_at_least(ids, limit as int)
}

/// The vectors of tokens, one after the other.
pub open spec fn vectors(embedding: EmbeddingContents, ids: Seq<TokenId>) -> Seq<i8>
    decreases ids.len(),
{
    if ids.len() == 0 {
        Seq::empty()
    } else {
        vectors(embedding, ids.drop_last()) + embedding.vector(ids.last() as int)
    }
}

/// The error for a token that an embedding lacks.
pub open spec fn outside_embedding(id: TokenId, rows: usize) -> TranslateFault {
    TranslateFault::Runtime(
        "embedding ID "@ + decimal_text(id as nat) + " is outside vocabulary "@ + decimal_text(
            rows as nat,
        ),
    )
}

/// What a lookup gives.
pub open spec fn looked_up(embedding: EmbeddingContents, ids: Seq<TokenId>) -> Result<
    Seq<i8>,
    TranslateFault,
> {
    match first_outside(ids, embedding.rows) {
        Some(id) => Err(outside_embedding(id, embedding.rows)),
        None => Ok(vectors(embedding, ids)),
    }
}

/// The tokens that are there, in order.
pub open spec fn present(ids: Seq<Option<TokenId>>) -> Seq<TokenId>
    decreases ids.len(),
{
    if ids.len() == 0 {
        Seq::empty()
    } else {
        match ids.last() {
            Some(id) => present(ids.drop_last()).push(id),
            None => present(ids.drop_last()),
        }
    }
}

/// The vectors of tokens, one after the other, with zeros for a missing token.
pub open spec fn optional_vectors(
    embedding: EmbeddingContents,
    ids: Seq<Option<TokenId>>,
) -> Seq<i8>
    decreases ids.len(),
{
    if ids.len() == 0 {
        Seq::empty()
    } else {
        optional_vectors(embedding, ids.drop_last()) + match ids.last() {
            Some(id) => embedding.vector(id as int),
            None => Seq::new(embedding.cols as nat, |i: int| 0i8),
        }
    }
}

/// What a lookup with missing tokens gives.
pub open spec fn looked_up_optional(
    embedding: EmbeddingContents,
    ids: Seq<Option<TokenId>>,
) -> Result<Seq<i8>, TranslateFault> {
    match first_outside(present(ids), embedding.rows) {
        Some(id) => Err(outside_embedding(id, embedding.rows)),
        None => Ok(optional_vectors(embedding, ids)),
    }
}

/// The embedding that a tensor holds.
pub open spec fn tensor_embedding(
    tensor: TensorContents,
    expected_rows: usize,
    expected_dim: usize,
) -> Result<EmbeddingContents, LoadFault> {
    if tensor.shape != seq![expected_rows, expected_dim] {
        Err(
            LoadFault::InvalidModel(
                "embedding "@ + tensor.name + " has shape "@ + list_text(tensor.shape)
                    + ", expected ["@ + decimal_text(expected_rows as nat) + ", "@ + decimal_text(
                    expected_dim as nat,
                ) + "]"@,
            ),
        )
    } else {
        match tensor.data {
            DataContents::QuantizedI8 { values, multiplier } => Ok(
                EmbeddingContents { rows: expected_rows, cols: expected_dim, values, multiplier },
            ),
            _ => Err(
                LoadFault::InvalidModel("embedding "@ + tensor.name + " is not intgemm8"@),
            ),
        }
    }
}

proof fn prefix_inside(ids: Seq<TokenId>, limit: usize, at: int)
    requires
        0 <= at < ids.len(),
    ensures
        first_outside(ids.take(at), limit) is None ==> first_outside(ids.take(at + 1), limit)
            == if ids[at] >= limit {
            Some(ids[at])
        } else {
            None
        },
        first_outside(ids.take(at + 1), limit) is Some ==> first_outside(ids, limit)
            == first_outside(ids.take(at + 1), limit),
    decreases at,
{
    reveal_with_fuel(crate::model::shortlist::first_at_least, 2);
    if at == 0 {
        assert(ids.take(1).skip(1) == Seq::<TokenId>::empty());
        assert(ids.take(0).len() == 0);
        assert(ids.take(1)[0] == ids[0]);
    } else {
        prefix_inside(ids.skip(1), limit, at - 1);
        assert(ids.skip(1).take(at - 1) == ids.take(at).skip(1));
        assert(ids.skip(1).take(at) == ids.take(at + 1).skip(1));
        assert(ids.take(at)[0] == ids[0]);
        assert(ids.take(at + 1)[0] == ids[0]);
    }
}

proof fn pushed_inside(ids: Seq<TokenId>, limit: usize, id: TokenId)
    ensures
        first_outside(ids.push(id), limit) == match first_outside(ids, limit) {
            Some(found) => Some(found),
            None => if id >= limit {
                Some(id)
            } else {
                None
            },
        },
{
    let longer = ids.push(id);
    prefix_inside(longer, limit, ids.len() as int);
    assert(longer.take(ids.len() as int) == ids);
    assert(longer.take(longer.len() as int) == longer);
    if ids.len() > 0 {
        prefix_inside(longer, limit, ids.len() - 1);
    }
}

/// Copies a vector behind a list.
fn push_vector(values: &Vec<i8>, start: usize, count: usize, output: &mut Vec<i8>)
    requires
        start + count <= values@.len(),
    ensures
        final(output)@ == old(output)@ + values@.subrange(start as int, start + count),
{
    let ghost before = output@;
    let mut at: usize = 0;
    proof {
        assert(before + values@.subrange(start as int, start as int) == before);
    }
    while at < count
        invariant
            at <= count,
            start + count <= values@.len(),
            output@ == before + values@.subrange(start as int, start + at),
        decreases count - at,
    {
        proof {
            assert(values.len() == values@.len());
            assert(values@.subrange(start as int, start + at + 1) == values@.subrange(
                start as int,
                start + at,
            ).push(values@[start + at]));
        }
        output.push(values[start + at]);
        at = at + 1;
    }
}

impl Embedding {
    /// Every token has a whole vector.
    pub open spec fn valid(&self) -> bool {
        self@.well_formed()
    }

    /// Compiles the embedding that a tensor holds.
    pub fn compile(tensor: Tensor, expected_rows: usize, expected_dim: usize) -> (embedding: Result<
        Embedding,
        LoadError,
    >)
        ensures
            match embedding {
                Ok(embedding) => {
                    &&& tensor_embedding(tensor@, expected_rows, expected_dim) == Ok::<
                        EmbeddingContents,
                        LoadFault,
                    >(embedding@)
                    &&& tensor@.well_formed() ==> embedding.valid()
                },
                Err(error) => tensor_embedding(tensor@, expected_rows, expected_dim) == Err::<
                    EmbeddingContents,
                    LoadFault,
                >(error@),
            },
    {
        proof {
            if tensor@.shape == seq![expected_rows, expected_dim] {
                assert(tensor@.shape[0] == expected_rows && tensor@.shape[1] == expected_dim);
            } else if tensor@.shape.len() == 2 && tensor@.shape[0] == expected_rows
                && tensor@.shape[1] == expected_dim {
                assert(tensor@.shape =~= seq![expected_rows, expected_dim]);
            }
            two_dimensions(tensor@.shape);
        }
        if tensor.shape.len() != 2 || tensor.shape[0] != expected_rows || tensor.shape[1]
            != expected_dim {
            return Err(
                LoadError::InvalidModel(
                    String::from_str("embedding ").concat(tensor.name.as_str()).concat(
                        " has shape ",
                    ).concat(bracketed(tensor.shape.as_slice()).as_str()).concat(
                        ", expected [",
                    ).concat(decimal_usize(expected_rows).as_str()).concat(", ").concat(
                        decimal_usize(expected_dim).as_str(),
                    ).concat("]"),
                ),
            );
        }
        match tensor.data {
            TensorData::QuantizedI8 { values, multiplier } => Ok(
                Embedding {
                    rows: expected_rows,
                    cols: expected_dim,
                    values: Arc::new(values),
                    multiplier,
                },
            ),
            _ => Err(
                LoadError::InvalidModel(
                    String::from_str("embedding ").concat(tensor.name.as_str()).concat(
                        " is not intgemm8",
                    ),
                ),
            ),
        }
    }

    /// The same embedding; the weights are shared.
    pub fn share(&self) -> (shared: Embedding)
        ensures
            shared@ == self@,
    {
        Embedding {
            rows: self.rows,
            cols: self.cols,
            values: self.values.clone(),
            multiplier: self.multiplier,
        }
    }

    /// Looks up the quantized vectors of tokens.
    pub fn lookup(&self, ids: &[TokenId]) -> (values: Result<Vec<i8>, TranslateError>)
        requires
            self.valid(),
        ensures
            match values {
                Ok(values) => looked_up(self@, ids@) == Ok::<Seq<i8>, TranslateFault>(values@),
                Err(error) => looked_up(self@, ids@) == Err::<Seq<i8>, TranslateFault>(error@),
            },
    {
        let mut output: Vec<i8> = Vec::new();
        let mut at: usize = 0;
        proof {
            assert(ids@.take(0) == Seq::<TokenId>::empty());
        }
        while at < ids.len()
            invariant
                at <= ids@.len(),
                self.valid(),
                first_outside(ids@.take(at as int), self.rows) is None,
                output@ == vectors(self@, ids@.take(at as int)),
            decreases ids@.len() - at,
        {
            let id: TokenId = ids[at];
            proof {
                prefix_inside(ids@, self.rows, at as int);
                assert(ids@.take(at + 1).drop_last() == ids@.take(at as int));
            }
            if id as usize >= self.rows {
                return Err(
                    TranslateError::Runtime(
                        String::from_str("embedding ID ").concat(
                            decimal(id as u64).as_str(),
                        ).concat(" is outside vocabulary ").concat(
                            decimal_usize(self.rows).as_str(),
                        ),
                    ),
                );
            }
            proof {
                vector_bounds(self.rows, self.cols, id as int);
                assert(self.values.len() == self.values@.len());
            }
            push_vector(&self.values, id as usize * self.cols, self.cols, &mut output);
            at = at + 1;
        }
        proof {
            assert(ids@.take(at as int) == ids@);
        }
        Ok(output)
    }

    /// Looks up the quantized vectors of tokens, with zeros for a missing
    /// token.
    pub fn lookup_optional(&self, ids: &[Option<TokenId>]) -> (values: Result<
        Vec<i8>,
        TranslateError,
    >)
        requires
            self.valid(),
        ensures
            match values {
                Ok(values) => looked_up_optional(self@, ids@) == Ok::<Seq<i8>, TranslateFault>(
                    values@,
                ),
                Err(error) => looked_up_optional(self@, ids@) == Err::<Seq<i8>, TranslateFault>(
                    error@,
                ),
            },
    {
        let mut output: Vec<i8> = Vec::new();
        let mut at: usize = 0;
        proof {
            assert(ids@.take(0) == Seq::<Option<TokenId>>::empty());
        }
        while at < ids.len()
            invariant
                at <= ids@.len(),
                self.valid(),
                first_outside(present(ids@.take(at as int)), self.rows) is None,
                output@ == optional_vectors(self@, ids@.take(at as int)),
            decreases ids@.len() - at,
        {
            proof {
                assert(ids@.take(at + 1).drop_last() == ids@.take(at as int));
            }
            match ids[at] {
                Some(id) => {
                    proof {
                        pushed_inside(present(ids@.take(at as int)), self.rows, id);
                    }
                    if id as usize >= self.rows {
                        proof {
                            later_tokens_do_not_matter(ids@, self.rows, at + 1);
                        }
                        return Err(
                            TranslateError::Runtime(
                                String::from_str("embedding ID ").concat(
                                    decimal(id as u64).as_str(),
                                ).concat(" is outside vocabulary ").concat(
                                    decimal_usize(self.rows).as_str(),
                                ),
                            ),
                        );
                    }
                    proof {
                        vector_bounds(self.rows, self.cols, id as int);
                        assert(self.values.len() == self.values@.len());
                    }
                    push_vector(&self.values, id as usize * self.cols, self.cols, &mut output);
                },
                None => {
                    push_zeros(self.cols, &mut output);
                },
            }
            at = at + 1;
        }
        proof {
            assert(ids@.take(at as int) == ids@);
        }
        Ok(output)
    }
}

/// Puts zeros behind a list.
fn push_zeros(count: usize, output: &mut Vec<i8>)
    ensures
        final(output)@ == old(output)@ + Seq::new(count as nat, |i: int| 0i8),
{
    let ghost before = output@;
    let mut at: usize = 0;
    while at < count
        invariant
            at <= count,
            output@ == before + Seq::new(at as nat, |i: int| 0i8),
        decreases count - at,
    {
        output.push(0);
        at = at + 1;
    }
}

/// The number of elements of a shape with two dimensions is their product.
proof fn two_dimensions(shape: Seq<usize>)
    ensures
        shape.len() == 2 && crate::model::binary::elements_of(shape) is Some
            ==> crate::model::binary::elements_of(shape) == Some((shape[0] * shape[1]) as nat),
{
    if shape.len() == 2 {
        let first = shape.drop_last();
        assert(first.drop_last() == Seq::<usize>::empty());
        reveal_with_fuel(crate::model::binary::elements_of, 3);
        assert(1 * shape[0] == shape[0]) by (nonlinear_arith);
    }
}

proof fn later_tokens_do_not_matter(ids: Seq<Option<TokenId>>, limit: usize, at: int)
    requires
        0 <= at <= ids.len(),
        first_outside(present(ids.take(at)), limit) is Some,
    ensures
        first_outside(present(ids), limit) == first_outside(present(ids.take(at)), limit),
    decreases ids.len() - at,
{
    if at < ids.len() {
        assert(ids.take(at + 1).drop_last() == ids.take(at));
        if let Some(id) = ids[at] {
            pushed_inside(present(ids.take(at)), limit, id);
        }
        later_tokens_do_not_matter(ids, limit, at + 1);
    } else {
        assert(ids.take(at) == ids);
    }
}

/// The projection from hidden states to target tokens. Its weights are those
/// of the target embedding.
pub struct OutputProjection {
    /// Length of a hidden state.
    pub dim: usize,
    /// Number of target tokens.
    pub rows: usize,
    /// Quantized weights, token by token.
    pub values: Arc<Vec<i8>>,
    /// Pattern of the scale factor of the weights.
    pub weight_multiplier: u32,
    /// Scale factor of the inputs.
    pub activation_multiplier: Scalar,
    /// Patterns of what is added to the outputs.
    pub bias: Vec<u32>,
}

/// The numbers of an output projection.
#[verifier::ext_equal]
pub struct ProjectionContents {
    /// The embedding whose weights are used.
    pub embedding: EmbeddingContents,
    /// Scale factor of the inputs.
    pub activation_multiplier: Scalar,
    /// Patterns of what is added to the outputs.
    pub bias: Seq<u32>,
}

impl View for OutputProjection {
    type V = ProjectionContents;

    open spec fn view(&self) -> ProjectionContents {
        ProjectionContents {
            embedding: EmbeddingContents {
                rows: self.rows,
                cols: self.dim,
                values: self.values@,
                multiplier: self.weight_multiplier,
            },
            activation_multiplier: self.activation_multiplier,
            bias: self.bias@,
        }
    }
}

/// The projection onto the tokens of a shortlist.
pub struct PreparedOutput {
    /// The affine transform.
    pub linear: Linear,
}

/// The projection that shares the weights of an embedding.
pub open spec fn shared_projection(
    embedding: EmbeddingContents,
    activation_multiplier: Scalar,
    bias: Seq<u32>,
) -> Result<ProjectionContents, LoadFault> {
    if bias.len() != embedding.rows {
        Err(
            LoadFault::InvalidModel(
                "output bias has "@ + decimal_text(bias.len()) + " values, expected "@
                    + decimal_text(embedding.rows as nat),
            ),
        )
    } else {
        Ok(ProjectionContents { embedding, activation_multiplier, bias })
    }
}

/// Name of the transform that projects onto a shortlist.
pub open spec fn shortlist_name() -> Seq<char> {
    "decoder_output_shortlist"@
}

/// The bias of each token.
pub open spec fn biases(bias: Seq<u32>, tokens: Seq<TokenId>) -> Seq<u32> {
    tokens.map_values(|token: TokenId| bias[token as int])
}

impl ProjectionContents {
    /// Every target token has a whole vector and a bias.
    pub open spec fn well_formed(self) -> bool {
        self.embedding.well_formed() && self.bias.len() == self.embedding.rows
    }

    /// The projection onto the tokens of a shortlist.
    pub open spec fn prepared(self, shortlist: Seq<TokenId>) -> Result<
        LinearContents,
        TranslateFault,
    > {
        match first_outside(shortlist, self.embedding.rows) {
            Some(token) => Err(
                TranslateFault::Runtime(
                    "target ID "@ + decimal_text(token as nat) + " exceeds output vocabulary "@
                        + decimal_text(self.embedding.rows as nat),
                ),
            ),
            None => match quantized_linear(
                shortlist_name(),
                self.embedding.cols,
                shortlist.len() as usize,
                vectors(self.embedding, shortlist),
                self.embedding.multiplier,
                self.activation_multiplier,
                Some(biases(self.bias, shortlist)),
            ) {
                Ok(linear) => Ok(linear),
                Err(fault) => Err(TranslateFault::Runtime(fault.sentence())),
            },
        }
    }

    /// The shortlist can be projected onto: an empty transform is refused for
    /// another reason.
    pub open spec fn can_prepare(self, shortlist: Seq<TokenId>) -> bool {
        self.embedding.cols * shortlist.len() == 0 ==> first_outside(shortlist, self.embedding.rows)
            is Some || quantized_fault(
            shortlist_name(),
            self.embedding.cols,
            shortlist.len() as usize,
            vectors(self.embedding, shortlist).len(),
            self.embedding.multiplier,
            self.activation_multiplier,
        ) is Some
    }
}

impl OutputProjection {
    /// Every target token has a whole vector and a bias.
    pub open spec fn valid(&self) -> bool {
        self@.well_formed()
    }

    /// Makes a projection that shares the weights of an embedding.
    pub fn new(embedding: &Embedding, activation_multiplier: Scalar, bias: Vec<u32>) -> (projection:
        Result<OutputProjection, LoadError>)
        ensures
            match projection {
                Ok(projection) => {
                    &&& shared_projection(embedding@, activation_multiplier, bias@) == Ok::<
                        ProjectionContents,
                        LoadFault,
                    >(projection@)
                    &&& embedding.valid() ==> projection.valid()
                },
                Err(error) => shared_projection(embedding@, activation_multiplier, bias@) == Err::<
                    ProjectionContents,
                    LoadFault,
                >(error@),
            },
    {
        if bias.len() != embedding.rows {
            return Err(
                LoadError::InvalidModel(
                    String::from_str("output bias has ").concat(
                        decimal_usize(bias.len()).as_str(),
                    ).concat(" values, expected ").concat(decimal_usize(embedding.rows).as_str()),
                ),
            );
        }
        Ok(
            OutputProjection {
                dim: embedding.cols,
                rows: embedding.rows,
                values: embedding.values.clone(),
                weight_multiplier: embedding.multiplier,
                activation_multiplier,
                bias,
            },
        )
    }

    /// Projects onto the tokens of a shortlist.
    pub fn prepare(&self, shortlist: &[TokenId]) -> (prepared: Result<
        PreparedOutput,
        TranslateError,
    >)
        requires
            self.valid(),
            self@.can_prepare(shortlist@),
        ensures
            match prepared {
                Ok(prepared) => prepared.linear.valid() && self@.prepared(shortlist@) == Ok::<
                    LinearContents,
                    TranslateFault,
                >(prepared.linear@),
                Err(error) => self@.prepared(shortlist@) == Err::<LinearContents, TranslateFault>(
                    error@,
                ),
            },
    {
        let mut values: Vec<i8> = Vec::new();
        let mut bias: Vec<u32> = Vec::with_capacity(shortlist.len());
        let mut at: usize = 0;
        proof {
            assert(shortlist@.take(0) == Seq::<TokenId>::empty());
            assert(bias@ == biases(self.bias@, shortlist@.take(0)));
        }
        while at < shortlist.len()
            invariant
                at <= shortlist@.len(),
                self.valid(),
                first_outside(shortlist@.take(at as int), self.rows) is None,
                values@ == vectors(self@.embedding, shortlist@.take(at as int)),
                bias@ == biases(self.bias@, shortlist@.take(at as int)),
            decreases shortlist@.len() - at,
        {
            let token: TokenId = shortlist[at];
            proof {
                prefix_inside(shortlist@, self.rows, at as int);
                assert(shortlist@.take(at + 1).drop_last() == shortlist@.take(at as int));
            }
            if token as usize >= self.rows {
                return Err(
                    TranslateError::Runtime(
                        String::from_str("target ID ").concat(
                            decimal(token as u64).as_str(),
                        ).concat(" exceeds output vocabulary ").concat(
                            decimal_usize(self.rows).as_str(),
                        ),
                    ),
                );
            }
            proof {
                vector_bounds(self.rows, self.dim, token as int);
                assert(self.values.len() == self.values@.len());
            }
            push_vector(&self.values, token as usize * self.dim, self.dim, &mut values);
            bias.push(self.bias[token as usize]);
            proof {
                assert(bias@ == biases(self.bias@, shortlist@.take(at + 1)));
            }
            at = at + 1;
        }
        proof {
            assert(shortlist@.take(at as int) == shortlist@);
            assert(shortlist.len() == shortlist@.len());
        }
        let linear = Linear::from_quantized(
            "decoder_output_shortlist",
            self.dim,
            shortlist.len(),
            values,
            self.weight_multiplier,
            self.activation_multiplier,
            Some(bias),
        );
        match linear {
            Ok(linear) => Ok(PreparedOutput { linear }),
            Err(error) => Err(TranslateError::Runtime(error.sentence())),
        }
    }
}

proof fn vectors_have_length(embedding: EmbeddingContents, ids: Seq<TokenId>)
    requires
        embedding.well_formed(),
        first_outside(ids, embedding.rows) is None,
    ensures
        vectors(embedding, ids).len() == embedding.cols * ids.len(),
    decreases ids.len(),
{
    if ids.len() > 0 {
        inside_prefix(ids, embedding.rows);
        vectors_have_length(embedding, ids.drop_last());
        vector_bounds(embedding.rows, embedding.cols, ids.last() as int);
        assert(embedding.cols * ids.len() == embedding.cols * (ids.len() - 1) + embedding.cols)
            by (nonlinear_arith);
    } else {
        assert(embedding.cols * 0 == 0) by (nonlinear_arith);
    }
}

/// Wherever every token of a shortlist exists and the scale factors can be
/// used, projecting onto it succeeds, and output `k` has the vector and the
/// bias of token `k`.
pub proof fn projections_follow_shortlist(
    projection: ProjectionContents,
    shortlist: Seq<TokenId>,
    k: int,
)
    requires
        projection.well_formed(),
        first_outside(shortlist, projection.embedding.rows) is None,
        projection.activation_multiplier.usable(),
        crate::ieee::finite_and_positive(projection.embedding.multiplier),
        projection.embedding.cols * shortlist.len() <= usize::MAX,
        shortlist.len() <= usize::MAX,
        0 <= k < shortlist.len(),
    ensures
        projection.prepared(shortlist) matches Ok(linear) && linear.bias[k]
            == projection.bias[shortlist[k] as int] && linear.weights.subrange(
            k * projection.embedding.cols,
            (k + 1) * projection.embedding.cols,
        ) == projection.embedding.vector(shortlist[k] as int),
{
    vectors_have_length(projection.embedding, shortlist);
    vectors_are_in_order(projection.embedding, shortlist, k);
}

proof fn inside_prefix(ids: Seq<TokenId>, limit: usize)
    requires
        ids.len() > 0,
        first_outside(ids, limit) is None,
    ensures
        first_outside(ids.drop_last(), limit) is None,
        ids.last() < limit,
{
    pushed_inside(ids.drop_last(), limit, ids.last());
    assert(ids.drop_last().push(ids.last()) == ids);
}

proof fn vectors_are_in_order(embedding: EmbeddingContents, ids: Seq<TokenId>, k: int)
    requires
        embedding.well_formed(),
        first_outside(ids, embedding.rows) is None,
        0 <= k < ids.len(),
    ensures
        vectors(embedding, ids).len() == embedding.cols * ids.len(),
        0 <= k * embedding.cols <= (k + 1) * embedding.cols <= vectors(embedding, ids).len(),
        vectors(embedding, ids).subrange(k * embedding.cols, (k + 1) * embedding.cols)
            == embedding.vector(ids[k] as int),
    decreases ids.len(),
{
    let cols = embedding.cols;
    inside_prefix(ids, embedding.rows);
    vectors_have_length(embedding, ids);
    vectors_have_length(embedding, ids.drop_last());
    vector_bounds(embedding.rows, cols, ids.last() as int);
    let before = vectors(embedding, ids.drop_last());
    let all = vectors(embedding, ids);
    assert(0 <= k * cols && (k + 1) * cols == k * cols + cols && (k + 1) * cols <= cols
        * ids.len()) by (nonlinear_arith)
        requires
            0 <= k,
            k + 1 <= ids.len(),
    ;
    if k < ids.len() - 1 {
        vectors_are_in_order(embedding, ids.drop_last(), k);
        assert(all.subrange(k * cols, (k + 1) * cols) =~= before.subrange(k * cols, (k + 1) * cols));
    } else {
        assert(cols * (ids.len() - 1) == k * cols) by (nonlinear_arith)
            requires
                k == ids.len() - 1,
        ;
        assert(all.subrange(k * cols, (k + 1) * cols) =~= embedding.vector(ids.last() as int));
    }
}

proof fn vectors_have_elements(embedding: EmbeddingContents, ids: Seq<TokenId>, k: int, c: int)
    requires
        embedding.well_formed(),
        first_outside(ids, embedding.rows) is None,
        0 <= k < ids.len(),
        0 <= c < embedding.cols,
    ensures
        vectors(embedding, ids).len() == embedding.cols * ids.len(),
        0 <= k * embedding.cols + c < vectors(embedding, ids).len(),
        vectors(embedding, ids)[k * embedding.cols + c] == embedding.values[ids[k]
            * embedding.cols + c],
{
    let cols = embedding.cols;
    first_at_least_is_first(ids, embedding.rows as int);
    assert(ids[k] < embedding.rows);
    vectors_are_in_order(embedding, ids, k);
    vector_bounds(embedding.rows, cols, ids[k] as int);
    assert((k + 1) * cols == k * cols + cols) by (nonlinear_arith);
    let part = vectors(embedding, ids).subrange(k * cols, (k + 1) * cols);
    assert(part[c] == vectors(embedding, ids)[k * cols + c]);
    assert(part[c] == embedding.vector(ids[k] as int)[c]);
}

/// A lookup succeeds exactly where all tokens exist, and it gives one vector
/// after the other: number `c` of vector `k` is number `c` of token `k`.
pub proof fn lookups_follow_tokens(embedding: EmbeddingContents, ids: Seq<TokenId>)
    requires
        embedding.well_formed(),
    ensures
        looked_up(embedding, ids) is Ok <==> forall|k: int|
            0 <= k < ids.len() ==> #[trigger] ids[k] < embedding.rows,
        looked_up(embedding, ids) matches Ok(values) ==> {
            &&& values.len() == embedding.cols * ids.len()
            &&& forall|k: int, c: int|
                #![trigger values[k * embedding.cols + c]]
                0 <= k < ids.len() && 0 <= c < embedding.cols ==> values[k * embedding.cols + c]
                    == embedding.values[ids[k] * embedding.cols + c]
        },
{
    first_at_least_is_first(ids, embedding.rows as int);
    if let Ok(values) = looked_up(embedding, ids) {
        vectors_have_length(embedding, ids);
        assert forall|k: int, c: int|
            #![trigger values[k * embedding.cols + c]]
            0 <= k < ids.len() && 0 <= c < embedding.cols implies values[k * embedding.cols + c]
            == embedding.values[ids[k] * embedding.cols + c] by {
            vectors_have_elements(embedding, ids, k, c);
        }
    }
}

proof fn present_tokens_are_listed(ids: Seq<Option<TokenId>>, limit: usize)
    ensures
        first_outside(present(ids), limit) is None <==> forall|k: int|
            0 <= k < ids.len() ==> (#[trigger] ids[k] matches Some(id) ==> id < limit),
    decreases ids.len(),
{
    let list = present(ids);
    first_at_least_is_first(list, limit as int);
    if ids.len() > 0 {
        let shorter = ids.drop_last();
        let before = present(shorter);
        present_tokens_are_listed(shorter, limit);
        first_at_least_is_first(before, limit as int);
        assert(forall|k: int| 0 <= k < shorter.len() ==> shorter[k] == ids[k]);
        if let Some(id) = ids.last() {
            assert(list == before.push(id));
            assert(forall|k: int| 0 <= k < before.len() ==> list[k] == before[k]);
            assert(list[before.len() as int] == id);
            assert(ids[ids.len() - 1] == Some(id));
            if first_outside(list, limit) is None {
                assert forall|k: int| 0 <= k < ids.len() implies (#[trigger] ids[k] matches Some(
                    id,
                ) ==> id < limit) by {
                    if k < shorter.len() {
                        assert(shorter[k] == ids[k]);
                    }
                }
            } else {
                let at = choose|k: int| 0 <= k < list.len() && list[k] >= limit;
                if at < before.len() {
                    let place = choose|k: int|
                        0 <= k < shorter.len() && !(#[trigger] shorter[k] matches Some(id) ==> id
                            < limit);
                    assert(ids[place] == shorter[place]);
                }
            }
        } else {
            assert(ids[ids.len() - 1] is None);
            if first_outside(list, limit) is Some {
                let place = choose|k: int|
                    0 <= k < shorter.len() && !(#[trigger] shorter[k] matches Some(id) ==> id
                        < limit);
                assert(ids[place] == shorter[place]);
            } else {
                assert forall|k: int| 0 <= k < ids.len() implies (#[trigger] ids[k] matches Some(
                    id,
                ) ==> id < limit) by {
                    if k < shorter.len() {
                        assert(shorter[k] == ids[k]);
                    }
                }
            }
        }
    }
}

proof fn optional_vectors_have_elements(
    embedding: EmbeddingContents,
    ids: Seq<Option<TokenId>>,
    k: int,
    c: int,
)
    requires
        embedding.well_formed(),
        forall|i: int|
            0 <= i < ids.len() ==> (#[trigger] ids[i] matches Some(id) ==> id < embedding.rows),
    ensures
        optional_vectors(embedding, ids).len() == embedding.cols * ids.len(),
        0 <= k < ids.len() && 0 <= c < embedding.cols ==> optional_vectors(embedding, ids)[k
            * embedding.cols + c] == match ids[k] {
            Some(id) => embedding.values[id * embedding.cols + c],
            None => 0i8,
        },
    decreases ids.len(),
{
    let cols = embedding.cols;
    if ids.len() == 0 {
        assert(cols * 0 == 0) by (nonlinear_arith);
    } else {
        let shorter = ids.drop_last();
        assert(forall|i: int| 0 <= i < shorter.len() ==> shorter[i] == ids[i]);
        optional_vectors_have_elements(embedding, shorter, k, c);
        assert(ids[ids.len() - 1] == ids.last());
        if let Some(id) = ids.last() {
            vector_bounds(embedding.rows, cols, id as int);
        }
        assert(cols * ids.len() == cols * (ids.len() - 1) + cols) by (nonlinear_arith);
        if 0 <= k < ids.len() && 0 <= c < cols {
            assert(0 <= k * cols && k * cols + cols <= cols * ids.len()) by (nonlinear_arith)
                requires
                    0 <= k,
                    k + 1 <= ids.len(),
            ;
            if k < shorter.len() {
                assert(k * cols + cols <= cols * (ids.len() - 1)) by (nonlinear_arith)
                    requires
                        k + 1 <= ids.len() - 1,
                ;
            } else {
                assert(k * cols == cols * (ids.len() - 1)) by (nonlinear_arith)
                    requires
                        k == ids.len() - 1,
                ;
            }
        }
    }
}

/// A lookup with missing tokens succeeds exactly where all tokens that are
/// there exist, and it gives one vector after the other: that of token `k`, or
/// zeros where token `k` is missing.
pub proof fn optional_lookups_follow_tokens(
    embedding: EmbeddingContents,
    ids: Seq<Option<TokenId>>,
)
    requires
        embedding.well_formed(),
    ensures
        looked_up_optional(embedding, ids) is Ok <==> forall|k: int|
            0 <= k < ids.len() ==> (#[trigger] ids[k] matches Some(id) ==> id < embedding.rows),
        looked_up_optional(embedding, ids) matches Ok(values) ==> {
            &&& values.len() == embedding.cols * ids.len()
            &&& forall|k: int, c: int|
                #![trigger values[k * embedding.cols + c]]
                0 <= k < ids.len() && 0 <= c < embedding.cols ==> values[k * embedding.cols + c]
                    == match ids[k] {
                    Some(id) => embedding.values[id * embedding.cols + c],
                    None => 0i8,
                }
        },
{
    present_tokens_are_listed(ids, embedding.rows);
    if let Ok(values) = looked_up_optional(embedding, ids) {
        optional_vectors_have_elements(embedding, ids, 0, 0);
        assert forall|k: int, c: int|
            #![trigger values[k * embedding.cols + c]]
            0 <= k < ids.len() && 0 <= c < embedding.cols implies values[k * embedding.cols + c]
            == match ids[k] {
            Some(id) => embedding.values[id * embedding.cols + c],
            None => 0i8,
        } by {
            optional_vectors_have_elements(embedding, ids, k, c);
        }
    }
}

/// A projection onto a shortlist has one output per token: number `c` of the
/// weights of output `k` is number `c` of the vector of token `k`, its bias is
/// that of token `k`, and the scale factors are those of the whole projection.
pub proof fn projections_hold_vectors(
    projection: ProjectionContents,
    shortlist: Seq<TokenId>,
    linear: LinearContents,
    k: int,
    c: int,
)
    requires
        projection.well_formed(),
        shortlist.len() <= usize::MAX,
        projection.prepared(shortlist) == Ok::<LinearContents, TranslateFault>(linear),
        0 <= k < shortlist.len(),
        0 <= c < projection.embedding.cols,
    ensures
        linear.input_dim == projection.embedding.cols,
        linear.output_dim == shortlist.len(),
        linear.weight_multiplier == projection.embedding.multiplier,
        linear.activation_multiplier == projection.activation_multiplier,
        linear.weights.len() == linear.input_dim * linear.output_dim,
        linear.weights[k * projection.embedding.cols + c]
            == projection.embedding.values[shortlist[k] * projection.embedding.cols + c],
        linear.bias.len() == shortlist.len(),
        linear.bias[k] == projection.bias[shortlist[k] as int],
        shortlist[k] < projection.embedding.rows,
{
    first_at_least_is_first(shortlist, projection.embedding.rows as int);
    vectors_have_elements(projection.embedding, shortlist, k, c);
}

/// A tensor holds an embedding where it has one row per token, and the numbers
/// and the multiplier are its own.
pub proof fn embeddings_are_tensors(
    tensor: TensorContents,
    rows: usize,
    dim: usize,
    embedding: EmbeddingContents,
)
    ensures
        tensor_embedding(tensor, rows, dim) == Ok::<EmbeddingContents, LoadFault>(embedding) <==> {
            &&& tensor.shape == seq![rows, dim]
            &&& tensor.data == (DataContents::QuantizedI8 {
                values: embedding.values,
                multiplier: embedding.multiplier,
            })
            &&& embedding.rows == rows
            &&& embedding.cols == dim
        },
{
}

/// A lookup that fails names the first token that the embedding lacks, and the
/// number of tokens that it has; so does a projection onto a shortlist.
pub proof fn failed_lookups_name_the_first_stranger(
    embedding: EmbeddingContents,
    projection: ProjectionContents,
    ids: Seq<TokenId>,
    at: int,
)
    requires
        0 <= at < ids.len(),
        ids[at] >= embedding.rows,
        projection.embedding.rows == embedding.rows,
        forall|k: int| 0 <= k < at ==> #[trigger] ids[k] < embedding.rows,
    ensures
        looked_up(embedding, ids) == Err::<Seq<i8>, TranslateFault>(
            TranslateFault::Runtime(
                "embedding ID "@ + decimal_text(ids[at] as nat) + " is outside vocabulary "@
                    + decimal_text(embedding.rows as nat),
            ),
        ),
        projection.prepared(ids) == Err::<LinearContents, TranslateFault>(
            TranslateFault::Runtime(
                "target ID "@ + decimal_text(ids[at] as nat) + " exceeds output vocabulary "@
                    + decimal_text(embedding.rows as nat),
            ),
        ),
{
    first_at_least_is_first(ids, embedding.rows as int);
    if let Some(id) = first_outside(ids, embedding.rows) {
        let first = choose|first: int|
            0 <= first < ids.len() && #[trigger] ids[first] == id && forall|k: int|
                0 <= k < first ==> #[trigger] ids[k] < embedding.rows;
        if first < at {
            assert(ids[first] < embedding.rows);
        } else if at < first {
            assert(ids[at] < embedding.rows);
        }
    } else {
        assert(ids[at] < embedding.rows);
    }
}

} // verus!
