//! Matrix products and the affine transforms built on them.

use crate::decimal::{divide, float_text, is_positive_quotient, quotient_of, show_float};
use crate::error::{LoadError, LoadFault, TranslateError, TranslateFault};
use crate::ieee::{finite_and_positive, is_finite_and_positive};
use crate::message::{decimal_text, decimal_usize};
use crate::model::binary::{DataContents, Tensor, TensorContents, TensorData};
use rten_gemm::{GemmExecutor, GemmInputA, GemmInputB, GemmUninitOptions, QuantParams};
use rten_tensor::NdTensorView;
use std::mem::MaybeUninit;
use vstd::prelude::*;
use vstd::string::*;

verus! {

/// Where a matrix lies in a buffer: element `(r, c)` is found at
/// `offset + r * row_stride + c * col_stride`.
#[derive(Debug, Clone, Copy)]
pub struct MatrixView {
    /// Position of the first element.
    pub offset: usize,
    /// Number of rows.
    pub rows: usize,
    /// Number of columns.
    pub cols: usize,
    /// Distance between rows.
    pub row_stride: usize,
    /// Distance between columns.
    pub col_stride: usize,
}

impl MatrixView {
    /// Position of an element.
    pub open spec fn position(self, row: int, col: int) -> int {
        self.offset + row * self.row_stride + col * self.col_stride
    }

    /// Every element lies in a buffer of the given length.
    pub open spec fn fits(self, len: int) -> bool {
        &&& self.offset <= len
        &&& self.rows == 0 || self.cols == 0 || self.position(self.rows - 1, self.cols - 1) < len
    }
}

/// Tells whether every element of a matrix lies in a buffer.
fn view_fits(view: &MatrixView, len: usize) -> (answer: bool)
    ensures
        answer == view.fits(len as int),
{
    if view.offset > len {
        return false;
    }
    if view.rows == 0 || view.cols == 0 {
        return true;
    }
    match (view.rows - 1).checked_mul(view.row_stride) {
        None => {
            proof {
                assert((view.cols - 1) * view.col_stride >= 0) by (nonlinear_arith)
                    requires
                        view.cols > 0,
                ;
            }
            false
        },
        Some(down) => match (view.cols - 1).checked_mul(view.col_stride) {
            None => false,
            Some(across) => match down.checked_add(across) {
                None => false,
                Some(last) => last < len - view.offset,
            },
        },
    }
}

/// The error of a matrix product.
pub open spec fn product_fault(text: Seq<char>) -> TranslateFault {
    TranslateFault::Runtime(text)
}

/// Dimensions of the products of two equally long lists of matrices.
#[derive(Debug, Clone, Copy)]
pub struct BatchPlan {
    /// Number of elements of each product.
    pub output_stride: usize,
    /// Number of elements of all products.
    pub output_len: usize,
}

/// What is wrong with the pair of matrices at a position, if anything.
pub open spec fn pair_fault(
    lhs: Seq<MatrixView>,
    lhs_len: int,
    rhs: Seq<MatrixView>,
    rhs_len: int,
    at: int,
) -> Option<TranslateFault> {
    if lhs[at].cols != rhs[at].rows || lhs[at].rows != lhs[0].rows || lhs[at].cols != lhs[0].cols
        || rhs[at].cols != rhs[0].cols {
        Some(product_fault("batched matrix dimensions do not match"@))
    } else if !lhs[at].fits(lhs_len) {
        Some(product_fault("invalid lhs matrix view: data too short"@))
    } else if !rhs[at].fits(rhs_len) {
        Some(product_fault("invalid rhs matrix view: data too short"@))
    } else {
        None
    }
}

/// What is wrong with the first bad pair from a position on, if any.
pub open spec fn first_pair_fault(
    lhs: Seq<MatrixView>,
    lhs_len: int,
    rhs: Seq<MatrixView>,
    rhs_len: int,
    from: nat,
) -> Option<TranslateFault>
    decreases lhs.len() - from,
{
    if from >= lhs.len() {
        None
    } else {
        match pair_fault(lhs, lhs_len, rhs, rhs_len, from as int) {
            Some(fault) => Some(fault),
            None => first_pair_fault(lhs, lhs_len, rhs, rhs_len, from + 1),
        }
    }
}

/// Dimensions of the products of two lists of matrices, which lie in buffers
/// of the given lengths.
pub open spec fn batch_plan(
    lhs: Seq<MatrixView>,
    lhs_len: int,
    rhs: Seq<MatrixView>,
    rhs_len: int,
) -> Result<BatchPlan, TranslateFault> {
    if lhs.len() != rhs.len() {
        Err(product_fault("batched matrix inputs have different lengths"@))
    } else if lhs.len() == 0 {
        Ok(BatchPlan { output_stride: 0, output_len: 0 })
    } else if lhs[0].rows * rhs[0].cols > usize::MAX {
        Err(product_fault("matrix output size overflow"@))
    } else {
        match first_pair_fault(lhs, lhs_len, rhs, rhs_len, 0) {
            Some(fault) => Err(fault),
            None => if lhs.len() * (lhs[0].rows * rhs[0].cols) > usize::MAX {
                Err(product_fault("batched matrix output size overflow"@))
            } else {
                Ok(
                    BatchPlan {
                        output_stride: (lhs[0].rows * rhs[0].cols) as usize,
                        output_len: (lhs.len() * (lhs[0].rows * rhs[0].cols)) as usize,
                    },
                )
            },
        }
    }
}

/// Checks the pair of matrices at a position.
fn check_pair(
    lhs: &[MatrixView],
    lhs_len: usize,
    rhs: &[MatrixView],
    rhs_len: usize,
    at: usize,
) -> (checked: Result<(), TranslateError>)
    requires
        at < lhs@.len(),
        lhs@.len() == rhs@.len(),
    ensures
        match checked {
            Ok(_) => pair_fault(lhs@, lhs_len as int, rhs@, rhs_len as int, at as int) is None,
            Err(error) => pair_fault(lhs@, lhs_len as int, rhs@, rhs_len as int, at as int)
                == Some(error@),
        },
{
    let left: MatrixView = lhs[at];
    let right: MatrixView = rhs[at];
    if left.cols != right.rows || left.rows != lhs[0].rows || left.cols != lhs[0].cols
        || right.cols != rhs[0].cols {
        return Err(
            TranslateError::Runtime(String::from_str("batched matrix dimensions do not match")),
        );
    }
    if !view_fits(&left, lhs_len) {
        return Err(
            TranslateError::Runtime(String::from_str("invalid lhs matrix view: data too short")),
        );
    }
    if !view_fits(&right, rhs_len) {
        return Err(
            TranslateError::Runtime(String::from_str("invalid rhs matrix view: data too short")),
        );
    }
    Ok(())
}

/// Plans the products of two lists of matrices, which lie in buffers of the
/// given lengths.
pub fn plan_batch(lhs: &[MatrixView], lhs_len: usize, rhs: &[MatrixView], rhs_len: usize) -> (plan:
    Result<BatchPlan, TranslateError>)
    ensures
        match plan {
            Ok(plan) => batch_plan(lhs@, lhs_len as int, rhs@, rhs_len as int) == Ok::<
                BatchPlan,
                TranslateFault,
            >(plan),
            Err(error) => batch_plan(lhs@, lhs_len as int, rhs@, rhs_len as int) == Err::<
                BatchPlan,
                TranslateFault,
            >(error@),
        },
{
    if lhs.len() != rhs.len() {
        return Err(
            TranslateError::Runtime(
                String::from_str("batched matrix inputs have different lengths"),
            ),
        );
    }
    if lhs.len() == 0 {
        return Ok(BatchPlan { output_stride: 0, output_len: 0 });
    }
    let output_stride: usize = match lhs[0].rows.checked_mul(rhs[0].cols) {
        Some(stride) => stride,
        None => {
            return Err(TranslateError::Runtime(String::from_str("matrix output size overflow")));
        },
    };
    let mut at: usize = 0;
    while at < lhs.len()
        invariant
            at <= lhs@.len(),
            lhs@.len() == rhs@.len(),
            first_pair_fault(lhs@, lhs_len as int, rhs@, rhs_len as int, 0) == first_pair_fault(
                lhs@,
                lhs_len as int,
                rhs@,
                rhs_len as int,
                at as nat,
            ),
            lhs@.len() > 0,
            lhs@[0].rows * rhs@[0].cols <= usize::MAX,
        decreases lhs@.len() - at,
    {
        check_pair(lhs, lhs_len, rhs, rhs_len, at)?;
        at = at + 1;
    }
    match lhs.len().checked_mul(output_stride) {
        Some(output_len) => Ok(BatchPlan { output_stride, output_len }),
        None => Err(
            TranslateError::Runtime(String::from_str("batched matrix output size overflow")),
        ),
    }
}

/// Wherever products are planned, every element of every matrix lies in its
/// buffer and inner dimensions agree.
pub proof fn planned_products_stay_inside(
    lhs: Seq<MatrixView>,
    lhs_len: int,
    rhs: Seq<MatrixView>,
    rhs_len: int,
    at: int,
    row: int,
    inner: int,
    col: int,
)
    requires
        batch_plan(lhs, lhs_len, rhs, rhs_len) is Ok,
        0 <= at < lhs.len(),
        0 <= row < lhs[at].rows,
        0 <= inner < lhs[at].cols,
        0 <= col < rhs[at].cols,
    ensures
        lhs[at].cols == rhs[at].rows,
        0 <= lhs[at].position(row, inner) < lhs_len,
        0 <= rhs[at].position(inner, col) < rhs_len,
{
    no_fault_before(lhs, lhs_len, rhs, rhs_len, 0, at);
    elements_are_inside(lhs[at], lhs_len, row, inner);
    elements_are_inside(rhs[at], rhs_len, inner, col);
}

proof fn elements_are_inside(view: MatrixView, len: int, row: int, col: int)
    requires
        view.fits(len),
        0 <= row < view.rows,
        0 <= col < view.cols,
    ensures
        0 <= view.position(row, col) < len,
{
    assert(0 <= row * view.row_stride <= (view.rows - 1) * view.row_stride) by (nonlinear_arith)
        requires
            0 <= row <= view.rows - 1,
    ;
    assert(0 <= col * view.col_stride <= (view.cols - 1) * view.col_stride) by (nonlinear_arith)
        requires
            0 <= col <= view.cols - 1,
    ;
}

proof fn no_fault_before(
    lhs: Seq<MatrixView>,
    lhs_len: int,
    rhs: Seq<MatrixView>,
    rhs_len: int,
    from: nat,
    at: int,
)
    requires
        first_pair_fault(lhs, lhs_len, rhs, rhs_len, from) is None,
        from <= at < lhs.len(),
    ensures
        pair_fault(lhs, lhs_len, rhs, rhs_len, at) is None,
    decreases lhs.len() - from,
{
    if from < at {
        no_fault_before(lhs, lhs_len, rhs, rhs_len, from + 1, at);
    }
}

/// A scale factor of an archive, before it is computed.
#[derive(Debug, Clone, Copy)]
pub enum Scalar {
    /// The number with the given pattern.
    Float(u32),
    /// The quotient of a quantized value and its multiplier.
    Ratio {
        /// The value.
        value: i8,
        /// Pattern of the multiplier.
        multiplier: u32,
    },
}

impl Scalar {
    /// The pattern of the number.
    pub open spec fn bits(self) -> u32 {
        match self {
            Scalar::Float(bits) => bits,
            Scalar::Ratio { value, multiplier } => quotient_of(value, multiplier),
        }
    }

    /// The number is finite and greater than zero.
    pub open spec fn usable(self) -> bool {
        finite_and_positive(self.bits())
    }

    /// Tells whether the number is finite and greater than zero.
    pub fn is_usable(&self) -> (answer: bool)
        ensures
            answer == self.usable(),
    {
        match self {
            Scalar::Float(bits) => is_finite_and_positive(*bits),
            Scalar::Ratio { value, multiplier } => is_positive_quotient(*value, *multiplier),
        }
    }

    /// Writes the number.
    pub fn show(&self) -> (text: String)
        ensures
            text@ == float_text(self.bits()),
    {
        match self {
            Scalar::Float(bits) => show_float(*bits),
            Scalar::Ratio { value, multiplier } => show_float(divide(*value, *multiplier)),
        }
    }
}

/// Weights that are packed for the processor's matrix product.
#[verifier::external_type_specification]
#[verifier::external_body]
#[verifier::reject_recursive_types(T)]
pub struct ExPackedBMatrix<T>(rten_gemm::PackedBMatrix<T>);

/// The weights that a packed matrix holds, column by column.
pub uninterp spec fn packed_weights(matrix: rten_gemm::PackedBMatrix<i8>) -> Seq<i8>;

/// The number of rows that a packed matrix was made with.
pub uninterp spec fn packed_rows(matrix: rten_gemm::PackedBMatrix<i8>) -> usize;

/// The number of columns that a packed matrix was made with.
pub uninterp spec fn packed_cols(matrix: rten_gemm::PackedBMatrix<i8>) -> usize;

/// The matrix was packed by the executor that this processor gets by default.
pub uninterp spec fn packed_by_default(matrix: rten_gemm::PackedBMatrix<i8>) -> bool;

/// Packs weights, which are given column by column, with
/// `GemmExecutor::prepack_b`, on the default executor.
///
/// Claimed of it: the packed matrix holds these weights, has these dimensions
/// and was packed by the default executor. An empty matrix would make it panic.
#[verifier::external_body]
fn pack(weights: &[i8], rows: usize, cols: usize) -> (matrix: rten_gemm::PackedBMatrix<i8>)
    requires
        rows > 0,
        cols > 0,
        rows * cols == weights@.len(),
    ensures
        packed_weights(matrix) == weights@,
        packed_rows(matrix) == rows,
        packed_cols(matrix) == cols,
        packed_by_default(matrix),
{
    let view = NdTensorView::from_slice_with_strides([rows, cols], weights, [1, rows]).unwrap();
    GemmExecutor::<u8, i8, i32>::default().prepack_b(view)
}

/// The sum of the products of a row of shifted inputs and a column of weights,
/// with the shift taken back.
pub open spec fn shifted_dot(
    inputs: Seq<u8>,
    row: int,
    weights: Seq<i8>,
    col: int,
    inner: int,
    shift: int,
    upto: nat,
) -> int
    decreases upto,
{
    if upto == 0 {
        0
    } else {
        shifted_dot(inputs, row, weights, col, inner, shift, (upto - 1) as nat) + (inputs[row
            * inner + upto - 1] - shift) * weights[col * inner + upto - 1]
    }
}

/// The product of an input and a weight, before the shift is taken back; zero
/// behind the end of the row.
pub open spec fn raw_product(
    inputs: Seq<u8>,
    row: int,
    weights: Seq<i8>,
    col: int,
    inner: int,
    at: int,
) -> int {
    if at < inner {
        inputs[row * inner + at] * weights[col * inner + at]
    } else {
        0
    }
}

/// The sum of the products at an even position and behind it.
pub open spec fn pair_sum(
    inputs: Seq<u8>,
    row: int,
    weights: Seq<i8>,
    col: int,
    inner: int,
    pair: int,
) -> int {
    raw_product(inputs, row, weights, col, inner, 2 * pair) + raw_product(
        inputs,
        row,
        weights,
        col,
        inner,
        2 * pair + 1,
    )
}

/// A number, brought into the range of 16-bit numbers.
pub open spec fn saturated(number: int) -> int {
    if number < -0x8000 {
        -0x8000
    } else if number >= 0x8000 {
        0x7fff
    } else {
        number
    }
}

/// The sum of the first pairs of products of a row of shifted inputs and a
/// column of weights, each of them saturated where the processor does so.
pub open spec fn pairs_total(
    inputs: Seq<u8>,
    row: int,
    weights: Seq<i8>,
    col: int,
    inner: int,
    saturates: bool,
    upto: nat,
) -> int
    decreases upto,
{
    if upto == 0 {
        0
    } else {
        let pair = pair_sum(inputs, row, weights, col, inner, upto - 1);
        pairs_total(inputs, row, weights, col, inner, saturates, (upto - 1) as nat)
            + if saturates {
            saturated(pair)
        } else {
            pair
        }
    }
}

/// The sum of the first weights of a column.
pub open spec fn column_sum(weights: Seq<i8>, col: int, inner: int, upto: nat) -> int
    decreases upto,
{
    if upto == 0 {
        0
    } else {
        column_sum(weights, col, inner, (upto - 1) as nat) + weights[col * inner + upto - 1]
    }
}

/// A number of a matrix product: the pairs of products, with the shift taken
/// back.
pub open spec fn paired_dot(
    inputs: Seq<u8>,
    row: int,
    weights: Seq<i8>,
    col: int,
    inner: int,
    shift: int,
    saturates: bool,
) -> int {
    pairs_total(inputs, row, weights, col, inner, saturates, ((inner + 1) / 2) as nat) - shift
        * column_sum(weights, col, inner, inner as nat)
}

/// The sum of each pair of products is in the range of 16-bit numbers.
pub open spec fn pairs_fit(
    inputs: Seq<u8>,
    row: int,
    weights: Seq<i8>,
    col: int,
    inner: int,
) -> bool {
    forall|pair: int|
        0 <= 2 * pair < inner ==> -0x8000 <= #[trigger] pair_sum(
            inputs,
            row,
            weights,
            col,
            inner,
            pair,
        ) < 0x8000
}

/// Largest number of inputs for which no sum of products can leave the range
/// of 32-bit numbers: each product is at most 255 times 128.
pub const MAX_INNER: usize = 65_793;

/// Every number of a product is the sum of the pairs of products of an input
/// row and a weight column, all of them saturated or none.
pub open spec fn pairs_add_up(
    product: Seq<i32>,
    inputs: Seq<u8>,
    rows: int,
    shift: int,
    weights: Seq<i8>,
    inner: int,
    cols: int,
    saturates: bool,
) -> bool {
    forall|row: int, col: int|
        0 <= row < rows && 0 <= col < cols ==> product[row * cols + col] == #[trigger] paired_dot(
            inputs,
            row,
            weights,
            col,
            inner,
            shift,
            saturates,
        )
}

/// The outcome of a matrix product: it has one number per input row and weight
/// column. Whether pairs of products saturate is up to the processor.
pub open spec fn is_product(
    product: Seq<i32>,
    inputs: Seq<u8>,
    rows: int,
    shift: int,
    weights: Seq<i8>,
    inner: int,
    cols: int,
) -> bool {
    &&& product.len() == rows * cols
    &&& exists|saturates: bool| #[trigger]
        pairs_add_up(product, inputs, rows, shift, weights, inner, cols, saturates)
}

/// Multiplies shifted inputs with packed weights by
/// `GemmExecutor::gemm_uninit`, on the default executor, with the shift as the
/// zero point of every row; an error is handed on as its text.
///
/// Claimed of it: it succeeds, for the sizes match and the weights were packed
/// for the same executor. The product has the size that the dimensions give,
/// and its numbers are sums of pairs of products: of exact ones, or of ones
/// that saturate at 16 bits. Not claimed is which, since that depends on the
/// processor. More inputs per row could make its 32-bit sums overflow.
#[verifier::external_body]
fn multiply(
    inputs: &[u8],
    rows: usize,
    zero_points: &[u8],
    matrix: &rten_gemm::PackedBMatrix<i8>,
) -> (product: Result<Vec<i32>, String>)
    requires
        packed_by_default(*matrix),
        packed_rows(*matrix) <= MAX_INNER,
        inputs@.len() == rows * packed_rows(*matrix),
        zero_points@.len() == rows,
        4 * (rows * packed_cols(*matrix)) <= isize::MAX,
        forall|r: int| 0 <= r < rows ==> #[trigger] zero_points@[r] == zero_points@[0],
    ensures
        product matches Ok(product) && is_product(
            product@,
            inputs@,
            rows as int,
            zero_points@[0] as int,
            packed_weights(*matrix),
            packed_rows(*matrix) as int,
            packed_cols(*matrix) as int,
        ),
{
    let lhs = NdTensorView::from_data([rows, matrix.rows()], inputs);
    let mut output = vec![MaybeUninit::uninit(); rows * matrix.cols()];
    let a_quant = Some(QuantParams { zero_point: zero_points });
    let options = GemmUninitOptions { a_quant, ..Default::default() };
    match GemmExecutor::<u8, i8, i32>::default().gemm_uninit(
        &mut output,
        GemmInputA::Unpacked(lhs),
        GemmInputB::Packed(matrix),
        options,
    ) {
        Ok(product) => Ok(product.to_vec()),
        Err(error) => Err(error.to_string()),
    }
}

/// A compiled affine transform, computed with 8-bit integers.
pub struct Linear {
    input_dim: usize,
    output_dim: usize,
    weight: rten_gemm::PackedBMatrix<i8>,
    activation_multiplier: Scalar,
    weight_multiplier: u32,
    bias: Vec<u32>,
}

/// The numbers of an affine transform.
#[verifier::ext_equal]
pub struct LinearContents {
    /// Number of inputs.
    pub input_dim: usize,
    /// Number of outputs.
    pub output_dim: usize,
    /// Weights, output by output.
    pub weights: Seq<i8>,
    /// Scale factor of the inputs.
    pub activation_multiplier: Scalar,
    /// Pattern of the scale factor of the weights.
    pub weight_multiplier: u32,
    /// Patterns of what is added to the outputs.
    pub bias: Seq<u32>,
}

impl View for Linear {
    type V = LinearContents;

    closed spec fn view(&self) -> LinearContents {
        LinearContents {
            input_dim: self.input_dim,
            output_dim: self.output_dim,
            weights: packed_weights(self.weight),
            activation_multiplier: self.activation_multiplier,
            weight_multiplier: self.weight_multiplier,
            bias: self.bias@,
        }
    }
}

impl LinearContents {
    /// There is a weight for every input and output, and a bias for every
    /// output; the scale factors can be used.
    pub open spec fn well_formed(self) -> bool {
        &&& self.input_dim > 0
        &&& self.output_dim > 0
        &&& self.weights.len() == self.input_dim * self.output_dim
        &&& self.bias.len() == self.output_dim
        &&& self.activation_multiplier.usable()
        &&& finite_and_positive(self.weight_multiplier)
    }
}

/// The error of a weight matrix.
pub open spec fn weight_fault(name: Seq<char>, text: Seq<char>) -> LoadFault {
    LoadFault::InvalidModel("linear weight "@ + name + text)
}

/// Patterns of as many zeros.
pub open spec fn zeros(count: nat) -> Seq<u32> {
    Seq::new(count, |i: int| 0u32)
}

/// What is wrong with weights and scale factors, if anything.
pub open spec fn quantized_fault(
    name: Seq<char>,
    input_dim: usize,
    output_dim: usize,
    count: nat,
    weight_multiplier: u32,
    activation_multiplier: Scalar,
) -> Option<LoadFault> {
    if !activation_multiplier.usable() {
        Some(
            weight_fault(
                name,
                " has invalid activation multiplier "@ + float_text(activation_multiplier.bits()),
            ),
        )
    } else if input_dim * output_dim > usize::MAX {
        Some(weight_fault(name, " is too large"@))
    } else if count != input_dim * output_dim {
        Some(
            weight_fault(
                name,
                " has "@ + decimal_text(count) + " values, expected "@ + decimal_text(
                    (input_dim * output_dim) as nat,
                ),
            ),
        )
    } else if !finite_and_positive(weight_multiplier) {
        Some(
            weight_fault(
                name,
                " has invalid weight multiplier "@ + float_text(weight_multiplier),
            ),
        )
    } else {
        None
    }
}

/// The affine transform made of weights, scale factors and a bias.
pub open spec fn quantized_linear(
    name: Seq<char>,
    input_dim: usize,
    output_dim: usize,
    values: Seq<i8>,
    weight_multiplier: u32,
    activation_multiplier: Scalar,
    bias: Option<Seq<u32>>,
) -> Result<LinearContents, LoadFault> {
    let bias = match bias {
        Some(bias) => bias,
        None => zeros(output_dim as nat),
    };
    match quantized_fault(
        name,
        input_dim,
        output_dim,
        values.len(),
        weight_multiplier,
        activation_multiplier,
    ) {
        Some(fault) => Err(fault),
        None => if bias.len() != output_dim {
            Err(
                LoadFault::InvalidModel(
                    "bias for "@ + name + " has "@ + decimal_text(bias.len())
                        + " values, expected "@ + decimal_text(output_dim as nat),
                ),
            )
        } else {
            Ok(
                LinearContents {
                    input_dim,
                    output_dim,
                    weights: values,
                    activation_multiplier,
                    weight_multiplier,
                    bias,
                },
            )
        },
    }
}

/// The affine transform whose weights are a tensor.
pub open spec fn tensor_linear(
    tensor: TensorContents,
    bias: Option<Seq<u32>>,
    activation_multiplier: Scalar,
) -> Result<LinearContents, LoadFault> {
    if tensor.shape.len() != 2 {
        Err(weight_fault(tensor.name, " has rank "@ + decimal_text(tensor.shape.len())))
    } else {
        match tensor.data {
            DataContents::QuantizedI8 { values, multiplier } => quantized_linear(
                tensor.name,
                tensor.shape[0],
                tensor.shape[1],
                values,
                multiplier,
                activation_multiplier,
                bias,
            ),
            _ => Err(weight_fault(tensor.name, " is not intgemm8"@)),
        }
    }
}

/// A quantized tensor that has no elements is refused for another reason: a
/// transform without inputs or outputs cannot be packed.
pub open spec fn packable(tensor: TensorContents, activation_multiplier: Scalar) -> bool {
    match tensor.data {
        DataContents::QuantizedI8 { values, multiplier } => tensor.shape.len() == 2
            && tensor.shape[0] * tensor.shape[1] == 0 ==> quantized_fault(
            tensor.name,
            tensor.shape[0],
            tensor.shape[1],
            values.len(),
            multiplier,
            activation_multiplier,
        ) is Some,
        _ => true,
    }
}

/// The bias, if any, as a sequence.
pub open spec fn bias_of(bias: Option<Vec<u32>>) -> Option<Seq<u32>> {
    match bias {
        Some(bias) => Some(bias@),
        None => None,
    }
}

/// Checks weights and scale factors.
fn check_quantized(
    name: &str,
    input_dim: usize,
    output_dim: usize,
    count: usize,
    weight_multiplier: u32,
    activation_multiplier: Scalar,
) -> (checked: Result<(), LoadError>)
    ensures
        match checked {
            Ok(_) => quantized_fault(
                name@,
                input_dim,
                output_dim,
                count as nat,
                weight_multiplier,
                activation_multiplier,
            ) is None,
            Err(error) => quantized_fault(
                name@,
                input_dim,
                output_dim,
                count as nat,
                weight_multiplier,
                activation_multiplier,
            ) == Some(error@),
        },
{
    let start: String = String::from_str("linear weight ").concat(name);
    if !activation_multiplier.is_usable() {
        let text: String = String::from_str(" has invalid activation multiplier ").concat(
            activation_multiplier.show().as_str(),
        );
        return Err(LoadError::InvalidModel(start.concat(text.as_str())));
    }
    let expected: usize = match input_dim.checked_mul(output_dim) {
        Some(expected) => expected,
        None => {
            return Err(LoadError::InvalidModel(start.concat(" is too large")));
        },
    };
    if count != expected {
        let text: String = String::from_str(" has ").concat(decimal_usize(count).as_str()).concat(
            " values, expected ",
        ).concat(decimal_usize(expected).as_str());
        return Err(LoadError::InvalidModel(start.concat(text.as_str())));
    }
    if !is_finite_and_positive(weight_multiplier) {
        let text: String = String::from_str(" has invalid weight multiplier ").concat(
            show_float(weight_multiplier).as_str(),
        );
        return Err(LoadError::InvalidModel(start.concat(text.as_str())));
    }
    Ok(())
}

/// Patterns of as many zeros.
fn zero_patterns(count: usize) -> (patterns: Vec<u32>)
    ensures
        patterns@ == zeros(count as nat),
{
    let mut patterns: Vec<u32> = Vec::with_capacity(count);
    while patterns.len() < count
        invariant
            patterns@.len() <= count,
            patterns@ == zeros(patterns@.len()),
        decreases count - patterns@.len(),
    {
        patterns.push(0);
    }
    patterns
}

impl Linear {
    /// The transform can be applied.
    #[verifier::type_invariant]
    pub closed spec fn valid(&self) -> bool {
        &&& self@.well_formed()
        &&& packed_rows(self.weight) == self.input_dim
        &&& packed_cols(self.weight) == self.output_dim
        &&& packed_by_default(self.weight)
    }

    /// Number of inputs and outputs.
    pub fn shape(&self) -> (shape: (usize, usize))
        ensures
            shape == (self@.input_dim, self@.output_dim),
    {
        (self.input_dim, self.output_dim)
    }

    /// Scale factor of the inputs.
    pub fn activation_multiplier(&self) -> (scalar: Scalar)
        ensures
            scalar == self@.activation_multiplier,
    {
        self.activation_multiplier
    }

    /// Pattern of the scale factor of the weights.
    pub fn weight_multiplier(&self) -> (bits: u32)
        ensures
            bits == self@.weight_multiplier,
    {
        self.weight_multiplier
    }

    /// Patterns of what is added to the outputs.
    pub fn bias(&self) -> (bias: &Vec<u32>)
        ensures
            bias@ == self@.bias,
    {
        &self.bias
    }

    /// Compiles an affine transform whose weights are a tensor.
    pub fn compile(tensor: Tensor, bias: Option<Vec<u32>>, activation_multiplier: Scalar) -> (linear:
        Result<Linear, LoadError>)
        requires
            packable(tensor@, activation_multiplier),
        ensures
            match linear {
                Ok(linear) => linear.valid() && tensor_linear(
                    tensor@,
                    bias_of(bias),
                    activation_multiplier,
                ) == Ok::<LinearContents, LoadFault>(linear@),
                Err(error) => tensor_linear(tensor@, bias_of(bias), activation_multiplier) == Err::<
                    LinearContents,
                    LoadFault,
                >(error@),
            },
    {
        let start: String = String::from_str("linear weight ").concat(tensor.name.as_str());
        if tensor.shape.len() != 2 {
            let text: String = String::from_str(" has rank ").concat(
                decimal_usize(tensor.shape.len()).as_str(),
            );
            return Err(LoadError::InvalidModel(start.concat(text.as_str())));
        }
        let input_dim: usize = tensor.shape[0];
        let output_dim: usize = tensor.shape[1];
        match tensor.data {
            TensorData::QuantizedI8 { values, multiplier } => Linear::from_quantized(
                tensor.name.as_str(),
                input_dim,
                output_dim,
                values,
                multiplier,
                activation_multiplier,
                bias,
            ),
            _ => Err(LoadError::InvalidModel(start.concat(" is not intgemm8"))),
        }
    }

    /// Compiles an affine transform from weights, which are given output by
    /// output.
    ///
    /// A transform without inputs or outputs cannot be packed, and so may only
    /// be asked for where it is refused for another reason.
    pub fn from_quantized(
        name: &str,
        input_dim: usize,
        output_dim: usize,
        values: Vec<i8>,
        weight_multiplier: u32,
        activation_multiplier: Scalar,
        bias: Option<Vec<u32>>,
    ) -> (linear: Result<Linear, LoadError>)
        requires
            input_dim * output_dim == 0 ==> quantized_fault(
                name@,
                input_dim,
                output_dim,
                values@.len(),
                weight_multiplier,
                activation_multiplier,
            ) is Some,
        ensures
            match linear {
                Ok(linear) => linear.valid() && quantized_linear(
                    name@,
                    input_dim,
                    output_dim,
                    values@,
                    weight_multiplier,
                    activation_multiplier,
                    bias_of(bias),
                ) == Ok::<LinearContents, LoadFault>(linear@),
                Err(error) => quantized_linear(
                    name@,
                    input_dim,
                    output_dim,
                    values@,
                    weight_multiplier,
                    activation_multiplier,
                    bias_of(bias),
                ) == Err::<LinearContents, LoadFault>(error@),
            },
    {
        check_quantized(
            name,
            input_dim,
            output_dim,
            values.len(),
            weight_multiplier,
            activation_multiplier,
        )?;
        proof {
            assert(input_dim > 0 && output_dim > 0) by (nonlinear_arith)
                requires
                    input_dim * output_dim != 0,
            ;
        }
        let weight: rten_gemm::PackedBMatrix<i8> = pack(values.as_slice(), input_dim, output_dim);
        let bias: Vec<u32> = match bias {
            Some(bias) => bias,
            None => zero_patterns(output_dim),
        };
        if bias.len() != output_dim {
            return Err(
                LoadError::InvalidModel(
                    String::from_str("bias for ").concat(name).concat(" has ").concat(
                        decimal_usize(bias.len()).as_str(),
                    ).concat(" values, expected ").concat(decimal_usize(output_dim).as_str()),
                ),
            );
        }
        Ok(
            Linear {
                input_dim,
                output_dim,
                weight,
                activation_multiplier,
                weight_multiplier,
                bias,
            },
        )
    }
}

/// What is added to quantized inputs to make them unsigned.
pub const SHIFT: u8 = 127;

/// Largest shifted input: quantized inputs reach from -127 to 127.
pub const MAX_SHIFTED: u8 = 254;

/// A shifted input, brought back into range.
pub open spec fn clamped(value: u8) -> u8 {
    if value > MAX_SHIFTED {
        MAX_SHIFTED
    } else {
        value
    }
}

/// Brings shifted inputs back into range: quantization saturates at 255, but
/// clamping to 127 before the shift leaves 254 as the largest value.
pub fn clamp_shifted(values: &mut Vec<u8>)
    ensures
        final(values)@ == old(values)@.map_values(|value: u8| clamped(value)),
{
    let ghost before = values@;
    let mut at: usize = 0;
    while at < values.len()
        invariant
            at <= values@.len(),
            values@.len() == before.len(),
            forall|i: int| 0 <= i < at ==> #[trigger] values@[i] == clamped(before[i]),
            forall|i: int| at <= i < values@.len() ==> #[trigger] values@[i] == before[i],
        decreases values@.len() - at,
    {
        if values[at] > MAX_SHIFTED {
            values.set(at, MAX_SHIFTED);
        }
        at = at + 1;
    }
    proof {
        assert(values@ =~= before.map_values(|value: u8| clamped(value)));
    }
}

/// The error for inputs that do not fill whole rows.
pub open spec fn partial_row(count: nat, input_dim: usize) -> TranslateFault {
    TranslateFault::Runtime(
        "linear input length "@ + decimal_text(count) + " is not divisible by "@ + decimal_text(
            input_dim as nat,
        ),
    )
}

/// The product of shifted inputs and the weights of a transform, as far as it
/// is known.
pub open spec fn is_linear_product(
    product: Seq<i32>,
    inputs: Seq<u8>,
    rows: int,
    linear: LinearContents,
) -> bool {
    is_product(
        product,
        inputs,
        rows,
        SHIFT as int,
        linear.weights,
        linear.input_dim as int,
        linear.output_dim as int,
    )
}

/// The error of a failed product.
pub open spec fn failed_product(text: Seq<char>) -> TranslateFault {
    TranslateFault::Runtime("RTen int8 GEMM failed: "@ + text)
}

/// Turns the outcome of a product into that of a translation step.
pub fn finish_product(product: Result<Vec<i32>, String>) -> (finished: Result<
    Vec<i32>,
    TranslateError,
>)
    ensures
        match product {
            Ok(product) => finished matches Ok(finished) && finished@ == product@,
            Err(text) => finished matches Err(error) && error@ == failed_product(text@),
        },
{
    match product {
        Ok(product) => Ok(product),
        Err(text) => Err(
            TranslateError::Runtime(
                String::from_str("RTen int8 GEMM failed: ").concat(text.as_str()),
            ),
        ),
    }
}

impl Linear {
    /// Number of rows that inputs fill.
    pub fn row_count(&self, input_len: usize) -> (rows: Result<usize, TranslateError>)
        ensures
            match rows {
                Ok(rows) => rows * self@.input_dim == input_len,
                Err(error) => input_len % self@.input_dim != 0 && error@ == partial_row(
                    input_len as nat,
                    self@.input_dim,
                ),
            },
    {
        proof {
            use_type_invariant(self);
        }
        if input_len % self.input_dim != 0 {
            return Err(
                TranslateError::Runtime(
                    String::from_str("linear input length ").concat(
                        decimal_usize(input_len).as_str(),
                    ).concat(" is not divisible by ").concat(
                        decimal_usize(self.input_dim).as_str(),
                    ),
                ),
            );
        }
        proof {
            vstd::arithmetic::div_mod::lemma_fundamental_div_mod(
                input_len as int,
                self.input_dim as int,
            );
            assert(self.input_dim * (input_len / self.input_dim) == (input_len / self.input_dim)
                * self.input_dim) by (nonlinear_arith);
        }
        Ok(input_len / self.input_dim)
    }

    /// Multiplies rows of shifted inputs with the weights.
    pub fn apply_int8(&self, inputs: &[u8], rows: usize) -> (product: Result<
        Vec<i32>,
        TranslateError,
    >)
        requires
            self@.input_dim <= MAX_INNER,
            inputs@.len() == rows * self@.input_dim,
            4 * (rows * self@.output_dim) <= isize::MAX,
        ensures
            product matches Ok(product) && is_linear_product(
                product@,
                inputs@,
                rows as int,
                self@,
            ),
    {
        proof {
            use_type_invariant(self);
        }
        let mut zero_points: Vec<u8> = Vec::with_capacity(rows);
        while zero_points.len() < rows
            invariant
                zero_points@.len() <= rows,
                forall|r: int| 0 <= r < zero_points@.len() ==> #[trigger] zero_points@[r] == SHIFT,
            decreases rows - zero_points@.len(),
        {
            zero_points.push(SHIFT);
        }
        let outcome = multiply(inputs, rows, zero_points.as_slice(), &self.weight);
        proof {
            let product = outcome->Ok_0@;
            let cols = self@.output_dim as int;
            let inner = self@.input_dim as int;
            let weights = self@.weights;
            let shift = zero_points@[0] as int;
            let saturates = choose|saturates: bool| #[trigger]
                pairs_add_up(product, inputs@, rows as int, shift, weights, inner, cols, saturates);
            assert forall|row: int, col: int| 0 <= row < rows && 0 <= col < cols implies product[row
                * cols + col] == #[trigger] paired_dot(
                inputs@,
                row,
                weights,
                col,
                inner,
                SHIFT as int,
                saturates,
            ) by {
                assert(zero_points@[0] == SHIFT);
                assert(product[row * cols + col] == paired_dot(
                    inputs@,
                    row,
                    weights,
                    col,
                    inner,
                    shift,
                    saturates,
                ));
            }
            assert(pairs_add_up(
                product,
                inputs@,
                rows as int,
                SHIFT as int,
                weights,
                inner,
                cols,
                saturates,
            ));
        }
        finish_product(outcome)
    }
}

/// Pairs that fit add up to the plain sum, whether they saturate or not.
proof fn fitting_pairs_add_up(
    inputs: Seq<u8>,
    row: int,
    weights: Seq<i8>,
    col: int,
    inner: int,
    shift: int,
    saturates: bool,
    upto: nat,
)
    requires
        pairs_fit(inputs, row, weights, col, inner),
        2 * upto <= inner,
    ensures
        pairs_total(inputs, row, weights, col, inner, saturates, upto) == shifted_dot(
            inputs,
            row,
            weights,
            col,
            inner,
            shift,
            2 * upto,
        ) + shift * column_sum(weights, col, inner, 2 * upto),
    decreases upto,
{
    if upto == 0 {
        assert(shift * 0 == 0);
    } else {
        let before = (upto - 1) as nat;
        fitting_pairs_add_up(inputs, row, weights, col, inner, shift, saturates, before);
        let pair = pair_sum(inputs, row, weights, col, inner, upto - 1);
        assert(-0x8000 <= pair < 0x8000);
        dots_go_on(inputs, row, weights, col, inner, shift, 2 * before);
        dots_go_on(inputs, row, weights, col, inner, shift, 2 * before + 1);
    }
}

proof fn dots_go_on(
    inputs: Seq<u8>,
    row: int,
    weights: Seq<i8>,
    col: int,
    inner: int,
    shift: int,
    upto: nat,
)
    requires
        upto < inner,
    ensures
        shifted_dot(inputs, row, weights, col, inner, shift, upto + 1) + shift * column_sum(
            weights,
            col,
            inner,
            upto + 1,
        ) == shifted_dot(inputs, row, weights, col, inner, shift, upto) + shift * column_sum(
            weights,
            col,
            inner,
            upto,
        ) + raw_product(inputs, row, weights, col, inner, upto as int),
{
    let input = inputs[row * inner + upto] as int;
    let weight = weights[col * inner + upto] as int;
    let sum = column_sum(weights, col, inner, upto);
    assert((input - shift) * weight + shift * (sum + weight) == input * weight + shift * sum)
        by (nonlinear_arith);
}

/// A number of a product is the exact sum of products, with the shift taken
/// back, where each pair of products fits in 16 bits: then none saturates.
pub proof fn fitting_pairs_are_exact(
    product: Seq<i32>,
    inputs: Seq<u8>,
    rows: int,
    linear: LinearContents,
    row: int,
    col: int,
)
    requires
        is_linear_product(product, inputs, rows, linear),
        0 <= row < rows,
        0 <= col < linear.output_dim,
        pairs_fit(inputs, row, linear.weights, col, linear.input_dim as int),
    ensures
        product[row * linear.output_dim + col] == shifted_dot(
            inputs,
            row,
            linear.weights,
            col,
            linear.input_dim as int,
            SHIFT as int,
            linear.input_dim as nat,
        ),
{
    let inner = linear.input_dim as int;
    let cols = linear.output_dim as int;
    let weights = linear.weights;
    let shift = SHIFT as int;
    let saturates = choose|saturates: bool| #[trigger]
        pairs_add_up(product, inputs, rows, shift, weights, inner, cols, saturates);
    let pairs = (inner / 2) as nat;
    assert(product[row * cols + col] == paired_dot(
        inputs,
        row,
        weights,
        col,
        inner,
        shift,
        saturates,
    ));
    fitting_pairs_add_up(inputs, row, weights, col, inner, shift, saturates, pairs);
    if inner % 2 == 1 {
        let pair = pair_sum(inputs, row, weights, col, inner, pairs as int);
        assert(-0x8000 <= pair < 0x8000);
        dots_go_on(inputs, row, weights, col, inner, shift, 2 * pairs);
    }
}

/// Products with weights from -64 to 64 never saturate.
pub proof fn small_weights_are_exact(
    product: Seq<i32>,
    inputs: Seq<u8>,
    rows: int,
    linear: LinearContents,
    row: int,
    col: int,
)
    requires
        is_linear_product(product, inputs, rows, linear),
        linear.well_formed(),
        0 <= row < rows,
        0 <= col < linear.output_dim,
        forall|k: int| 0 <= k < linear.weights.len() ==> -64 <= #[trigger] linear.weights[k] <= 64,
    ensures
        product[row * linear.output_dim + col] == shifted_dot(
            inputs,
            row,
            linear.weights,
            col,
            linear.input_dim as int,
            SHIFT as int,
            linear.input_dim as nat,
        ),
{
    let inner = linear.input_dim as int;
    let cols = linear.output_dim as int;
    let weights = linear.weights;
    assert forall|at: int| 0 <= at implies -0x4000 < #[trigger] raw_product(
        inputs,
        row,
        weights,
        col,
        inner,
        at,
    ) < 0x4000 by {
        if at < inner {
            assert(0 <= col * inner + at < inner * cols) by (nonlinear_arith)
                requires
                    0 <= at < inner,
                    0 <= col < cols,
            ;
            let input = inputs[row * inner + at];
            let weight = weights[col * inner + at];
            assert(-64 <= weight <= 64);
            assert(-0x4000 < input * weight < 0x4000) by (nonlinear_arith)
                requires
                    0 <= input <= 255,
                    -64 <= weight <= 64,
            ;
        }
    }
    assert(pairs_fit(inputs, row, weights, col, inner));
    fitting_pairs_are_exact(product, inputs, rows, linear, row, col);
}

/// The sum of the products of a row of signed inputs and a column of weights.
pub open spec fn plain_dot(
    inputs: Seq<int>,
    row: int,
    weights: Seq<i8>,
    col: int,
    inner: int,
    upto: nat,
) -> int
    decreases upto,
{
    if upto == 0 {
        0
    } else {
        plain_dot(inputs, row, weights, col, inner, (upto - 1) as nat) + inputs[row * inner + upto
            - 1] * weights[col * inner + upto - 1]
    }
}

/// Shifting the inputs does not change the product: the shift is taken back.
pub proof fn shift_is_taken_back(
    signed: Seq<int>,
    inputs: Seq<u8>,
    row: int,
    weights: Seq<i8>,
    col: int,
    inner: int,
    upto: nat,
)
    requires
        forall|k: int|
            row * inner <= k < row * inner + upto ==> #[trigger] inputs[k] == signed[k] + SHIFT,
    ensures
        shifted_dot(inputs, row, weights, col, inner, SHIFT as int, upto) == plain_dot(
            signed,
            row,
            weights,
            col,
            inner,
            upto,
        ),
    decreases upto,
{
    if upto > 0 {
        shift_is_taken_back(signed, inputs, row, weights, col, inner, (upto - 1) as nat);
        assert(inputs[row * inner + upto - 1] - SHIFT == signed[row * inner + upto - 1]);
    }
}

/// A plan of products has room for every product: there are as many matrices
/// on both sides, all of the same dimensions as the first, and each product
/// takes as many elements as it has rows and columns. Every element of every
/// matrix lies in its buffer.
pub proof fn planned_products_have_room(
    lhs: Seq<MatrixView>,
    lhs_len: int,
    rhs: Seq<MatrixView>,
    rhs_len: int,
    plan: BatchPlan,
    at: int,
    row: int,
    inner: int,
    col: int,
)
    requires
        batch_plan(lhs, lhs_len, rhs, rhs_len) == Ok::<BatchPlan, TranslateFault>(plan),
        0 <= at < lhs.len(),
        0 <= row < lhs[at].rows,
        0 <= inner < lhs[at].cols,
        0 <= col < rhs[at].cols,
    ensures
        lhs.len() == rhs.len(),
        lhs[at].cols == rhs[at].rows,
        plan.output_stride == lhs[at].rows * rhs[at].cols,
        plan.output_len == lhs.len() * plan.output_stride,
        lhs[at].offset + row * lhs[at].row_stride + inner * lhs[at].col_stride < lhs_len,
        rhs[at].offset + inner * rhs[at].row_stride + col * rhs[at].col_stride < rhs_len,
        at * plan.output_stride + row * rhs[at].cols + col < plan.output_len,
{
    no_fault_before(lhs, lhs_len, rhs, rhs_len, 0, at);
    elements_are_inside(lhs[at], lhs_len, row, inner);
    elements_are_inside(rhs[at], rhs_len, inner, col);
    let stride = plan.output_stride as int;
    let cols = rhs[at].cols as int;
    assert(row * cols + col < stride) by (nonlinear_arith)
        requires
            row + 1 <= lhs[at].rows,
            0 <= col < cols,
            stride == lhs[at].rows * cols,
    ;
    assert(at * stride + stride <= lhs.len() * stride) by (nonlinear_arith)
        requires
            at + 1 <= lhs.len(),
            0 <= stride,
    ;
}

proof fn faults_are_absent(
    lhs: Seq<MatrixView>,
    lhs_len: int,
    rhs: Seq<MatrixView>,
    rhs_len: int,
    from: nat,
)
    requires
        forall|at: int|
            from <= at < lhs.len() ==> #[trigger] pair_fault(lhs, lhs_len, rhs, rhs_len, at)
                is None,
    ensures
        first_pair_fault(lhs, lhs_len, rhs, rhs_len, from) is None,
    decreases lhs.len() - from,
{
    if from < lhs.len() {
        assert(pair_fault(lhs, lhs_len, rhs, rhs_len, from as int) is None);
        faults_are_absent(lhs, lhs_len, rhs, rhs_len, from + 1);
    }
}

/// Products of matrices that match and lie in their buffers are planned,
/// unless there are more elements than can be counted.
pub proof fn matching_products_are_planned(
    lhs: Seq<MatrixView>,
    lhs_len: int,
    rhs: Seq<MatrixView>,
    rhs_len: int,
    rows: usize,
    inner: usize,
    cols: usize,
)
    requires
        lhs.len() == rhs.len(),
        rows > 0,
        inner > 0,
        cols > 0,
        lhs.len() * (rows * cols) <= usize::MAX,
        forall|at: int|
            0 <= at < lhs.len() ==> {
                let view = #[trigger] lhs[at];
                &&& view.rows == rows
                &&& view.cols == inner
                &&& view.offset + (rows - 1) * view.row_stride + (inner - 1) * view.col_stride
                    < lhs_len
            },
        forall|at: int|
            0 <= at < rhs.len() ==> {
                let view = #[trigger] rhs[at];
                &&& view.rows == inner
                &&& view.cols == cols
                &&& view.offset + (inner - 1) * view.row_stride + (cols - 1) * view.col_stride
                    < rhs_len
            },
    ensures
        batch_plan(lhs, lhs_len, rhs, rhs_len) is Ok,
{
    if lhs.len() > 0 {
        assert(lhs[0].rows == rows && rhs[0].cols == cols && lhs[0].cols == inner);
        assert(rows * cols <= lhs.len() * (rows * cols)) by (nonlinear_arith)
            requires
                lhs.len() > 0,
                0 <= rows * cols,
        ;
        assert(0 <= rows * cols) by (nonlinear_arith);
        assert forall|at: int| 0 <= at < lhs.len() implies #[trigger] pair_fault(
            lhs,
            lhs_len,
            rhs,
            rhs_len,
            at,
        ) is None by {
            let left = lhs[at];
            let right = rhs[at];
            assert(0 <= (rows - 1) * left.row_stride) by (nonlinear_arith)
                requires
                    rows > 0,
            ;
            assert(0 <= (inner - 1) * left.col_stride) by (nonlinear_arith)
                requires
                    inner > 0,
            ;
            assert(0 <= (inner - 1) * right.row_stride) by (nonlinear_arith)
                requires
                    inner > 0,
            ;
            assert(0 <= (cols - 1) * right.col_stride) by (nonlinear_arith)
                requires
                    cols > 0,
            ;
        }
        faults_are_absent(lhs, lhs_len, rhs, rhs_len, 0);
    }
}

/// A transform is made exactly where there is a weight for every pair of an
/// input and an output, the scale factors can be used and the bias, if there
/// is one, has a number per output. It has the weights, scale factors and
/// bias that it is made of; without a bias, all zeros.
pub proof fn transforms_hold_their_numbers(
    name: Seq<char>,
    input_dim: usize,
    output_dim: usize,
    values: Seq<i8>,
    weight_multiplier: u32,
    activation_multiplier: Scalar,
    bias: Option<Seq<u32>>,
    linear: LinearContents,
)
    ensures
        quantized_linear(
            name,
            input_dim,
            output_dim,
            values,
            weight_multiplier,
            activation_multiplier,
            bias,
        ) == Ok::<LinearContents, LoadFault>(linear) <==> {
            &&& linear.input_dim == input_dim
            &&& linear.output_dim == output_dim
            &&& linear.weights == values
            &&& linear.weight_multiplier == weight_multiplier
            &&& linear.activation_multiplier == activation_multiplier
            &&& linear.bias.len() == output_dim
            &&& match bias {
                Some(bias) => linear.bias == bias,
                None => forall|i: int|
                    0 <= i < linear.bias.len() ==> #[trigger] linear.bias[i] == 0,
            }
            &&& values.len() == input_dim * output_dim
            &&& input_dim * output_dim <= usize::MAX
            &&& activation_multiplier.usable()
            &&& finite_and_positive(weight_multiplier)
        },
{
    if bias is None && linear.bias.len() == output_dim && (forall|i: int|
        0 <= i < linear.bias.len() ==> #[trigger] linear.bias[i] == 0) {
        assert(linear.bias =~= zeros(output_dim as nat));
    }
}

proof fn dots_are_sums(
    inputs: Seq<u8>,
    row: int,
    weights: Seq<i8>,
    col: int,
    inner: int,
    upto: nat,
)
    ensures
        shifted_dot(inputs, row, weights, col, inner, 127, upto) == Seq::new(
            upto,
            |i: int| (inputs[row * inner + i] - 127) * weights[col * inner + i],
        ).fold_left(0, |sum: int, product: int| sum + product),
    decreases upto,
{
    let products = Seq::new(
        upto,
        |i: int| (inputs[row * inner + i] - 127) * weights[col * inner + i],
    );
    if upto > 0 {
        let before = (upto - 1) as nat;
        dots_are_sums(inputs, row, weights, col, inner, before);
        assert(products.drop_last() =~= Seq::new(
            before,
            |i: int| (inputs[row * inner + i] - 127) * weights[col * inner + i],
        ));
        assert(row * inner + upto - 1 == row * inner + before);
    }
}

/// A number of a product with weights from -64 to 64 is the sum, over the
/// inputs of its row, of the input less 127 times the weight that its column
/// has for that input.
pub proof fn products_are_sums(
    product: Seq<i32>,
    inputs: Seq<u8>,
    rows: int,
    linear: LinearContents,
    row: int,
    col: int,
)
    requires
        is_linear_product(product, inputs, rows, linear),
        linear.well_formed(),
        0 <= row < rows,
        0 <= col < linear.output_dim,
        forall|k: int| 0 <= k < linear.weights.len() ==> -64 <= #[trigger] linear.weights[k] <= 64,
    ensures
        product.len() == rows * linear.output_dim,
        product[row * linear.output_dim + col] == Seq::new(
            linear.input_dim as nat,
            |i: int|
                (inputs[row * linear.input_dim + i] - 127) * linear.weights[col * linear.input_dim
                    + i],
        ).fold_left(0, |sum: int, product: int| sum + product),
{
    small_weights_are_exact(product, inputs, rows, linear, row, col);
    dots_are_sums(
        inputs,
        row,
        linear.weights,
        col,
        linear.input_dim as int,
        linear.input_dim as nat,
    );
    assert(Seq::new(
        linear.input_dim as nat,
        |i: int|
            (inputs[row * linear.input_dim + i] - 127) * linear.weights[col * linear.input_dim + i],
    ) =~= Seq::new(
        linear.input_dim as nat,
        |i: int|
            (inputs[row * (linear.input_dim as int) + i] - 127) * linear.weights[col * (
            linear.input_dim as int) + i],
    ));
}

/// Clamping keeps a shifted input that stands for a number from -127 to 127,
/// and takes any other to 127.
pub proof fn clamping_keeps_numbers_in_range(value: u8)
    ensures
        -127 <= clamped(value) - 127 <= 127,
        value - 127 <= 127 ==> clamped(value) == value,
        value - 127 > 127 ==> clamped(value) - 127 == 127,
{
}

/// A scale factor can be used exactly where the number, or the quotient, is
/// positive and not infinite.
pub proof fn usable_scales_are_positive(bits: u32, value: i8, multiplier: u32)
    ensures
        Scalar::Float(bits).usable() <==> 0 < bits < 0x7f80_0000,
        (Scalar::Ratio { value, multiplier }).usable() <==> 0 < quotient_of(value, multiplier)
            < 0x7f80_0000,
{
}

/// A transform whose weights are a tensor has its dimensions, its weights and
/// its multiplier; the tensor must have two dimensions and quantized numbers.
pub proof fn transforms_hold_their_tensors(
    tensor: TensorContents,
    bias: Option<Vec<u32>>,
    activation_multiplier: Scalar,
    linear: LinearContents,
)
    requires
        tensor_linear(tensor, bias_of(bias), activation_multiplier) == Ok::<
            LinearContents,
            LoadFault,
        >(linear),
    ensures
        tensor.shape.len() == 2,
        linear.input_dim == tensor.shape[0],
        linear.output_dim == tensor.shape[1],
        tensor.data == (DataContents::QuantizedI8 {
            values: linear.weights,
            multiplier: linear.weight_multiplier,
        }),
        linear.activation_multiplier == activation_multiplier,
        match bias {
            Some(bias) => linear.bias == bias@,
            None => forall|k: int| 0 <= k < linear.bias.len() ==> #[trigger] linear.bias[k] == 0,
        },
{
}

} // verus!
