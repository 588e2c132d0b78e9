//! State between decoding steps, and the layout of batches.

use crate::error::{TranslateError, TranslateFault};
use vstd::prelude::*;
use vstd::string::*;

verus! {

/// The recurrent state of every decoder layer, row by row.
pub struct DecoderState<T> {
    /// One list of numbers per layer.
    pub cells: Vec<Vec<T>>,
}

/// The numbers of a list of lists.
pub open spec fn cell_lists<T>(cells: Seq<Vec<T>>) -> Seq<Seq<T>> {
    cells.map_values(|layer: Vec<T>| layer@)
}

impl<T> View for DecoderState<T> {
    type V = Seq<Seq<T>>;

    open spec fn view(&self) -> Seq<Seq<T>> {
        cell_lists(self.cells@)
    }
}

/// A row of numbers.
pub open spec fn row_of<T>(numbers: Seq<T>, row: int, dim: int) -> Seq<T> {
    numbers.subrange(row * dim, (row + 1) * dim)
}

/// The given rows, one after the other.
pub open spec fn selected_rows<T>(numbers: Seq<T>, rows: Seq<usize>, dim: int) -> Seq<T>
    decreases rows.len(),
{
    if rows.len() == 0 {
        Seq::empty()
    } else {
        selected_rows(numbers, rows.drop_last(), dim) + row_of(numbers, rows.last() as int, dim)
    }
}

/// Every given row exists.
pub open spec fn rows_exist<T>(numbers: Seq<T>, rows: Seq<usize>, dim: int) -> bool {
    forall|k: int| 0 <= k < rows.len() ==> (#[trigger] rows[k] + 1) * dim <= numbers.len()
}

/// Copies the given rows.
fn select_rows<T: Copy>(numbers: &Vec<T>, rows: &[usize], dim: usize) -> (selected: Vec<T>)
    requires
        rows_exist(numbers@, rows@, dim as int),
    ensures
        selected@ == selected_rows(numbers@, rows@, dim as int),
{
    let mut selected: Vec<T> = Vec::new();
    let mut at: usize = 0;
    proof {
        assert(rows@.take(0) == Seq::<usize>::empty());
    }
    while at < rows.len()
        invariant
            at <= rows@.len(),
            rows_exist(numbers@, rows@, dim as int),
            selected@ == selected_rows(numbers@, rows@.take(at as int), dim as int),
        decreases rows@.len() - at,
    {
        let row: usize = rows[at];
        let ghost before = selected@;
        proof {
            assert((rows@[at as int] + 1) * dim <= numbers@.len());
            assert(numbers.len() == numbers@.len());
            assert(row * dim + dim == (row + 1) * dim && row * dim >= 0) by (nonlinear_arith);
            assert(rows@.take(at + 1).drop_last() == rows@.take(at as int));
        }
        let start: usize = row * dim;
        let mut col: usize = 0;
        proof {
            assert(before + numbers@.subrange(start as int, start as int) == before);
        }
        while col < dim
            invariant
                col <= dim,
                start + dim <= numbers@.len(),
                selected@ == before + numbers@.subrange(start as int, start + col),
            decreases dim - col,
        {
            proof {
                assert(numbers.len() == numbers@.len());
                assert(numbers@.subrange(start as int, start + col + 1) == numbers@.subrange(
                    start as int,
                    start + col,
                ).push(numbers@[start + col]));
            }
            selected.push(numbers[start + col]);
            col = col + 1;
        }
        proof {
            assert(numbers@.subrange(start as int, start + dim) == row_of(
                numbers@,
                row as int,
                dim as int,
            ));
        }
        at = at + 1;
    }
    proof {
        assert(rows@.take(at as int) == rows@);
    }
    selected
}

impl<T: Copy> DecoderState<T> {
    /// The state before the first step: `zero` everywhere.
    pub fn new(layers: usize, rows: usize, dim: usize, zero: T) -> (state: DecoderState<T>)
        requires
            rows * dim <= usize::MAX,
        ensures
            state@ == Seq::new(
                layers as nat,
                |layer: int| Seq::new((rows * dim) as nat, |i: int| zero),
            ),
    {
        let count: usize = rows * dim;
        let mut cells: Vec<Vec<T>> = Vec::new();
        while cells.len() < layers
            invariant
                cells@.len() <= layers,
                forall|l: int|
                    0 <= l < cells@.len() ==> (#[trigger] cells@[l])@ == Seq::new(
                        count as nat,
                        |i: int| zero,
                    ),
            decreases layers - cells@.len(),
        {
            let mut layer: Vec<T> = Vec::new();
            while layer.len() < count
                invariant
                    layer@.len() <= count,
                    layer@ == Seq::new(layer@.len(), |i: int| zero),
                decreases count - layer@.len(),
            {
                layer.push(zero);
            }
            cells.push(layer);
        }
        let state = DecoderState { cells };
        proof {
            assert forall|l: int| 0 <= l < layers implies #[trigger] state@[l] == Seq::new(
                (rows * dim) as nat,
                |i: int| zero,
            ) by {
                assert(cells@[l]@ == Seq::new(count as nat, |i: int| zero));
            }
            assert(state@ =~= Seq::new(
                layers as nat,
                |layer: int| Seq::new((rows * dim) as nat, |i: int| zero),
            ));
        }
        state
    }

    /// Keeps the given rows of every layer, in the given order.
    pub fn select(self, rows: &[usize], dim: usize) -> (selected: DecoderState<T>)
        requires
            forall|l: int|
                0 <= l < self@.len() ==> rows_exist(#[trigger] self@[l], rows@, dim as int),
        ensures
            selected@ == self@.map_values(|layer: Seq<T>| selected_rows(layer, rows@, dim as int)),
    {
        let mut cells: Vec<Vec<T>> = Vec::new();
        while cells.len() < self.cells.len()
            invariant
                cells@.len() <= self.cells@.len(),
                forall|l: int|
                    0 <= l < self@.len() ==> rows_exist(#[trigger] self@[l], rows@, dim as int),
                forall|l: int|
                    0 <= l < cells@.len() ==> (#[trigger] cells@[l])@ == selected_rows(
                        self@[l],
                        rows@,
                        dim as int,
                    ),
            decreases self.cells@.len() - cells@.len(),
        {
            let layer: &Vec<T> = &self.cells[cells.len()];
            proof {
                assert(self@[cells@.len() as int] == layer@);
            }
            cells.push(select_rows(layer, rows, dim));
        }
        let selected = DecoderState { cells };
        proof {
            assert forall|l: int| 0 <= l < self@.len() implies #[trigger] selected@[l]
                == selected_rows(self@[l], rows@, dim as int) by {
                assert(cells@[l]@ == selected_rows(self@[l], rows@, dim as int));
            }
            assert(selected@ =~= self@.map_values(
                |layer: Seq<T>| selected_rows(layer, rows@, dim as int),
            ));
        }
        selected
    }
}

proof fn selection_has_length<T>(numbers: Seq<T>, rows: Seq<usize>, dim: int)
    requires
        rows_exist(numbers, rows, dim),
        dim >= 0,
    ensures
        selected_rows(numbers, rows, dim).len() == rows.len() * dim,
    decreases rows.len(),
{
    if rows.len() > 0 {
        let last = rows.len() - 1;
        assert((rows[last] + 1) * dim <= numbers.len());
        assert(rows_exist(numbers, rows.drop_last(), dim)) by {
            assert forall|k: int| 0 <= k < rows.drop_last().len() implies (
            #[trigger] rows.drop_last()[k] + 1) * dim <= numbers.len() by {
                assert((rows[k] + 1) * dim <= numbers.len());
            }
        }
        selection_has_length(numbers, rows.drop_last(), dim);
        assert((rows[last] + 1) * dim == rows[last] * dim + dim && rows[last] * dim >= 0)
            by (nonlinear_arith)
            requires
                dim >= 0,
        ;
        assert(rows.len() * dim == (rows.len() - 1) * dim + dim) by (nonlinear_arith);
    } else {
        assert(0 * dim == 0) by (nonlinear_arith);
    }
}

/// Row `k` of a selection is the row that was asked for at place `k`.
pub proof fn selections_follow_rows<T>(numbers: Seq<T>, rows: Seq<usize>, dim: int, k: int)
    requires
        rows_exist(numbers, rows, dim),
        dim >= 0,
        0 <= k < rows.len(),
    ensures
        selected_rows(numbers, rows, dim).len() == rows.len() * dim,
        row_of(selected_rows(numbers, rows, dim), k, dim) == row_of(
            numbers,
            rows[k] as int,
            dim,
        ),
    decreases rows.len(),
{
    selection_has_length(numbers, rows, dim);
    let last = rows.len() - 1;
    let fewer = rows.drop_last();
    assert(rows_exist(numbers, fewer, dim)) by {
        assert forall|i: int| 0 <= i < fewer.len() implies (#[trigger] fewer[i] + 1) * dim
            <= numbers.len() by {
            assert((rows[i] + 1) * dim <= numbers.len());
        }
    }
    selection_has_length(numbers, fewer, dim);
    let before = selected_rows(numbers, fewer, dim);
    let all = selected_rows(numbers, rows, dim);
    assert((rows[k] + 1) * dim <= numbers.len());
    assert((rows[last] + 1) * dim <= numbers.len());
    assert(0 <= k * dim && (k + 1) * dim == k * dim + dim && (k + 1) * dim <= rows.len() * dim)
        by (nonlinear_arith)
        requires
            0 <= k,
            k + 1 <= rows.len(),
            dim >= 0,
    ;
    assert((rows[k] + 1) * dim == rows[k] * dim + dim && rows[k] * dim >= 0) by (nonlinear_arith)
        requires
            dim >= 0,
    ;
    if k < last {
        selections_follow_rows(numbers, fewer, dim, k);
        assert((k + 1) * dim <= fewer.len() * dim) by (nonlinear_arith)
            requires
                k + 1 <= fewer.len(),
                dim >= 0,
        ;
        assert(row_of(all, k, dim) =~= row_of(before, k, dim));
    } else {
        assert(fewer.len() * dim == k * dim);
        assert(row_of(all, k, dim) =~= row_of(numbers, rows[k] as int, dim));
    }
}

/// The error for a batch whose lengths do not fit.
pub open spec fn batch_fault() -> TranslateFault {
    TranslateFault::Runtime("invalid source batch dimensions"@)
}

/// Checks the lengths of a source batch.
pub fn check_source_batch(source_len: usize, mask_len: usize, batch_size: usize, width: usize) -> (checked:
    Result<(), TranslateError>)
    ensures
        match checked {
            Ok(_) => source_len == batch_size * width && mask_len == source_len,
            Err(error) => !(source_len == batch_size * width && mask_len == source_len) && error@
                == batch_fault(),
        },
{
    match batch_size.checked_mul(width) {
        Some(expected) => {
            if source_len == expected && mask_len == source_len {
                return Ok(());
            }
        },
        None => {},
    }
    Err(TranslateError::Runtime(String::from_str("invalid source batch dimensions")))
}

/// Checks the lengths of a decoder batch.
pub fn check_decoder_batch(source_count: usize, row_count: usize) -> (checked: Result<
    (),
    TranslateError,
>)
    ensures
        match checked {
            Ok(_) => source_count == row_count,
            Err(error) => source_count != row_count && error@ == TranslateFault::Runtime(
                "invalid decoder batch dimensions"@,
            ),
        },
{
    if source_count != row_count {
        Err(TranslateError::Runtime(String::from_str("invalid decoder batch dimensions")))
    } else {
        Ok(())
    }
}

/// Position of a number in a batch that is stored position by position.
pub open spec fn time_major(batch_size: int, dim: int, batch: int, time: int, col: int) -> int {
    (time * batch_size + batch) * dim + col
}

/// Position of the same number in a batch that is stored sentence by sentence.
pub open spec fn sentence_major(width: int, dim: int, batch: int, time: int, col: int) -> int {
    (batch * width + time) * dim + col
}

/// The sentences of a batch are contiguous: each number stands where its
/// sentence, its position and its column put it.
pub open spec fn sentences_contiguous<T>(
    hidden: Seq<T>,
    numbers: Seq<T>,
    batch_size: int,
    width: int,
    dim: int,
) -> bool {
    &&& hidden.len() == numbers.len()
    &&& forall|batch: int, time: int, col: int|
        #![trigger hidden[sentence_major(width, dim, batch, time, col)]]
        0 <= batch < batch_size && 0 <= time < width && 0 <= col < dim
            ==> hidden[sentence_major(width, dim, batch, time, col)] == numbers[time_major(
            batch_size,
            dim,
            batch,
            time,
            col,
        )]
}

proof fn cell_bounds(outer: int, outer_count: int, inner: int, inner_count: int, dim: int, col: int)
    requires
        0 <= outer < outer_count,
        0 <= inner < inner_count,
        0 <= col < dim,
    ensures
        0 <= outer * inner_count + inner < outer_count * inner_count,
        0 <= (outer * inner_count + inner) * dim,
        (outer * inner_count + inner) * dim + col < outer_count * inner_count * dim,
        ((outer * inner_count + inner) * dim + col) / dim == outer * inner_count + inner,
        ((outer * inner_count + inner) * dim + col) % dim == col,
        (outer * inner_count + inner) / inner_count == outer,
        (outer * inner_count + inner) % inner_count == inner,
{
    assert(0 <= outer * inner_count && outer * inner_count + inner_count <= outer_count
        * inner_count) by (nonlinear_arith)
        requires
            0 <= outer,
            outer + 1 <= outer_count,
            0 <= inner_count,
    ;
    let line = outer * inner_count + inner;
    let lines = outer_count * inner_count;
    assert(0 <= line * dim && line * dim + dim <= lines * dim) by (nonlinear_arith)
        requires
            0 <= line,
            line + 1 <= lines,
            0 <= dim,
    ;
    vstd::arithmetic::div_mod::lemma_fundamental_div_mod_converse(
        line * dim + col,
        dim,
        line,
        col,
    );
    vstd::arithmetic::div_mod::lemma_fundamental_div_mod_converse(line, inner_count, outer, inner);
}

/// The number that stands at a position of a batch that is stored sentence by
/// sentence.
spec fn transposed<T>(numbers: Seq<T>, batch_size: int, width: int, dim: int, index: int) -> T {
    let line = index / dim;
    numbers[time_major(batch_size, dim, line / width, line % width, index % dim)]
}

/// Stores a batch sentence by sentence.
///
/// Tokens come position by position; attention is simpler with each sentence
/// contiguous.
pub fn to_sentence_major<T: Copy>(numbers: &[T], batch_size: usize, width: usize, dim: usize) -> (hidden:
    Vec<T>)
    requires
        numbers@.len() == batch_size * width * dim,
    ensures
        sentences_contiguous(
            hidden@,
            numbers@,
            batch_size as int,
            width as int,
            dim as int,
        ),
{
    let mut hidden: Vec<T> = Vec::with_capacity(numbers.len());
    let mut batch: usize = 0;
    proof {
        assert((0 * width) * dim == 0) by (nonlinear_arith);
    }
    while batch < batch_size
        invariant
            batch <= batch_size,
            numbers@.len() == batch_size * width * dim,
            hidden@.len() == batch * width * dim,
            forall|i: int|
                0 <= i < hidden@.len() ==> #[trigger] hidden@[i] == transposed(
                    numbers@,
                    batch_size as int,
                    width as int,
                    dim as int,
                    i,
                ),
        decreases batch_size - batch,
    {
        let mut time: usize = 0;
        while time < width
            invariant
                time <= width,
                batch < batch_size,
                numbers@.len() == batch_size * width * dim,
                hidden@.len() == (batch * width + time) * dim,
                forall|i: int|
                    0 <= i < hidden@.len() ==> #[trigger] hidden@[i] == transposed(
                        numbers@,
                        batch_size as int,
                        width as int,
                        dim as int,
                        i,
                    ),
            decreases width - time,
        {
            let mut col: usize = 0;
            while col < dim
                invariant
                    col <= dim,
                    time < width,
                    batch < batch_size,
                    numbers@.len() == batch_size * width * dim,
                    hidden@.len() == (batch * width + time) * dim + col,
                    forall|i: int|
                        0 <= i < hidden@.len() ==> #[trigger] hidden@[i] == transposed(
                            numbers@,
                            batch_size as int,
                            width as int,
                            dim as int,
                            i,
                        ),
                decreases dim - col,
            {
                proof {
                    assert(numbers.len() == numbers@.len());
                    cell_bounds(
                        batch as int,
                        batch_size as int,
                        time as int,
                        width as int,
                        dim as int,
                        col as int,
                    );
                    cell_bounds(
                        time as int,
                        width as int,
                        batch as int,
                        batch_size as int,
                        dim as int,
                        col as int,
                    );
                    assert(width * batch_size == batch_size * width) by (nonlinear_arith);
                    assert(batch_size * width <= batch_size * width * dim) by (nonlinear_arith)
                        requires
                            dim > 0,
                            batch_size * width >= 0,
                    ;
                }
                hidden.push(numbers[(time * batch_size + batch) * dim + col]);
                col = col + 1;
            }
            proof {
                assert((batch * width + time) * dim + dim == (batch * width + (time + 1)) * dim)
                    by (nonlinear_arith);
            }
            time = time + 1;
        }
        proof {
            assert(batch * width + width == (batch + 1) * width) by (nonlinear_arith);
        }
        batch = batch + 1;
    }
    proof {
        assert forall|b: int, t: int, c: int|
            #![trigger hidden@[sentence_major(width as int, dim as int, b, t, c)]]
            0 <= b < batch_size && 0 <= t < width && 0 <= c
                < dim implies hidden@[sentence_major(width as int, dim as int, b, t, c)]
            == numbers@[time_major(batch_size as int, dim as int, b, t, c)] by {
            cell_bounds(b, batch_size as int, t, width as int, dim as int, c);
        }
    }
    hidden
}

/// Number `c` of kept row `k` is number `c` of the row that is named there.
pub proof fn selections_hold_numbers<T>(
    numbers: Seq<T>,
    rows: Seq<usize>,
    dim: int,
    k: int,
    c: int,
)
    requires
        rows_exist(numbers, rows, dim),
        0 <= k < rows.len(),
        0 <= c < dim,
    ensures
        selected_rows(numbers, rows, dim).len() == rows.len() * dim,
        selected_rows(numbers, rows, dim)[k * dim + c] == numbers[rows[k] * dim + c],
{
    selections_follow_rows(numbers, rows, dim, k);
    let selected = selected_rows(numbers, rows, dim);
    assert((rows[k] + 1) * dim <= numbers.len());
    assert(0 <= rows[k] * dim && (rows[k] + 1) * dim == rows[k] * dim + dim) by (nonlinear_arith)
        requires
            0 <= dim,
    ;
    assert(0 <= k * dim && (k + 1) * dim == k * dim + dim && (k + 1) * dim <= rows.len() * dim)
        by (nonlinear_arith)
        requires
            0 <= k,
            k + 1 <= rows.len(),
            0 <= dim,
    ;
    assert(row_of(selected, k, dim)[c] == selected[k * dim + c]);
    assert(row_of(numbers, rows[k] as int, dim)[c] == numbers[rows[k] * dim + c]);
}

/// Where sentences are contiguous, number `col` at position `time` of sentence
/// `batch` is the one that a batch stored position by position has there.
pub proof fn sentences_hold_numbers<T>(
    hidden: Seq<T>,
    numbers: Seq<T>,
    batch_size: int,
    width: int,
    dim: int,
    batch: int,
    time: int,
    col: int,
)
    requires
        sentences_contiguous(hidden, numbers, batch_size, width, dim),
        0 <= batch < batch_size,
        0 <= time < width,
        0 <= col < dim,
    ensures
        hidden.len() == numbers.len(),
        hidden[(batch * width + time) * dim + col] == numbers[(time * batch_size + batch) * dim
            + col],
{
    assert(hidden[sentence_major(width, dim, batch, time, col)] == numbers[time_major(
        batch_size,
        dim,
        batch,
        time,
        col,
    )]);
}

/// The cells of the layers are listed one for one, in order.
pub proof fn cells_are_listed_in_order<T>(cells: Seq<Vec<T>>)
    ensures
        cell_lists(cells).len() == cells.len(),
        forall|k: int| 0 <= k < cells.len() ==> #[trigger] cell_lists(cells)[k] == cells[k]@,
{
}

} // verus!
