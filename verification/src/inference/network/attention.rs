//! Where multi-head attention finds its numbers.
//!
//! Hidden states are stored row by row, and a head is a range of columns. An
//! attention block works on groups of rows: a group has the same context, that
//! is, the same sentence to attend to.

use crate::error::TranslateFault;
use crate::inference::backend::{batch_plan, BatchPlan, MatrixView};
use vstd::prelude::*;

verus! {

/// How a hidden state is divided into heads.
#[derive(Debug, Clone, Copy)]
pub struct HeadLayout {
    /// Width of a hidden state.
    pub dim: usize,
    /// Number of heads.
    pub heads: usize,
    /// Width of a head.
    pub head_dim: usize,
}

impl HeadLayout {
    /// The heads make up a hidden state.
    pub open spec fn valid(self) -> bool {
        self.heads > 0 && self.heads * self.head_dim == self.dim
    }

    /// The queries of a head in a group of rows.
    pub open spec fn query_view(self, row_group: int, head: int, query_rows: usize) -> MatrixView {
        MatrixView {
            offset: (row_group * query_rows * self.dim + head * self.head_dim) as usize,
            rows: query_rows,
            cols: self.head_dim,
            row_stride: self.dim,
            col_stride: 1,
        }
    }

    /// The keys of a head in a context, one column per key.
    pub open spec fn key_view(self, context: int, head: int, key_rows: usize) -> MatrixView {
        MatrixView {
            offset: (context * key_rows * self.dim + head * self.head_dim) as usize,
            rows: self.head_dim,
            cols: key_rows,
            row_stride: 1,
            col_stride: self.dim,
        }
    }

    /// The values of a head in a context, one row per key.
    pub open spec fn value_view(self, context: int, head: int, key_rows: usize) -> MatrixView {
        MatrixView {
            offset: (context * key_rows * self.dim + head * self.head_dim) as usize,
            rows: key_rows,
            cols: self.head_dim,
            row_stride: self.dim,
            col_stride: 1,
        }
    }

    /// The scores of a head in a group of rows, one row per query.
    pub open spec fn score_view(
        self,
        row_group: int,
        head: int,
        query_rows: usize,
        key_rows: usize,
    ) -> MatrixView {
        MatrixView {
            offset: ((row_group * self.heads + head) * query_rows * key_rows) as usize,
            rows: query_rows,
            cols: key_rows,
            row_stride: key_rows,
            col_stride: 1,
        }
    }
}

/// Where the matrix products of an attention block find their numbers, group
/// by group and head by head.
pub struct AttentionPlan {
    /// Queries.
    pub queries: Vec<MatrixView>,
    /// Keys, to be multiplied with the queries.
    pub keys: Vec<MatrixView>,
    /// Scores, that is, the products of queries and keys.
    pub scores: Vec<MatrixView>,
    /// Values, to be multiplied with the scores.
    pub values: Vec<MatrixView>,
}

impl AttentionPlan {
    /// The views belong to the groups and heads, in order.
    pub open spec fn follows(
        &self,
        layout: HeadLayout,
        contexts: Seq<usize>,
        query_rows: usize,
        key_rows: usize,
        groups: int,
    ) -> bool {
        &&& self.queries@.len() == groups
        &&& self.keys@.len() == groups
        &&& self.scores@.len() == groups
        &&& self.values@.len() == groups
        &&& forall|g: int|
            0 <= g < groups ==> {
                let row_group = g / (layout.heads as int);
                let head = g % (layout.heads as int);
                let context = contexts[row_group] as int;
                &&& #[trigger] self.queries@[g] == layout.query_view(row_group, head, query_rows)
                &&& self.keys@[g] == layout.key_view(context, head, key_rows)
                &&& self.scores@[g] == layout.score_view(row_group, head, query_rows, key_rows)
                &&& self.values@[g] == layout.value_view(context, head, key_rows)
            }
    }
}

/// Dimensions for which every position of the buffers of an attention block is
/// in range.
pub open spec fn plan_fits(
    layout: HeadLayout,
    contexts: Seq<usize>,
    batch_size: int,
    query_rows: usize,
    key_rows: usize,
) -> bool {
    &&& forall|g: int| 0 <= g < contexts.len() ==> #[trigger] contexts[g] < batch_size
    &&& contexts.len() * query_rows * layout.dim <= usize::MAX
    &&& batch_size * key_rows * layout.dim <= usize::MAX
    &&& contexts.len() * layout.heads * query_rows * key_rows <= usize::MAX
}

proof fn products_are_ordered(count: int, limit: int, rows: int, dim: int)
    requires
        0 <= count < limit,
        0 <= rows,
        0 <= dim,
    ensures
        0 <= count * rows,
        0 <= count * rows * dim,
        count * rows * dim + rows * dim <= limit * rows * dim,
        count * rows + rows <= limit * rows,
{
    assert(0 <= count * rows) by (nonlinear_arith)
        requires
            0 <= count,
            0 <= rows,
    ;
    assert(count * rows + rows == (count + 1) * rows) by (nonlinear_arith);
    assert((count + 1) * rows <= limit * rows) by (nonlinear_arith)
        requires
            count + 1 <= limit,
            0 <= rows,
    ;
    assert(0 <= (count * rows) * dim) by (nonlinear_arith)
        requires
            0 <= count * rows,
            0 <= dim,
    ;
    assert((count * rows) * dim + rows * dim == (count * rows + rows) * dim) by (nonlinear_arith);
    assert((count * rows + rows) * dim <= (limit * rows) * dim) by (nonlinear_arith)
        requires
            count * rows + rows <= limit * rows,
            0 <= dim,
    ;
}

proof fn heads_are_inside(layout: HeadLayout, head: int)
    requires
        layout.valid(),
        0 <= head < layout.heads,
    ensures
        0 <= head * layout.head_dim,
        head * layout.head_dim + layout.head_dim <= layout.dim,
{
    products_are_ordered(head, layout.heads as int, layout.head_dim as int, 1);
}

/// Plans the matrix products of an attention block: `contexts` has the
/// sentence that each group of rows attends to.
pub fn plan_attention(
    layout: HeadLayout,
    contexts: &[usize],
    batch_size: usize,
    query_rows: usize,
    key_rows: usize,
) -> (plan: AttentionPlan)
    requires
        layout.valid(),
        query_rows > 0,
        key_rows > 0,
        plan_fits(layout, contexts@, batch_size as int, query_rows, key_rows),
    ensures
        plan.follows(
            layout,
            contexts@,
            query_rows,
            key_rows,
            contexts@.len() * layout.heads,
        ),
{
    let mut plan = AttentionPlan {
        queries: Vec::new(),
        keys: Vec::new(),
        scores: Vec::new(),
        values: Vec::new(),
    };
    let mut row_group: usize = 0;
    proof {
        assert(0 * layout.heads == 0) by (nonlinear_arith);
    }
    while row_group < contexts.len()
        invariant
            row_group <= contexts@.len(),
            layout.valid(),
            query_rows > 0,
            key_rows > 0,
            plan_fits(layout, contexts@, batch_size as int, query_rows, key_rows),
            plan.follows(layout, contexts@, query_rows, key_rows, row_group * layout.heads),
        decreases contexts@.len() - row_group,
    {
        let context: usize = contexts[row_group];
        let mut head: usize = 0;
        while head < layout.heads
            invariant
                head <= layout.heads,
                row_group < contexts@.len(),
                context == contexts@[row_group as int],
                layout.valid(),
                query_rows > 0,
                key_rows > 0,
                plan_fits(layout, contexts@, batch_size as int, query_rows, key_rows),
                plan.follows(
                    layout,
                    contexts@,
                    query_rows,
                    key_rows,
                    row_group * layout.heads + head,
                ),
            decreases layout.heads - head,
        {
            let ghost dim = layout.dim as int;
            let ghost group = row_group * layout.heads + head;
            proof {
                let total = contexts@.len() as int;
                assert(contexts@[row_group as int] < batch_size);
                heads_are_inside(layout, head as int);
                products_are_ordered(row_group as int, total, query_rows as int, dim);
                products_are_ordered(context as int, batch_size as int, key_rows as int, dim);
                products_are_ordered(row_group as int, total, layout.heads as int, 1);
                products_are_ordered(
                    group,
                    total * layout.heads,
                    query_rows as int,
                    key_rows as int,
                );
                assert(dim <= query_rows * dim) by (nonlinear_arith)
                    requires
                        query_rows > 0,
                        0 <= dim,
                ;
                assert(dim <= key_rows * dim) by (nonlinear_arith)
                    requires
                        key_rows > 0,
                        0 <= dim,
                ;
                assert(row_group * query_rows <= row_group * query_rows * dim || dim == 0)
                    by (nonlinear_arith)
                    requires
                        0 <= row_group * query_rows,
                        0 <= dim,
                ;
                group_bounds(
                    layout,
                    total,
                    row_group as int,
                    head as int,
                    query_rows as int,
                    key_rows as int,
                );
                vstd::arithmetic::div_mod::lemma_fundamental_div_mod_converse(
                    group,
                    layout.heads as int,
                    row_group as int,
                    head as int,
                );
            }
            let head_start: usize = head * layout.head_dim;
            let query_start: usize = start_of(row_group, query_rows, layout.dim);
            let key_start: usize = start_of(context, key_rows, layout.dim);
            let score_start: usize = start_of(row_group * layout.heads + head, query_rows, key_rows);
            plan.queries.push(
                MatrixView {
                    offset: query_start + head_start,
                    rows: query_rows,
                    cols: layout.head_dim,
                    row_stride: layout.dim,
                    col_stride: 1,
                },
            );
            plan.keys.push(
                MatrixView {
                    offset: key_start + head_start,
                    rows: layout.head_dim,
                    cols: key_rows,
                    row_stride: 1,
                    col_stride: layout.dim,
                },
            );
            plan.scores.push(
                MatrixView {
                    offset: score_start,
                    rows: query_rows,
                    cols: key_rows,
                    row_stride: key_rows,
                    col_stride: 1,
                },
            );
            plan.values.push(
                MatrixView {
                    offset: key_start + head_start,
                    rows: key_rows,
                    cols: layout.head_dim,
                    row_stride: layout.dim,
                    col_stride: 1,
                },
            );
            head = head + 1;
        }
        proof {
            assert(row_group * layout.heads + layout.heads == (row_group + 1) * layout.heads)
                by (nonlinear_arith);
        }
        row_group = row_group + 1;
    }
    plan
}

proof fn group_bounds(
    layout: HeadLayout,
    total: int,
    row_group: int,
    head: int,
    query_rows: int,
    key_rows: int,
)
    requires
        0 <= row_group < total,
        0 <= head < layout.heads,
        query_rows > 0,
        key_rows > 0,
        total * layout.heads * query_rows * key_rows <= usize::MAX,
    ensures
        0 <= row_group * layout.heads + head < total * layout.heads,
        total * layout.heads <= usize::MAX,
{
    products_are_ordered(row_group, total, layout.heads as int, 1);
    let groups = total * layout.heads;
    assert(groups <= groups * query_rows) by (nonlinear_arith)
        requires
            query_rows > 0,
            groups >= 0,
    ;
    assert(groups * query_rows <= groups * query_rows * key_rows) by (nonlinear_arith)
        requires
            key_rows > 0,
            groups * query_rows >= 0,
    ;
}

/// The start of a block of rows.
fn start_of(block: usize, rows: usize, dim: usize) -> (start: usize)
    requires
        block * rows * dim <= usize::MAX,
    ensures
        start == block * rows * dim,
{
    if dim == 0 {
        proof {
            assert((block * rows) * 0 == 0) by (nonlinear_arith);
        }
        return 0;
    }
    proof {
        assert(block * rows <= block * rows * dim) by (nonlinear_arith)
            requires
                dim > 0,
                block * rows >= 0,
        ;
        assert(block * rows >= 0) by (nonlinear_arith);
    }
    block * rows * dim
}

/// Element `(r, c)` of the queries of a head is column `c` of the head in row
/// `r` of the group.
pub proof fn queries_address_heads(
    layout: HeadLayout,
    row_group: int,
    groups: int,
    head: int,
    query_rows: usize,
    row: int,
    col: int,
)
    requires
        layout.valid(),
        0 <= row_group < groups,
        groups * query_rows * layout.dim <= usize::MAX,
        0 <= head < layout.heads,
        0 <= row < query_rows,
        0 <= col < layout.head_dim,
    ensures
        layout.query_view(row_group, head, query_rows).position(row, col) == (row_group * query_rows
            + row) * layout.dim + head * layout.head_dim + col,
        layout.query_view(row_group, head, query_rows).position(row, col) < groups * query_rows
            * layout.dim,
{
    let dim = layout.dim as int;
    heads_are_inside(layout, head);
    products_are_ordered(row_group, groups, query_rows as int, dim);
    products_are_ordered(row, query_rows as int, dim, 1);
    assert((row_group * query_rows + row) * dim == row_group * query_rows * dim + row * dim)
        by (nonlinear_arith);
}

/// What a head attends to lies in its context: every key and every value is in
/// the rows of that sentence, and element `k` of column `c` is the same number
/// for keys and values.
pub proof fn contexts_are_isolated(
    layout: HeadLayout,
    context: int,
    batch_size: int,
    head: int,
    key_rows: usize,
    key: int,
    col: int,
)
    requires
        layout.valid(),
        0 <= context < batch_size,
        batch_size * key_rows * layout.dim <= usize::MAX,
        0 <= head < layout.heads,
        0 <= key < key_rows,
        0 <= col < layout.head_dim,
    ensures
        layout.key_view(context, head, key_rows).position(col, key) == (context * key_rows + key)
            * layout.dim + head * layout.head_dim + col,
        layout.value_view(context, head, key_rows).position(key, col) == (context * key_rows + key)
            * layout.dim + head * layout.head_dim + col,
        context * key_rows * layout.dim <= layout.key_view(context, head, key_rows).position(
            col,
            key,
        ) < (context + 1) * key_rows * layout.dim,
{
    let dim = layout.dim as int;
    heads_are_inside(layout, head);
    products_are_ordered(context, batch_size, key_rows as int, dim);
    products_are_ordered(context, context + 1, key_rows as int, dim);
    products_are_ordered(key, key_rows as int, dim, 1);
    assert((context * key_rows + key) * dim == context * key_rows * dim + key * dim)
        by (nonlinear_arith);
}

/// Which keys of a context count: those that are no padding.
pub open spec fn key_mask(mask: Seq<bool>, batch_size: int, context: int, key_rows: nat) -> Seq<
    bool,
> {
    Seq::new(key_rows, |key: int| mask[key * batch_size + context])
}

/// Tells which keys of a context count, given which tokens of a
/// position-major batch are no padding.
pub fn valid_keys(mask: &[bool], batch_size: usize, context: usize, key_rows: usize) -> (valid: Vec<
    bool,
>)
    requires
        context < batch_size,
        key_rows * batch_size <= mask@.len(),
    ensures
        valid@ == key_mask(mask@, batch_size as int, context as int, key_rows as nat),
{
    let mut valid: Vec<bool> = Vec::with_capacity(key_rows);
    while valid.len() < key_rows
        invariant
            valid@.len() <= key_rows,
            context < batch_size,
            key_rows * batch_size <= mask@.len(),
            valid@ == key_mask(mask@, batch_size as int, context as int, valid@.len()),
        decreases key_rows - valid@.len(),
    {
        let key: usize = valid.len();
        proof {
            assert(mask.len() == mask@.len());
            products_are_ordered(key as int, key_rows as int, batch_size as int, 1);
        }
        valid.push(mask[key * batch_size + context]);
    }
    valid
}

/// Tells whether no token of a batch is padding.
pub fn all_valid(mask: &[bool]) -> (answer: bool)
    ensures
        answer == (forall|i: int| 0 <= i < mask@.len() ==> #[trigger] mask@[i]),
{
    let mut at: usize = 0;
    while at < mask.len()
        invariant
            at <= mask@.len(),
            forall|i: int| 0 <= i < at ==> #[trigger] mask@[i],
        decreases mask@.len() - at,
    {
        if !mask[at] {
            return false;
        }
        at = at + 1;
    }
    true
}

/// Position of a number in the outputs of the heads, which are stored group by
/// group, head by head and row by row.
pub open spec fn head_position(
    layout: HeadLayout,
    query_rows: int,
    row_group: int,
    head: int,
    row: int,
    col: int,
) -> int {
    ((row_group * layout.heads + head) * query_rows + row) * layout.head_dim + col
}

/// Position of the same number in the joined hidden states.
pub open spec fn joined_position(
    layout: HeadLayout,
    query_rows: int,
    row_group: int,
    head: int,
    row: int,
    col: int,
) -> int {
    (row_group * query_rows + row) * layout.dim + head * layout.head_dim + col
}

/// The heads of a row are joined: each number stands where its row, its head
/// and its column put it.
pub open spec fn heads_joined<T>(
    joined: Seq<T>,
    attended: Seq<T>,
    layout: HeadLayout,
    row_groups: int,
    query_rows: int,
) -> bool {
    &&& joined.len() == row_groups * query_rows * layout.dim
    &&& forall|row_group: int, head: int, row: int, col: int|
        #![trigger joined[joined_position(layout, query_rows, row_group, head, row, col)]]
        0 <= row_group < row_groups && 0 <= head < layout.heads && 0 <= row < query_rows && 0 <= col
            < layout.head_dim ==> joined[joined_position(
            layout,
            query_rows,
            row_group,
            head,
            row,
            col,
        )] == attended[head_position(layout, query_rows, row_group, head, row, col)]
}

/// The number that stands at a position of the joined hidden states.
spec fn joined_element<T>(
    attended: Seq<T>,
    layout: HeadLayout,
    query_rows: int,
    index: int,
) -> T {
    let line = index / (layout.dim as int);
    let place = index % (layout.dim as int);
    attended[head_position(
        layout,
        query_rows,
        line / query_rows,
        place / (layout.head_dim as int),
        line % query_rows,
        place % (layout.head_dim as int),
    )]
}

proof fn head_positions_are_inside(
    layout: HeadLayout,
    row_groups: int,
    query_rows: int,
    row_group: int,
    head: int,
    row: int,
    col: int,
)
    requires
        layout.valid(),
        0 <= row_group < row_groups,
        0 <= head < layout.heads,
        0 <= row < query_rows,
        0 <= col < layout.head_dim,
    ensures
        0 <= row_group * layout.heads + head < row_groups * layout.heads,
        0 <= (row_group * layout.heads + head) * query_rows + row < row_groups * layout.heads
            * query_rows,
        0 <= head_position(layout, query_rows, row_group, head, row, col) < row_groups
            * layout.heads * query_rows * layout.head_dim,
        0 <= ((row_group * layout.heads + head) * query_rows + row) * layout.head_dim,
        0 <= (row_group * layout.heads + head) * query_rows,
{
    products_are_ordered(row_group, row_groups, layout.heads as int, 1);
    let group = row_group * layout.heads + head;
    products_are_ordered(group, row_groups * layout.heads, query_rows, 1);
    let line = group * query_rows + row;
    products_are_ordered(
        line,
        row_groups * layout.heads * query_rows,
        layout.head_dim as int,
        1,
    );
}

/// Joins the outputs of the heads to hidden states.
pub fn join_heads<T: Copy>(
    attended: &[T],
    layout: HeadLayout,
    row_groups: usize,
    query_rows: usize,
) -> (joined: Vec<T>)
    requires
        layout.valid(),
        attended@.len() == row_groups * layout.heads * query_rows * layout.head_dim,
    ensures
        heads_joined(joined@, attended@, layout, row_groups as int, query_rows as int),
{
    let mut joined: Vec<T> = Vec::with_capacity(attended.len());
    let ghost dim = layout.dim as int;
    let mut row_group: usize = 0;
    proof {
        assert((0 * query_rows) * dim == 0) by (nonlinear_arith);
    }
    while row_group < row_groups
        invariant
            row_group <= row_groups,
            dim == layout.dim,
            layout.valid(),
            attended@.len() == row_groups * layout.heads * query_rows * layout.head_dim,
            joined@.len() == row_group * query_rows * dim,
            forall|i: int|
                0 <= i < joined@.len() ==> #[trigger] joined@[i] == joined_element(
                    attended@,
                    layout,
                    query_rows as int,
                    i,
                ),
        decreases row_groups - row_group,
    {
        let mut row: usize = 0;
        while row < query_rows
            invariant
                row <= query_rows,
                row_group < row_groups,
                dim == layout.dim,
                layout.valid(),
                attended@.len() == row_groups * layout.heads * query_rows * layout.head_dim,
                joined@.len() == (row_group * query_rows + row) * dim,
                forall|i: int|
                    0 <= i < joined@.len() ==> #[trigger] joined@[i] == joined_element(
                        attended@,
                        layout,
                        query_rows as int,
                        i,
                    ),
            decreases query_rows - row,
        {
            push_row(attended, layout, row_groups, query_rows, row_group, row, &mut joined);
            proof {
                assert((row_group * query_rows + row) * dim + dim == (row_group * query_rows + (row
                    + 1)) * dim) by (nonlinear_arith);
            }
            row = row + 1;
        }
        proof {
            assert(row_group * query_rows + query_rows == (row_group + 1) * query_rows)
                by (nonlinear_arith);
        }
        row_group = row_group + 1;
    }
    proof {
        assert forall|g: int, head: int, r: int, col: int|
            #![trigger joined@[joined_position(layout, query_rows as int, g, head, r, col)]]
            0 <= g < row_groups && 0 <= head < layout.heads && 0 <= r < query_rows && 0 <= col
                < layout.head_dim implies joined@[joined_position(
            layout,
            query_rows as int,
            g,
            head,
            r,
            col,
        )] == attended@[head_position(layout, query_rows as int, g, head, r, col)] by {
            joined_positions_are_inside(
                layout,
                row_groups as int,
                query_rows as int,
                g,
                head,
                r,
                col,
            );
        }
    }
    joined
}

proof fn joined_positions_are_inside(
    layout: HeadLayout,
    row_groups: int,
    query_rows: int,
    row_group: int,
    head: int,
    row: int,
    col: int,
)
    requires
        layout.valid(),
        0 <= row_group < row_groups,
        0 <= head < layout.heads,
        0 <= row < query_rows,
        0 <= col < layout.head_dim,
    ensures
        ({
            let index = joined_position(layout, query_rows, row_group, head, row, col);
            let line = index / (layout.dim as int);
            let place = index % (layout.dim as int);
            &&& 0 <= index < row_groups * query_rows * layout.dim
            &&& line == row_group * query_rows + row
            &&& place == head * layout.head_dim + col
            &&& line / query_rows == row_group
            &&& line % query_rows == row
            &&& place / (layout.head_dim as int) == head
            &&& place % (layout.head_dim as int) == col
        }),
{
    let dim = layout.dim as int;
    heads_are_inside(layout, head);
    products_are_ordered(row_group, row_groups, query_rows, 1);
    let line = row_group * query_rows + row;
    products_are_ordered(line, row_groups * query_rows, dim, 1);
    let place = head * layout.head_dim + col;
    vstd::arithmetic::div_mod::lemma_fundamental_div_mod_converse(
        line * dim + place,
        dim,
        line,
        place,
    );
    vstd::arithmetic::div_mod::lemma_fundamental_div_mod_converse(
        line,
        query_rows,
        row_group,
        row,
    );
    vstd::arithmetic::div_mod::lemma_fundamental_div_mod_converse(
        place,
        layout.head_dim as int,
        head,
        col,
    );
}

/// Joins the heads of one row.
fn push_row<T: Copy>(
    attended: &[T],
    layout: HeadLayout,
    row_groups: usize,
    query_rows: usize,
    row_group: usize,
    row: usize,
    joined: &mut Vec<T>,
)
    requires
        layout.valid(),
        row_group < row_groups,
        row < query_rows,
        attended@.len() == row_groups * layout.heads * query_rows * layout.head_dim,
        old(joined)@.len() == (row_group * query_rows + row) * layout.dim,
        forall|i: int|
            0 <= i < old(joined)@.len() ==> #[trigger] old(joined)@[i] == joined_element(
                attended@,
                layout,
                query_rows as int,
                i,
            ),
    ensures
        final(joined)@.len() == old(joined)@.len() + layout.dim,
        forall|i: int|
            0 <= i < final(joined)@.len() ==> #[trigger] final(joined)@[i] == joined_element(
                attended@,
                layout,
                query_rows as int,
                i,
            ),
{
    let ghost start = joined@.len();
    let mut head: usize = 0;
    proof {
        assert(0 * layout.head_dim == 0) by (nonlinear_arith);
    }
    while head < layout.heads
        invariant
            head <= layout.heads,
            layout.valid(),
            row_group < row_groups,
            row < query_rows,
            attended@.len() == row_groups * layout.heads * query_rows * layout.head_dim,
            start == (row_group * query_rows + row) * layout.dim,
            joined@.len() == start + head * layout.head_dim,
            forall|i: int|
                0 <= i < joined@.len() ==> #[trigger] joined@[i] == joined_element(
                    attended@,
                    layout,
                    query_rows as int,
                    i,
                ),
        decreases layout.heads - head,
    {
        let mut col: usize = 0;
        while col < layout.head_dim
            invariant
                col <= layout.head_dim,
                head < layout.heads,
                layout.valid(),
                row_group < row_groups,
                row < query_rows,
                attended@.len() == row_groups * layout.heads * query_rows * layout.head_dim,
                start == (row_group * query_rows + row) * layout.dim,
                joined@.len() == start + head * layout.head_dim + col,
                forall|i: int|
                    0 <= i < joined@.len() ==> #[trigger] joined@[i] == joined_element(
                        attended@,
                        layout,
                        query_rows as int,
                        i,
                    ),
            decreases layout.head_dim - col,
        {
            proof {
                assert(attended.len() == attended@.len());
                head_positions_are_inside(
                    layout,
                    row_groups as int,
                    query_rows as int,
                    row_group as int,
                    head as int,
                    row as int,
                    col as int,
                );
                joined_positions_are_inside(
                    layout,
                    row_groups as int,
                    query_rows as int,
                    row_group as int,
                    head as int,
                    row as int,
                    col as int,
                );
                products_are_ordered(
                    row_group as int,
                    row_groups as int,
                    layout.heads as int,
                    1,
                );
                line_fits(
                    layout,
                    row_groups as int,
                    query_rows as int,
                    (row_group * layout.heads + head) * query_rows + row,
                );
            }
            let line: usize = (row_group * layout.heads + head) * query_rows + row;
            joined.push(attended[line * layout.head_dim + col]);
            col = col + 1;
        }
        proof {
            assert(head * layout.head_dim + layout.head_dim == (head + 1) * layout.head_dim)
                by (nonlinear_arith);
        }
        head = head + 1;
    }
}

/// A line of the outputs of the heads is in range wherever its numbers are.
proof fn line_fits(layout: HeadLayout, row_groups: int, query_rows: int, line: int)
    requires
        layout.head_dim > 0,
        query_rows > 0,
        row_groups >= 0,
        0 <= line < row_groups * layout.heads * query_rows,
        row_groups * layout.heads * query_rows * layout.head_dim <= usize::MAX,
    ensures
        row_groups * layout.heads <= usize::MAX,
        row_groups * layout.heads * query_rows <= usize::MAX,
{
    let groups = row_groups * layout.heads;
    assert(groups >= 0) by (nonlinear_arith)
        requires
            groups == row_groups * layout.heads,
            row_groups >= 0,
    ;
    assert(groups <= groups * query_rows) by (nonlinear_arith)
        requires
            query_rows > 0,
            groups >= 0,
    ;
    let lines = row_groups * layout.heads * query_rows;
    assert(lines <= lines * layout.head_dim) by (nonlinear_arith)
        requires
            layout.head_dim > 0,
            lines >= 0,
    ;
}

proof fn blocks_are_lines(block: int, rows: int, row: int, dim: int)
    ensures
        (block * rows + row) * dim == block * rows * dim + row * dim,
{
    assert((block * rows + row) * dim == (block * rows) * dim + row * dim) by (nonlinear_arith);
}

/// Group `row_group * heads + head` of a plan is head `head` of a group of
/// rows: element `(query, column)` of its queries is that column of the head
/// in row `query` of the group.
pub proof fn planned_queries_address_heads(
    plan: AttentionPlan,
    layout: HeadLayout,
    contexts: Seq<usize>,
    batch_size: int,
    query_rows: usize,
    key_rows: usize,
    row_group: int,
    head: int,
    query: int,
    col: int,
)
    requires
        layout.valid(),
        query_rows > 0,
        key_rows > 0,
        plan_fits(layout, contexts, batch_size, query_rows, key_rows),
        plan.follows(layout, contexts, query_rows, key_rows, contexts.len() * layout.heads),
        0 <= row_group < contexts.len(),
        0 <= head < layout.heads,
        0 <= query < query_rows,
        0 <= col < layout.head_dim,
    ensures
        plan.queries@.len() == contexts.len() * layout.heads,
        0 <= row_group * layout.heads + head < plan.queries@.len(),
        ({
            let view = plan.queries@[row_group * layout.heads + head];
            &&& view.rows == query_rows
            &&& view.cols == layout.head_dim
            &&& view.offset + query * view.row_stride + col * view.col_stride == (row_group
                * query_rows + query) * layout.dim + head * layout.head_dim + col
        }),
{
    let dim = layout.dim as int;
    heads_are_inside(layout, head);
    products_are_ordered(row_group, contexts.len() as int, layout.heads as int, 1);
    products_are_ordered(row_group, contexts.len() as int, query_rows as int, dim);
    products_are_ordered(query, query_rows as int, dim, 1);
    blocks_are_lines(row_group, query_rows as int, query, dim);
    group_is_head(layout, row_group, head);
    let view = plan.queries@[row_group * layout.heads + head];
    assert(view == layout.query_view(row_group, head, query_rows));
}

/// The keys and the values of a head in a group of rows are those of the
/// sentence that the group attends to: column `key` of the keys, and row `key`
/// of the values, is the head's part of row `key` of that sentence.
pub proof fn planned_keys_and_values_address_contexts(
    plan: AttentionPlan,
    layout: HeadLayout,
    contexts: Seq<usize>,
    batch_size: int,
    query_rows: usize,
    key_rows: usize,
    row_group: int,
    head: int,
    key: int,
    col: int,
)
    requires
        layout.valid(),
        query_rows > 0,
        key_rows > 0,
        plan_fits(layout, contexts, batch_size, query_rows, key_rows),
        plan.follows(layout, contexts, query_rows, key_rows, contexts.len() * layout.heads),
        0 <= row_group < contexts.len(),
        0 <= head < layout.heads,
        0 <= key < key_rows,
        0 <= col < layout.head_dim,
    ensures
        plan.keys@.len() == contexts.len() * layout.heads,
        plan.values@.len() == contexts.len() * layout.heads,
        0 <= row_group * layout.heads + head < plan.keys@.len(),
        ({
            let view = plan.keys@[row_group * layout.heads + head];
            &&& view.rows == layout.head_dim
            &&& view.cols == key_rows
            &&& view.offset + col * view.row_stride + key * view.col_stride == (contexts[row_group]
                * key_rows + key) * layout.dim + head * layout.head_dim + col
        }),
        ({
            let view = plan.values@[row_group * layout.heads + head];
            &&& view.rows == key_rows
            &&& view.cols == layout.head_dim
            &&& view.offset + key * view.row_stride + col * view.col_stride == (contexts[row_group]
                * key_rows + key) * layout.dim + head * layout.head_dim + col
        }),
{
    let dim = layout.dim as int;
    let context = contexts[row_group] as int;
    heads_are_inside(layout, head);
    products_are_ordered(row_group, contexts.len() as int, layout.heads as int, 1);
    products_are_ordered(context, batch_size, key_rows as int, dim);
    products_are_ordered(key, key_rows as int, dim, 1);
    blocks_are_lines(context, key_rows as int, key, dim);
    group_is_head(layout, row_group, head);
    assert(plan.queries@[row_group * layout.heads + head] == layout.query_view(
        row_group,
        head,
        query_rows,
    ));
    assert(plan.keys@[row_group * layout.heads + head] == layout.key_view(context, head, key_rows));
    assert(plan.values@[row_group * layout.heads + head] == layout.value_view(
        context,
        head,
        key_rows,
    ));
}

proof fn group_is_head(layout: HeadLayout, row_group: int, head: int)
    requires
        0 <= head < layout.heads,
        0 <= row_group,
    ensures
        (row_group * layout.heads + head) / (layout.heads as int) == row_group,
        (row_group * layout.heads + head) % (layout.heads as int) == head,
{
    vstd::arithmetic::div_mod::lemma_fundamental_div_mod_converse(
        row_group * layout.heads + head,
        layout.heads as int,
        row_group,
        head,
    );
}

/// Element `(query, key)` of the scores of a head in a group of rows lies
/// where the product of that query and that key is stored: products are stored
/// one after the other, each row by row.
#[verifier::spinoff_prover]
#[verifier::rlimit(60)]
pub proof fn planned_scores_are_products(
    plan: AttentionPlan,
    layout: HeadLayout,
    contexts: Seq<usize>,
    batch_size: int,
    query_rows: usize,
    key_rows: usize,
    row_group: int,
    head: int,
    query: int,
    key: int,
)
    requires
        layout.valid(),
        query_rows > 0,
        key_rows > 0,
        plan_fits(layout, contexts, batch_size, query_rows, key_rows),
        plan.follows(layout, contexts, query_rows, key_rows, contexts.len() * layout.heads),
        0 <= row_group < contexts.len(),
        0 <= head < layout.heads,
        0 <= query < query_rows,
        0 <= key < key_rows,
    ensures
        plan.scores@.len() == contexts.len() * layout.heads,
        0 <= row_group * layout.heads + head < plan.scores@.len(),
        ({
            let view = plan.scores@[row_group * layout.heads + head];
            &&& view.rows == query_rows
            &&& view.cols == key_rows
            &&& view.offset + query * view.row_stride + key * view.col_stride == ((row_group
                * layout.heads + head) * query_rows + query) * key_rows + key
            &&& view.offset + query * view.row_stride + key * view.col_stride < contexts.len()
                * layout.heads * query_rows * key_rows
        }),
{
    let total = contexts.len() as int;
    let group = row_group * layout.heads + head;
    products_are_ordered(row_group, total, layout.heads as int, 1);
    products_are_ordered(group, total * layout.heads, query_rows as int, key_rows as int);
    products_are_ordered(query, query_rows as int, key_rows as int, 1);
    blocks_are_lines(group, query_rows as int, query, key_rows as int);
    group_is_head(layout, row_group, head);
    assert(plan.queries@[group] == layout.query_view(row_group, head, query_rows));
    assert(plan.scores@[group] == layout.score_view(row_group, head, query_rows, key_rows));
}

/// The products of queries and keys fill the scores: the product of a query
/// and a key is stored where the scores have that pair, and all scores are
/// products.
#[verifier::spinoff_prover]
#[verifier::rlimit(60)]
pub proof fn products_fill_scores(
    plan: AttentionPlan,
    layout: HeadLayout,
    contexts: Seq<usize>,
    batch_size: int,
    query_rows: usize,
    key_rows: usize,
    queries_len: int,
    keys_len: int,
    products: BatchPlan,
    row_group: int,
    head: int,
    query: int,
    key: int,
)
    requires
        layout.valid(),
        query_rows > 0,
        key_rows > 0,
        plan_fits(layout, contexts, batch_size, query_rows, key_rows),
        plan.follows(layout, contexts, query_rows, key_rows, contexts.len() * layout.heads),
        batch_plan(plan.queries@, queries_len, plan.keys@, keys_len) == Ok::<
            BatchPlan,
            TranslateFault,
        >(products),
        0 <= row_group < contexts.len(),
        0 <= head < layout.heads,
        0 <= query < query_rows,
        0 <= key < key_rows,
    ensures
        products.output_len == contexts.len() * layout.heads * query_rows * key_rows,
        ({
            let view = plan.scores@[row_group * layout.heads + head];
            view.offset + query * view.row_stride + key * view.col_stride == (row_group
                * layout.heads + head) * products.output_stride + query * key_rows + key
        }),
{
    let total = contexts.len() as int;
    let group = row_group * layout.heads + head;
    planned_scores_are_products(
        plan,
        layout,
        contexts,
        batch_size,
        query_rows,
        key_rows,
        row_group,
        head,
        query,
        key,
    );
    blocks_are_lines(group, query_rows as int, query, key_rows as int);
    assert(group * query_rows * key_rows == group * (query_rows * key_rows)) by (nonlinear_arith);
    assert(total * layout.heads * query_rows * key_rows == (total * layout.heads) * (query_rows
        * key_rows)) by (nonlinear_arith);
    group_is_head(layout, 0, 0);
    assert(0 * layout.heads + 0 == 0) by (nonlinear_arith);
    assert(plan.queries@[0] == layout.query_view(0, 0, query_rows));
    assert(plan.keys@[0] == layout.key_view(contexts[0] as int, 0, key_rows));
}

/// Different pairs of a query and a key, of whatever groups of rows and heads,
/// have different scores.
#[verifier::spinoff_prover]
#[verifier::rlimit(60)]
pub proof fn planned_scores_differ(
    plan: AttentionPlan,
    layout: HeadLayout,
    contexts: Seq<usize>,
    batch_size: int,
    query_rows: usize,
    key_rows: usize,
    one: (int, int, int, int),
    other: (int, int, int, int),
)
    requires
        layout.valid(),
        query_rows > 0,
        key_rows > 0,
        plan_fits(layout, contexts, batch_size, query_rows, key_rows),
        plan.follows(layout, contexts, query_rows, key_rows, contexts.len() * layout.heads),
        0 <= one.0 < contexts.len(),
        0 <= one.1 < layout.heads,
        0 <= one.2 < query_rows,
        0 <= one.3 < key_rows,
        0 <= other.0 < contexts.len(),
        0 <= other.1 < layout.heads,
        0 <= other.2 < query_rows,
        0 <= other.3 < key_rows,
        one != other,
    ensures
        ({
            let first = plan.scores@[one.0 * layout.heads + one.1];
            let second = plan.scores@[other.0 * layout.heads + other.1];
            first.offset + one.2 * first.row_stride + one.3 * first.col_stride != second.offset
                + other.2 * second.row_stride + other.3 * second.col_stride
        }),
{
    planned_scores_are_products(
        plan,
        layout,
        contexts,
        batch_size,
        query_rows,
        key_rows,
        one.0,
        one.1,
        one.2,
        one.3,
    );
    planned_scores_are_products(
        plan,
        layout,
        contexts,
        batch_size,
        query_rows,
        key_rows,
        other.0,
        other.1,
        other.2,
        other.3,
    );
    digits_are_unique(layout.heads as int, query_rows as int, key_rows as int, one);
    digits_are_unique(layout.heads as int, query_rows as int, key_rows as int, other);
}

proof fn digits_are_unique(heads: int, queries: int, keys: int, at: (int, int, int, int))
    requires
        0 <= at.1 < heads,
        0 <= at.2 < queries,
        0 <= at.3 < keys,
    ensures
        ({
            let position = ((at.0 * heads + at.1) * queries + at.2) * keys + at.3;
            &&& position % keys == at.3
            &&& (position / keys) % queries == at.2
            &&& (position / keys / queries) % heads == at.1
            &&& position / keys / queries / heads == at.0
        }),
{
    let group = at.0 * heads + at.1;
    let line = group * queries + at.2;
    vstd::arithmetic::div_mod::lemma_fundamental_div_mod_converse(
        line * keys + at.3,
        keys,
        line,
        at.3,
    );
    vstd::arithmetic::div_mod::lemma_fundamental_div_mod_converse(line, queries, group, at.2);
    vstd::arithmetic::div_mod::lemma_fundamental_div_mod_converse(group, heads, at.0, at.1);
}

/// Key `key` of a context counts where the batch, which is stored position by
/// position, has a token of that sentence at that position.
pub proof fn masked_keys_follow_sentences(
    mask: Seq<bool>,
    batch_size: int,
    context: int,
    key_rows: nat,
    key: int,
)
    requires
        0 <= key < key_rows,
    ensures
        key_mask(mask, batch_size, context, key_rows).len() == key_rows,
        key_mask(mask, batch_size, context, key_rows)[key] == mask[key * batch_size + context],
{
}

/// Column `col` of head `head` of a joined row is what that head gave for that
/// row of that group; every number of the heads is kept.
pub proof fn joined_rows_hold_heads<T>(
    joined: Seq<T>,
    attended: Seq<T>,
    layout: HeadLayout,
    row_groups: int,
    query_rows: int,
    row_group: int,
    head: int,
    row: int,
    col: int,
)
    requires
        layout.valid(),
        heads_joined(joined, attended, layout, row_groups, query_rows),
        0 <= row_group < row_groups,
        0 <= head < layout.heads,
        0 <= row < query_rows,
        0 <= col < layout.head_dim,
    ensures
        joined.len() == row_groups * query_rows * layout.dim,
        joined[(row_group * query_rows + row) * layout.dim + head * layout.head_dim + col]
            == attended[((row_group * layout.heads + head) * query_rows + row) * layout.head_dim
            + col],
{
    let at = joined_position(layout, query_rows, row_group, head, row, col);
    assert(joined[at] == attended[head_position(layout, query_rows, row_group, head, row, col)]);
}

} // verus!
