//! What the layers demand of their inputs.

use crate::error::{TranslateError, TranslateFault};
use crate::inference::network::{FeedForward, LayerNorm, Ssru};
use vstd::prelude::*;
use vstd::string::*;

verus! {

/// The numbers are whole rows of the given width.
pub open spec fn whole_rows(count: usize, dim: usize) -> bool {
    if dim == 0 {
        count == 0
    } else {
        count % dim == 0
    }
}

/// Tells whether numbers are whole rows of the given width.
fn are_whole_rows(count: usize, dim: usize) -> (answer: bool)
    ensures
        answer == whole_rows(count, dim),
{
    if dim == 0 {
        count == 0
    } else {
        count % dim == 0
    }
}

impl LayerNorm {
    /// Checks that output and residual are equally many whole rows.
    pub fn check_input(&self, output_len: usize, residual_len: usize) -> (checked: Result<
        (),
        TranslateError,
    >)
        ensures
            match checked {
                Ok(_) => output_len == residual_len && whole_rows(output_len, self.dim),
                Err(error) => !(output_len == residual_len && whole_rows(output_len, self.dim)) && error@
                    == TranslateFault::Runtime("invalid layer norm input shape"@),
            },
    {
        if output_len != residual_len || !are_whole_rows(output_len, self.dim) {
            Err(TranslateError::Runtime(String::from_str("invalid layer norm input shape")))
        } else {
            Ok(())
        }
    }
}

impl Ssru {
    /// Checks that the recurrent state has as many numbers as the input, in
    /// whole rows.
    pub fn check_cell(&self, cell_len: usize, input_len: usize) -> (checked: Result<
        (),
        TranslateError,
    >)
        ensures
            match checked {
                Ok(_) => cell_len == input_len && whole_rows(input_len, self.dim),
                Err(error) => !(cell_len == input_len && whole_rows(input_len, self.dim)) && error@
                    == TranslateFault::Runtime("SSRU cell has an invalid dimension"@),
            },
    {
        if cell_len != input_len || !are_whole_rows(input_len, self.dim) {
            Err(TranslateError::Runtime(String::from_str("SSRU cell has an invalid dimension")))
        } else {
            Ok(())
        }
    }
}

impl FeedForward {
    /// The outputs of a transform are rectified: those of all but the last
    /// are.
    pub fn rectifies(&self, index: usize) -> (answer: bool)
        requires
            index < self.layers@.len(),
        ensures
            answer == (index != self.layers@.len() - 1),
    {
        index != self.layers.len() - 1
    }
}

/// Numbers make up whole rows exactly where their count is a multiple of the
/// width.
pub proof fn whole_rows_are_multiples(count: usize, dim: usize)
    ensures
        whole_rows(count, dim) <==> exists|rows: int| 0 <= rows && #[trigger] (rows * dim) == count,
{
    if dim == 0 {
        assert forall|rows: int| #[trigger] (rows * dim) == 0 by {
            assert(rows * 0 == 0) by (nonlinear_arith);
        }
        assert(0 * dim == 0);
    } else {
        if whole_rows(count, dim) {
            let rows = (count / dim) as int;
            vstd::arithmetic::div_mod::lemma_fundamental_div_mod(count as int, dim as int);
            assert(rows * dim == dim * rows) by (nonlinear_arith);
            assert(rows * dim == count);
        }
        if exists|rows: int| 0 <= rows && #[trigger] (rows * dim) == count {
            let rows = choose|rows: int| 0 <= rows && #[trigger] (rows * dim) == count;
            vstd::arithmetic::div_mod::lemma_fundamental_div_mod_converse(
                count as int,
                dim as int,
                rows,
                0,
            );
        }
    }
}

} // verus!
