//! Beam search.
//!
//! Scores are single-precision numbers held as their 32-bit patterns: the
//! search moves and compares them, and its caller computes them.

use crate::ieee::{greater, is_greater, rank_of, total_rank};
use crate::text::TokenId;
use vstd::prelude::*;

pub mod search;

verus! {

/// Controls greedy and beam decoding. A floating-point number is held as its
/// 32-bit pattern.
#[derive(Debug, Clone, Copy)]
#[non_exhaustive]
pub struct DecodeOptions {
    /// Number of hypotheses retained during beam search.
    pub beam_size: usize,
    /// Maximum output length as a multiple of the padded source length.
    pub max_length_factor: u32,
    /// Whether the decoder may emit the unknown token.
    pub allow_unknown: bool,
    /// Exponent used to normalize scores by output length.
    pub length_normalization: u32,
    /// Per-token value subtracted before length normalization.
    pub word_penalty: u32,
}

/// Pattern of the default length factor, three.
pub const DEFAULT_LENGTH_FACTOR: u32 = 0x4040_0000;

impl Default for DecodeOptions {
    fn default() -> (options: DecodeOptions)
        ensures
            options.beam_size == 1,
            options.max_length_factor == DEFAULT_LENGTH_FACTOR,
            options.max_length_factor == 0x4040_0000,
            !options.allow_unknown,
            options.length_normalization == 0,
            options.word_penalty == 0,
    {
        DecodeOptions {
            beam_size: 1,
            max_length_factor: DEFAULT_LENGTH_FACTOR,
            allow_unknown: false,
            length_normalization: 0,
            word_penalty: 0,
        }
    }
}

/// A partial or complete output sequence.
#[derive(Debug, Clone, Copy)]
pub struct Hypothesis {
    /// Last token of the output, as a position in the history.
    pub history: Option<usize>,
    /// Token that the next step continues from.
    pub previous: Option<TokenId>,
    /// Cumulative score.
    pub score: u32,
    /// Number of decoding steps taken.
    pub length: usize,
    /// The end of the sentence has been reached.
    pub finished: bool,
    /// Decoder row that the hypothesis came from.
    pub state_parent: usize,
}

/// A token of an output, linked to the token before it.
#[derive(Debug, Clone, Copy)]
pub struct HistoryNode {
    /// The token before, as a position in the history.
    pub parent: Option<usize>,
    /// The token.
    pub token: TokenId,
}

/// A hypothesis with one more token.
#[derive(Debug, Clone, Copy)]
pub struct Expansion {
    /// The continued hypothesis, as a position in its beam.
    pub parent: usize,
    /// Decoder row of the continued hypothesis.
    pub parent_row: usize,
    /// The added token.
    pub token: TokenId,
    /// Cumulative score with the added token.
    pub score: u32,
}

/// Every link of the history leads to an earlier position.
pub open spec fn linked(history: Seq<HistoryNode>) -> bool {
    forall|i: int|
        0 <= i < history.len() ==> (#[trigger] history[i].parent matches Some(parent) ==> parent
            < i)
}

/// The position, if any, lies in the history.
pub open spec fn inside(history: Seq<HistoryNode>, index: Option<usize>) -> bool {
    index matches Some(index) ==> index < history.len()
}

/// The tokens that lead to a position of the history, first token first.
pub open spec fn tokens_to(history: Seq<HistoryNode>, index: Option<usize>) -> Seq<TokenId>
    decreases
            (match index {
                Some(index) => index + 1,
                None => 0,
            }),
{
    match index {
        None => Seq::empty(),
        Some(index) => {
            let node = history[index as int];
            match node.parent {
                Some(parent) => if parent < index {
                    tokens_to(history, Some(parent)).push(node.token)
                } else {
                    seq![node.token]
                },
                None => seq![node.token],
            }
        },
    }
}

/// Lists the tokens that lead to a position of the history.
pub fn materialize_history(history: &[HistoryNode], index: Option<usize>) -> (tokens: Vec<TokenId>)
    requires
        linked(history@),
        inside(history@, index),
    ensures
        tokens@ == tokens_to(history@, index),
{
    let mut backward: Vec<TokenId> = Vec::new();
    let mut next: Option<usize> = index;
    while next.is_some()
        invariant
            linked(history@),
            inside(history@, next),
            tokens_to(history@, index) == tokens_to(history@, next) + backward@.reverse(),
        decreases
            (match next {
                Some(current) => current + 1,
                None => 0,
            }),
    {
        let ghost before = backward@;
        let current: usize = next.unwrap();
        let node: HistoryNode = history[current];
        backward.push(node.token);
        next = node.parent;
        proof {
            assert(backward@.reverse() == seq![node.token] + before.reverse());
            assert(tokens_to(history@, Some(current)) == tokens_to(history@, next).push(
                node.token,
            ));
            assert(tokens_to(history@, next).push(node.token) + before.reverse() == tokens_to(
                history@,
                next,
            ) + backward@.reverse());
        }
    }
    let tokens = reversed(&backward);
    proof {
        assert(tokens_to(history@, None) + backward@.reverse() == backward@.reverse());
    }
    tokens
}

/// The tokens that lead to a position are those that lead to the position
/// before it, and behind them the token at the position itself; nothing leads to
/// no position.
pub proof fn histories_end_with_their_token(history: Seq<HistoryNode>, index: usize)
    requires
        linked(history),
        index < history.len(),
    ensures
        tokens_to(history, None) == Seq::<TokenId>::empty(),
        tokens_to(history, Some(index)).len() == tokens_to(history, history[index as int].parent).len()
            + 1,
        tokens_to(history, Some(index)).last() == history[index as int].token,
        tokens_to(history, Some(index)).drop_last() == tokens_to(
            history,
            history[index as int].parent,
        ),
{
    let parent = history[index as int].parent;
    let token = history[index as int].token;
    assert(tokens_to(history, Some(index)) == tokens_to(history, parent).push(token));
    assert(tokens_to(history, parent).push(token).drop_last() == tokens_to(history, parent));
}

/// Along positions that are linked one to the next, beginning with one that no
/// other leads to, the tokens come out in the same order: token `k` of the
/// output is the one at the `k`th position.
pub proof fn histories_follow_links(history: Seq<HistoryNode>, path: Seq<usize>, k: int)
    requires
        linked(history),
        0 <= k < path.len(),
        forall|i: int| 0 <= i < path.len() ==> #[trigger] path[i] < history.len(),
        history[path[0] as int].parent is None,
        forall|i: int|
            0 < i < path.len() ==> history[#[trigger] path[i] as int].parent == Some(path[i - 1]),
    ensures
        tokens_to(history, Some(path.last())).len() == path.len(),
        tokens_to(history, Some(path.last()))[k] == history[path[k] as int].token,
    decreases path.len(),
{
    let last = path.len() - 1;
    assert(path[last] < history.len());
    histories_end_with_their_token(history, path.last());
    if last > 0 {
        let before = path.drop_last();
        assert(before[0] == path[0]);
        assert(before.last() == path[last - 1]);
        assert(history[path[last] as int].parent == Some(path[last - 1]));
        assert forall|i: int| 0 <= i < before.len() implies #[trigger] before[i]
            < history.len() by {
            assert(path[i] < history.len());
        }
        assert forall|i: int| 0 < i < before.len() implies history[
        #[trigger] before[i] as int].parent == Some(before[i - 1]) by {
            assert(history[path[i] as int].parent == Some(path[i - 1]));
        }
        histories_follow_links(history, before, if k < last {
            k
        } else {
            0
        });
        let all = tokens_to(history, Some(path.last()));
        if k < last {
            assert(all.drop_last()[k] == all[k]);
        }
    }
}

/// The tokens in the opposite order.
fn reversed(tokens: &Vec<TokenId>) -> (backward: Vec<TokenId>)
    ensures
        backward@ == tokens@.reverse(),
{
    let mut backward: Vec<TokenId> = Vec::with_capacity(tokens.len());
    let mut left: usize = tokens.len();
    while left > 0
        invariant
            left <= tokens@.len(),
            backward@.len() == tokens@.len() - left,
            forall|i: int|
                0 <= i < backward@.len() ==> #[trigger] backward@[i] == tokens@[tokens@.len() - 1 - i],
        decreases left,
    {
        left = left - 1;
        backward.push(tokens[left]);
    }
    backward
}

/// Largest number of hypotheses that a beam keeps: it can expand only on the
/// first step.
pub fn next_beam_limit(position: usize, current_size: usize, configured_size: usize) -> (limit:
    usize)
    ensures
        limit == beam_limit(position as nat, current_size as nat, configured_size as nat),
{
    if position == 0 {
        configured_size
    } else {
        current_size
    }
}

/// See [`next_beam_limit`].
pub open spec fn beam_limit(position: nat, current_size: nat, configured_size: nat) -> nat {
    if position == 0 {
        configured_size
    } else {
        current_size
    }
}

/// The hypotheses of each beam.
pub open spec fn contents(beams: Seq<Vec<Hypothesis>>) -> Seq<Seq<Hypothesis>> {
    beams.map_values(|beam: Vec<Hypothesis>| beam@)
}

/// The listed sentences exist.
pub open spec fn sentences_exist(active: Seq<usize>, count: nat) -> bool {
    forall|k: int| 0 <= k < active.len() ==> #[trigger] active[k] < count
}

/// The listed sentences whose beam is not empty, in the same order.
pub open spec fn still_active(active: Seq<usize>, beams: Seq<Seq<Hypothesis>>) -> Seq<usize>
    decreases active.len(),
{
    if active.len() == 0 {
        Seq::empty()
    } else {
        let rest = still_active(active.drop_last(), beams);
        if beams[active.last() as int].len() > 0 {
            rest.push(active.last())
        } else {
            rest
        }
    }
}

/// Lists the sentences whose beam is not empty.
pub fn active_sentences(active: &[usize], beams: &[Vec<Hypothesis>]) -> (remaining: Vec<usize>)
    requires
        sentences_exist(active@, beams@.len()),
    ensures
        remaining@ == still_active(active@, contents(beams@)),
{
    let mut remaining: Vec<usize> = Vec::new();
    let mut at: usize = 0;
    while at < active.len()
        invariant
            at <= active@.len(),
            sentences_exist(active@, beams@.len()),
            remaining@ == still_active(active@.take(at as int), contents(beams@)),
        decreases active@.len() - at,
    {
        let original: usize = active[at];
        proof {
            assert(active@.take(at + 1).drop_last() == active@.take(at as int));
            assert(contents(beams@)[original as int] == beams@[original as int]@);
        }
        if beams[original].len() > 0 {
            remaining.push(original);
        }
        at = at + 1;
    }
    proof {
        assert(active@.take(at as int) == active@);
    }
    remaining
}

/// The live decoder rows, beam slot by beam slot: those of the slots before
/// `slot`, then those of `slot` for the first `upto` listed sentences. A row
/// is a beam slot and a sentence; a sentence without that slot has no row.
pub open spec fn live_rows(
    beams: Seq<Seq<Hypothesis>>,
    active: Seq<usize>,
    slot: nat,
    upto: nat,
) -> Seq<(nat, usize)>
    decreases slot, upto,
{
    if upto > 0 {
        let before = live_rows(beams, active, slot, (upto - 1) as nat);
        let original = active[upto - 1];
        if slot < beams[original as int].len() {
            before.push((slot, original))
        } else {
            before
        }
    } else if slot > 0 {
        live_rows(beams, active, (slot - 1) as nat, active.len())
    } else {
        Seq::empty()
    }
}

/// The rows that belong to a sentence, in order.
pub open spec fn rows_of(rows: Seq<(nat, usize)>, original: int) -> Seq<usize>
    decreases rows.len(),
{
    if rows.len() == 0 {
        Seq::empty()
    } else {
        let before = rows_of(rows.drop_last(), original);
        if rows.last().1 == original {
            before.push((rows.len() - 1) as usize)
        } else {
            before
        }
    }
}

/// A sentence has no more rows than there are.
pub(crate) proof fn own_rows_are_rows(rows: Seq<(nat, usize)>, original: int)
    ensures
        rows_of(rows, original).len() <= rows.len(),
    decreases rows.len(),
{
    if rows.len() > 0 {
        own_rows_are_rows(rows.drop_last(), original);
    }
}

/// The hypothesis that a row continues.
pub open spec fn at_row(beams: Seq<Seq<Hypothesis>>, row: (nat, usize)) -> Hypothesis {
    beams[row.1 as int][row.0 as int]
}

/// Decoder input of one step: one row per live hypothesis.
pub struct DecodeRows {
    /// Token that each row continues from.
    pub previous: Vec<Option<TokenId>>,
    /// Sentence of each row.
    pub source_indices: Vec<usize>,
    /// Rows of each sentence's beam.
    pub beam_rows: Vec<Vec<usize>>,
}

impl DecodeRows {
    /// The rows are the given ones, of the given beams.
    pub open spec fn hold(&self, beams: Seq<Seq<Hypothesis>>, rows: Seq<(nat, usize)>) -> bool {
        &&& self.previous@ == rows.map_values(|row: (nat, usize)| at_row(beams, row).previous)
        &&& self.source_indices@ == rows.map_values(|row: (nat, usize)| row.1)
        &&& self.beam_rows@.len() == beams.len()
        &&& forall|original: int|
            0 <= original < beams.len() ==> (#[trigger] self.beam_rows@[original])@ == rows_of(
                rows,
                original,
            )
    }
}

/// Packs the live hypotheses into decoder rows, beam slot by beam slot.
pub fn compact_decode_rows(
    beams: &[Vec<Hypothesis>],
    active: &[usize],
    beam_width: usize,
) -> (rows: DecodeRows)
    requires
        sentences_exist(active@, beams@.len()),
    ensures
        rows.hold(
            contents(beams@),
            live_rows(contents(beams@), active@, beam_width as nat, 0),
        ),
{
    let ghost all = contents(beams@);
    let mut previous: Vec<Option<TokenId>> = Vec::new();
    let mut source_indices: Vec<usize> = Vec::new();
    let mut beam_rows: Vec<Vec<usize>> = Vec::with_capacity(beams.len());
    while beam_rows.len() < beams.len()
        invariant
            beam_rows@.len() <= beams@.len(),
            forall|o: int| 0 <= o < beam_rows@.len() ==> (#[trigger] beam_rows@[o])@.len() == 0,
        decreases beams@.len() - beam_rows@.len(),
    {
        beam_rows.push(Vec::new());
    }
    let mut slot: usize = 0;
    let ghost mut rows: Seq<(nat, usize)> = Seq::empty();
    proof {
        assert(previous@ == rows.map_values(|row: (nat, usize)| at_row(all, row).previous));
        assert(source_indices@ == rows.map_values(|row: (nat, usize)| row.1));
        assert forall|o: int| 0 <= o < all.len() implies (#[trigger] beam_rows@[o])@ == rows_of(
            rows,
            o,
        ) by {
            assert(beam_rows@[o]@ == Seq::<usize>::empty());
        }
    }
    while slot < beam_width
        invariant
            slot <= beam_width,
            sentences_exist(active@, beams@.len()),
            all == contents(beams@),
            rows == live_rows(all, active@, slot as nat, 0),
            (DecodeRows { previous, source_indices, beam_rows }).hold(all, rows),
        decreases beam_width - slot,
    {
        let mut at: usize = 0;
        while at < active.len()
            invariant
                at <= active@.len(),
                sentences_exist(active@, beams@.len()),
                all == contents(beams@),
                rows == live_rows(all, active@, slot as nat, at as nat),
                (DecodeRows { previous, source_indices, beam_rows }).hold(all, rows),
            decreases active@.len() - at,
        {
            let original: usize = active[at];
            proof {
                assert(all[original as int] == beams@[original as int]@);
            }
            if slot < beams[original].len() {
                let ghost before = rows;
                let ghost old_rows = beam_rows@;
                let row: usize = previous.len();
                let mut own: Vec<usize> = Vec::new();
                std::mem::swap(&mut own, &mut beam_rows[original]);
                own.push(row);
                beam_rows.set(original, own);
                previous.push(beams[original][slot].previous);
                source_indices.push(original);
                proof {
                    rows = before.push((slot as nat, original));
                    assert(rows.drop_last() == before);
                    assert(previous@ == rows.map_values(
                        |row: (nat, usize)| at_row(all, row).previous,
                    ));
                    assert(source_indices@ == rows.map_values(|row: (nat, usize)| row.1));
                    assert forall|o: int| 0 <= o < all.len() implies (#[trigger] beam_rows@[o])@
                        == rows_of(rows, o) by {
                        assert(old_rows[o]@ == rows_of(before, o));
                    }
                }
            }
            at = at + 1;
        }
        slot = slot + 1;
    }
    DecodeRows { previous, source_indices, beam_rows }
}

/// Number of hypotheses of the fullest listed beam.
pub open spec fn widest(active: Seq<usize>, beams: Seq<Seq<Hypothesis>>) -> nat
    decreases active.len(),
{
    if active.len() == 0 {
        0
    } else {
        let width = widest(active.drop_last(), beams);
        let own = beams[active.last() as int].len();
        if own > width {
            own
        } else {
            width
        }
    }
}

/// Number of hypotheses of the fullest listed beam.
pub fn beam_width(active: &[usize], beams: &[Vec<Hypothesis>]) -> (width: usize)
    requires
        sentences_exist(active@, beams@.len()),
    ensures
        width == widest(active@, contents(beams@)),
{
    let mut width: usize = 0;
    let mut at: usize = 0;
    while at < active.len()
        invariant
            at <= active@.len(),
            sentences_exist(active@, beams@.len()),
            width == widest(active@.take(at as int), contents(beams@)),
        decreases active@.len() - at,
    {
        let original: usize = active[at];
        proof {
            assert(active@.take(at + 1).drop_last() == active@.take(at as int));
            assert(contents(beams@)[original as int] == beams@[original as int]@);
        }
        if beams[original].len() > width {
            width = beams[original].len();
        }
        at = at + 1;
    }
    proof {
        assert(active@.take(at as int) == active@);
    }
    width
}

/// All live decoder rows of the listed sentences.
pub open spec fn all_rows(beams: Seq<Seq<Hypothesis>>, active: Seq<usize>) -> Seq<(nat, usize)> {
    live_rows(beams, active, widest(active, beams), 0)
}

/// The decoder row that each live hypothesis came from.
pub open spec fn parent_rows(beams: Seq<Seq<Hypothesis>>, active: Seq<usize>) -> Seq<usize> {
    all_rows(beams, active).map_values(|row: (nat, usize)| at_row(beams, row).state_parent)
}

/// Lists the decoder row that each live hypothesis came from.
pub fn parent_state_rows(beams: &[Vec<Hypothesis>], active: &[usize]) -> (parents: Vec<usize>)
    requires
        sentences_exist(active@, beams@.len()),
    ensures
        parents@ == parent_rows(contents(beams@), active@),
{
    let ghost all = contents(beams@);
    let width: usize = beam_width(active, beams);
    let mut parents: Vec<usize> = Vec::new();
    let mut slot: usize = 0;
    let ghost mut rows: Seq<(nat, usize)> = Seq::empty();
    proof {
        assert(parents@ == rows.map_values(|row: (nat, usize)| at_row(all, row).state_parent));
    }
    while slot < width
        invariant
            slot <= width,
            sentences_exist(active@, beams@.len()),
            all == contents(beams@),
            rows == live_rows(all, active@, slot as nat, 0),
            parents@ == rows.map_values(|row: (nat, usize)| at_row(all, row).state_parent),
        decreases width - slot,
    {
        let mut at: usize = 0;
        while at < active.len()
            invariant
                at <= active@.len(),
                sentences_exist(active@, beams@.len()),
                all == contents(beams@),
                rows == live_rows(all, active@, slot as nat, at as nat),
                parents@ == rows.map_values(|row: (nat, usize)| at_row(all, row).state_parent),
            decreases active@.len() - at,
        {
            let original: usize = active[at];
            proof {
                assert(all[original as int] == beams@[original as int]@);
            }
            if slot < beams[original].len() {
                parents.push(beams[original][slot].state_parent);
                proof {
                    rows = rows.push((slot as nat, original));
                    assert(parents@ == rows.map_values(
                        |row: (nat, usize)| at_row(all, row).state_parent,
                    ));
                }
            }
            at = at + 1;
        }
        slot = slot + 1;
    }
    parents
}

/// No sentence is listed twice.
pub open spec fn listed_once(active: Seq<usize>) -> bool {
    forall|j: int, k: int| 0 <= j < k < active.len() ==> active[j] != active[k]
}

/// Every row belongs to a listed sentence and to a slot of its beam.
proof fn rows_are_live(
    beams: Seq<Seq<Hypothesis>>,
    active: Seq<usize>,
    slot: nat,
    upto: nat,
)
    requires
        upto <= active.len(),
    ensures
        forall|r: int|
            0 <= r < live_rows(beams, active, slot, upto).len() ==> {
                let row = #[trigger] live_rows(beams, active, slot, upto)[r];
                row.0 < beams[row.1 as int].len() && active.contains(row.1)
            },
    decreases slot, upto,
{
    if upto > 0 {
        let before = live_rows(beams, active, slot, (upto - 1) as nat);
        rows_are_live(beams, active, slot, (upto - 1) as nat);
        assert(active.contains(active[upto - 1]));
        assert forall|r: int| 0 <= r < live_rows(beams, active, slot, upto).len() implies {
            let row = #[trigger] live_rows(beams, active, slot, upto)[r];
            row.0 < beams[row.1 as int].len() && active.contains(row.1)
        } by {
            if r < before.len() {
                assert(live_rows(beams, active, slot, upto)[r] == before[r]);
            }
        }
    } else if slot > 0 {
        rows_are_live(beams, active, (slot - 1) as nat, active.len());
        assert(live_rows(beams, active, slot, upto) == live_rows(
            beams,
            active,
            (slot - 1) as nat,
            active.len(),
        ));
    } else {
        assert(live_rows(beams, active, slot, upto).len() == 0);
    }
}

/// The rows of a listed sentence are its beam slots, in order.
proof fn rows_follow_slots(
    beams: Seq<Seq<Hypothesis>>,
    active: Seq<usize>,
    slot: nat,
    upto: nat,
    at: int,
)
    requires
        listed_once(active),
        upto <= active.len(),
        0 <= at < active.len(),
        live_rows(beams, active, slot, upto).len() <= usize::MAX,
    ensures
        ({
            let rows = live_rows(beams, active, slot, upto);
            let own = rows_of(rows, active[at] as int);
            let size = beams[active[at] as int].len();
            let passed: nat = if at < upto {
                slot + 1
            } else {
                slot
            };
            &&& own.len() == if size < passed {
                size
            } else {
                passed
            }
            &&& forall|b: int|
                0 <= b < own.len() ==> #[trigger] own[b] < rows.len() && rows[own[b] as int] == (
                    b as nat,
                    active[at],
                )
        }),
    decreases slot, upto,
{
    let rows = live_rows(beams, active, slot, upto);
    if upto > 0 {
        let before = live_rows(beams, active, slot, (upto - 1) as nat);
        rows_follow_slots(beams, active, slot, (upto - 1) as nat, at);
        if slot < beams[active[upto - 1] as int].len() {
            assert(rows.drop_last() == before);
        }
    } else if slot > 0 {
        rows_follow_slots(beams, active, (slot - 1) as nat, active.len(), at);
    }
}

proof fn listed_beams_fit(active: Seq<usize>, beams: Seq<Seq<Hypothesis>>, at: int)
    requires
        0 <= at < active.len(),
    ensures
        beams[active[at] as int].len() <= widest(active, beams),
    decreases active.len(),
{
    if at < active.len() - 1 {
        listed_beams_fit(active.drop_last(), beams, at);
    }
}

/// Each live hypothesis has exactly one decoder row: row `own[b]` of a
/// sentence continues the hypothesis in slot `b` of its beam.
pub proof fn rows_track_beams(
    beams: Seq<Seq<Hypothesis>>,
    active: Seq<usize>,
    at: int,
)
    requires
        listed_once(active),
        0 <= at < active.len(),
        all_rows(beams, active).len() <= usize::MAX,
    ensures
        ({
            let rows = all_rows(beams, active);
            let own = rows_of(rows, active[at] as int);
            &&& own.len() == beams[active[at] as int].len()
            &&& forall|b: int|
                0 <= b < own.len() ==> #[trigger] own[b] < rows.len() && rows[own[b] as int] == (
                    b as nat,
                    active[at],
                )
        }),
{
    rows_follow_slots(beams, active, widest(active, beams), 0, at);
    listed_beams_fit(active, beams, at);
}

/// Finished sentences have no decoder row: every row belongs to a listed
/// sentence, and to a slot that its beam has.
pub proof fn rows_belong_to_live_beams(
    beams: Seq<Seq<Hypothesis>>,
    active: Seq<usize>,
    row: int,
)
    requires
        0 <= row < all_rows(beams, active).len(),
    ensures
        active.contains(all_rows(beams, active)[row].1),
        all_rows(beams, active)[row].0 < beams[all_rows(beams, active)[row].1 as int].len(),
{
    rows_are_live(beams, active, widest(active, beams), 0);
}

/// The rows that a decoder is given are the live hypotheses: each row has the
/// token and the sentence of its hypothesis, each hypothesis of a listed sentence
/// has a row, and no two rows have the same.
pub proof fn decoder_rows_are_hypotheses(
    rows: DecodeRows,
    beams: Seq<Seq<Hypothesis>>,
    active: Seq<usize>,
    row: int,
)
    requires
        rows.hold(beams, all_rows(beams, active)),
        listed_once(active),
        sentences_exist(active, beams.len()),
        all_rows(beams, active).len() <= usize::MAX,
        0 <= row < rows.previous@.len(),
    ensures
        rows.source_indices@.len() == rows.previous@.len(),
        all_rows(beams, active).len() == rows.previous@.len(),
        ({
            let (slot, original) = all_rows(beams, active)[row];
            &&& active.contains(original)
            &&& slot < beams[original as int].len()
            &&& rows.source_indices@[row] == original
            &&& rows.previous@[row] == beams[original as int][slot as int].previous
            &&& rows.beam_rows@[original as int]@.len() == beams[original as int].len()
            &&& rows.beam_rows@[original as int]@[slot as int] == row
        }),
        forall|other: int|
            0 <= other < rows.previous@.len() && #[trigger] all_rows(beams, active)[other]
                == all_rows(beams, active)[row] ==> other == row,
{
    let all = all_rows(beams, active);
    let (slot, original) = all[row];
    rows_belong_to_live_beams(beams, active, row);
    let at = choose|at: int| 0 <= at < active.len() && active[at] == original;
    assert(active[at] < beams.len());
    rows_track_beams(beams, active, at);
    let own = rows_of(all, original as int);
    assert forall|other: int|
        0 <= other < all.len() && #[trigger] all[other] == all[row] implies other == own[
        slot as int] by {
        let b = row_has_place(all, original as int, other);
        assert(own[b] == other);
    }
    assert(rows.beam_rows@[original as int]@ == own);
}

/// A row of a sentence is among those that belong to it.
proof fn row_has_place(rows: Seq<(nat, usize)>, original: int, row: int) -> (b: int)
    requires
        rows.len() <= usize::MAX,
        0 <= row < rows.len(),
        rows[row].1 == original,
    ensures
        0 <= b < rows_of(rows, original).len(),
        rows_of(rows, original)[b] == row,
    decreases rows.len(),
{
    if row < rows.len() - 1 {
        row_has_place(rows.drop_last(), original, row)
    } else {
        rows_of(rows, original).len() - 1
    }
}

/// Each live hypothesis has a decoder row of its own.
pub proof fn hypotheses_have_rows(
    beams: Seq<Seq<Hypothesis>>,
    active: Seq<usize>,
    original: usize,
    slot: nat,
)
    requires
        listed_once(active),
        all_rows(beams, active).len() <= usize::MAX,
        active.contains(original),
        slot < beams[original as int].len(),
    ensures
        exists|row: int|
            0 <= row < all_rows(beams, active).len() && #[trigger] all_rows(beams, active)[row] == (
                slot,
                original,
            ),
{
    let at = choose|at: int| 0 <= at < active.len() && active[at] == original;
    rows_track_beams(beams, active, at);
    let own = rows_of(all_rows(beams, active), original as int);
    assert(all_rows(beams, active)[own[slot as int] as int] == (slot, original));
}

/// Where a decoder state is to be taken from: each row from the row that its
/// hypothesis came from.
pub proof fn parents_follow_hypotheses(
    beams: Seq<Seq<Hypothesis>>,
    active: Seq<usize>,
    row: int,
)
    requires
        0 <= row < all_rows(beams, active).len(),
    ensures
        parent_rows(beams, active).len() == all_rows(beams, active).len(),
        ({
            let (slot, original) = all_rows(beams, active)[row];
            parent_rows(beams, active)[row] == beams[original as int][slot as int].state_parent
        }),
{
}

/// The token may be emitted.
pub open spec fn allowed(token: TokenId, forbidden: Option<TokenId>) -> bool {
    Some(token) != forbidden
}

/// The best allowed token among the first `upto` ones, with its score: the
/// earliest one that no later one beats.
pub open spec fn best_allowed(
    scores: Seq<u32>,
    shortlist: Seq<TokenId>,
    forbidden: Option<TokenId>,
    upto: nat,
) -> Option<(TokenId, u32)>
    decreases upto,
{
    if upto == 0 {
        None
    } else {
        let best = best_allowed(scores, shortlist, forbidden, (upto - 1) as nat);
        let token = shortlist[upto - 1];
        let score = scores[upto - 1];
        if !allowed(token, forbidden) {
            best
        } else {
            match best {
                None => Some((token, score)),
                Some((_, best_score)) => if greater(score, best_score) {
                    Some((token, score))
                } else {
                    best
                },
            }
        }
    }
}

/// Tells whether a token may be emitted.
pub fn is_allowed(token: TokenId, forbidden: Option<TokenId>) -> (answer: bool)
    ensures
        answer == allowed(token, forbidden),
{
    match forbidden {
        Some(other) => token != other,
        None => true,
    }
}

/// The shorter of two lengths.
pub open spec fn shorter(left: nat, right: nat) -> nat {
    if left < right {
        left
    } else {
        right
    }
}

/// Picks the best allowed token by its cumulative score; the first one wins a
/// tie.
pub fn select_greedy(scores: &[u32], shortlist: &[TokenId], forbidden: Option<TokenId>) -> (best:
    Option<(TokenId, u32)>)
    ensures
        best == best_allowed(
            scores@,
            shortlist@,
            forbidden,
            shorter(scores@.len(), shortlist@.len()),
        ),
{
    let count: usize = if scores.len() < shortlist.len() {
        scores.len()
    } else {
        shortlist.len()
    };
    let mut best: Option<(TokenId, u32)> = None;
    let mut at: usize = 0;
    while at < count
        invariant
            at <= count,
            count == shorter(scores@.len(), shortlist@.len()),
            best == best_allowed(scores@, shortlist@, forbidden, at as nat),
        decreases count - at,
    {
        if is_allowed(shortlist[at], forbidden) {
            match best {
                Some((_, best_score)) => {
                    if is_greater(scores[at], best_score) {
                        best = Some((shortlist[at], scores[at]));
                    }
                },
                None => {
                    best = Some((shortlist[at], scores[at]));
                },
            }
        }
        at = at + 1;
    }
    best
}

/// The greedy choice is allowed and on the shortlist, and no allowed token has
/// a greater score.
pub proof fn greedy_choice_is_best(
    scores: Seq<u32>,
    shortlist: Seq<TokenId>,
    forbidden: Option<TokenId>,
    upto: nat,
)
    requires
        upto <= scores.len(),
        upto <= shortlist.len(),
        forall|k: int| 0 <= k < upto ==> !crate::ieee::nan(#[trigger] scores[k]),
    ensures
        match best_allowed(scores, shortlist, forbidden, upto) {
            Some((token, score)) => {
                &&& exists|k: int|
                    0 <= k < upto && #[trigger] shortlist[k] == token && scores[k] == score
                        && allowed(token, forbidden)
                &&& forall|k: int|
                    0 <= k < upto && allowed(#[trigger] shortlist[k], forbidden) ==> !greater(
                        scores[k],
                        score,
                    )
            },
            None => forall|k: int|
                0 <= k < upto ==> !allowed(#[trigger] shortlist[k], forbidden),
        },
    decreases upto,
{
    if upto > 0 {
        greedy_choice_is_best(scores, shortlist, forbidden, (upto - 1) as nat);
        let last = upto - 1;
        let best = best_allowed(scores, shortlist, forbidden, (upto - 1) as nat);
        match best {
            Some((token, score)) => {
                let k = choose|k: int|
                    0 <= k < last && #[trigger] shortlist[k] == token && scores[k] == score
                        && allowed(token, forbidden);
                assert(shortlist[k] == token);
                assert(!crate::ieee::nan(scores[k]));
                if allowed(shortlist[last], forbidden) {
                    assert(!crate::ieee::nan(scores[last]));
                }
            },
            None => {},
        }
    }
}

/// Where an expansion stands in the order of scores.
pub open spec fn rank(expansion: Expansion) -> int {
    total_rank(expansion.score)
}

/// Puts an expansion behind all that rank no lower.
pub open spec fn insert_ranked(list: Seq<Expansion>, item: Expansion) -> Seq<Expansion>
    decreases list.len(),
{
    if list.len() == 0 || rank(list.last()) >= rank(item) {
        list.push(item)
    } else {
        insert_ranked(list.drop_last(), item).push(list.last())
    }
}

/// The expansions from the best to the worst; equal ones stay in order.
pub open spec fn ranked(list: Seq<Expansion>) -> Seq<Expansion>
    decreases list.len(),
{
    if list.len() == 0 {
        Seq::empty()
    } else {
        insert_ranked(ranked(list.drop_last()), list.last())
    }
}

/// The first `count` items, or all where there are fewer.
pub open spec fn first_of<T>(list: Seq<T>, count: nat) -> Seq<T> {
    list.take(shorter(count, list.len()) as int)
}

/// No expansion ranks higher than one before it.
pub open spec fn descending(list: Seq<Expansion>) -> bool {
    forall|i: int, j: int| 0 <= i < j < list.len() ==> rank(list[i]) >= rank(list[j])
}

proof fn insertion_point(list: Seq<Expansion>, item: Expansion, at: int)
    requires
        0 <= at <= list.len(),
        forall|i: int| at <= i < list.len() ==> rank(#[trigger] list[i]) < rank(item),
        at > 0 ==> rank(list[at - 1]) >= rank(item),
    ensures
        insert_ranked(list, item) == list.insert(at, item),
    decreases list.len(),
{
    if at < list.len() {
        let shorter_list = list.drop_last();
        insertion_point(shorter_list, item, at);
        assert(shorter_list.insert(at, item).push(list.last()) == list.insert(at, item));
    } else {
        assert(list.push(item) == list.insert(at, item));
    }
}

/// There is a place at which an expansion is inserted.
proof fn find_insertion_point(list: Seq<Expansion>, item: Expansion) -> (at: int)
    ensures
        0 <= at <= list.len(),
        forall|i: int| at <= i < list.len() ==> rank(#[trigger] list[i]) < rank(item),
        at > 0 ==> rank(list[at - 1]) >= rank(item),
        insert_ranked(list, item) == list.insert(at, item),
    decreases list.len(),
{
    let at = if list.len() == 0 || rank(list.last()) >= rank(item) {
        list.len() as int
    } else {
        let at = find_insertion_point(list.drop_last(), item);
        assert forall|i: int| at <= i < list.len() implies rank(#[trigger] list[i]) < rank(item) by {
            if i < list.len() - 1 {
                assert(list.drop_last()[i] == list[i]);
            }
        }
        at
    };
    insertion_point(list, item, at);
    at
}

proof fn insertion_keeps_order(list: Seq<Expansion>, item: Expansion)
    requires
        descending(list),
    ensures
        descending(insert_ranked(list, item)),
        insert_ranked(list, item).to_multiset() == list.to_multiset().insert(item),
{
    let at = find_insertion_point(list, item);
    let result = list.insert(at, item);
    assert forall|i: int, j: int| 0 <= i < j < result.len() implies rank(result[i]) >= rank(
        result[j],
    ) by {
        if i < at && j == at {
            if i < at - 1 {
                assert(rank(list[i]) >= rank(list[at - 1]));
            }
        } else if i < at && j > at {
            assert(rank(list[i]) >= rank(list[j - 1]));
        } else if i < at {
            assert(rank(list[i]) >= rank(list[j]));
        } else if i > at {
            assert(rank(list[i - 1]) >= rank(list[j - 1]));
        }
    }
    vstd::seq_lib::to_multiset_insert(list, at, item);
}

/// Ranking keeps every expansion and puts better ones first.
pub proof fn ranking_sorts(list: Seq<Expansion>)
    ensures
        descending(ranked(list)),
        ranked(list).to_multiset() == list.to_multiset(),
    decreases list.len(),
{
    if list.len() > 0 {
        ranking_sorts(list.drop_last());
        insertion_keeps_order(ranked(list.drop_last()), list.last());
        vstd::seq_lib::to_multiset_build(list.drop_last(), list.last());
        assert(list.drop_last().push(list.last()) == list);
    } else {
        assert(list == Seq::<Expansion>::empty());
    }
}

/// Ranking does not reorder expansions that rank alike: of those with any one
/// rank, the same come out in the same order.
pub proof fn ranking_keeps_ties(list: Seq<Expansion>, of: int)
    ensures
        ranked(list).filter(|item: Expansion| total_rank(item.score) == of) == list.filter(
            |item: Expansion| total_rank(item.score) == of,
        ),
    decreases list.len(),
{
    let same = |item: Expansion| total_rank(item.score) == of;
    if list.len() > 0 {
        let fewer = list.drop_last();
        let item = list.last();
        ranking_keeps_ties(fewer, of);
        let before = ranked(fewer);
        let at = find_insertion_point(before, item);
        let front = before.take(at);
        let back = before.skip(at);
        assert(before == front + back);
        assert(before.insert(at, item) == front.push(item) + back);
        Seq::filter_distributes_over_add(front, back, same);
        Seq::filter_distributes_over_add(front.push(item), back, same);
        filtering_goes_on(front, item, same);
        filtering_goes_on(fewer, item, same);
        assert(fewer.push(item) == list);
        if same(item) {
            assert forall|i: int| 0 <= i < back.len() implies !same(#[trigger] back[i]) by {
                assert(rank(before[at + i]) < rank(item));
            }
            nothing_is_left(back, same);
        }
    } else {
        assert(ranked(list) == list);
    }
}

proof fn filtering_goes_on(list: Seq<Expansion>, item: Expansion, wanted: spec_fn(Expansion) -> bool)
    ensures
        list.push(item).filter(wanted) == if wanted(item) {
            list.filter(wanted).push(item)
        } else {
            list.filter(wanted)
        },
{
    reveal(Seq::filter);
    assert(list.push(item).drop_last() == list);
}

proof fn nothing_is_left(list: Seq<Expansion>, wanted: spec_fn(Expansion) -> bool)
    requires
        forall|i: int| 0 <= i < list.len() ==> !wanted(#[trigger] list[i]),
    ensures
        list.filter(wanted) == Seq::<Expansion>::empty(),
    decreases list.len(),
{
    reveal(Seq::filter);
    if list.len() > 0 {
        let fewer = list.drop_last();
        assert forall|i: int| 0 <= i < fewer.len() implies !wanted(#[trigger] fewer[i]) by {
            assert(!wanted(list[i]));
        }
        nothing_is_left(fewer, wanted);
    }
}

proof fn insertion_into_prefix(list: Seq<Expansion>, item: Expansion, count: nat)
    requires
        descending(list),
    ensures
        first_of(insert_ranked(first_of(list, count), item), count) == first_of(
            insert_ranked(list, item),
            count,
        ),
{
    let prefix = first_of(list, count);
    let at = find_insertion_point(list, item);
    let cut = if at < prefix.len() {
        at
    } else {
        prefix.len() as int
    };
    if cut > 0 && cut < at {
        assert(rank(list[cut - 1]) >= rank(list[at - 1]));
    }
    assert forall|i: int| cut <= i < prefix.len() implies rank(#[trigger] prefix[i]) < rank(
        item,
    ) by {
        assert(list[i] == prefix[i]);
    }
    insertion_point(prefix, item, cut);
    assert(first_of(prefix.insert(cut, item), count) == first_of(list.insert(at, item), count));
}

/// Keeps the best `count` expansions, best first.
pub fn retain_top_k(expansions: &mut Vec<Expansion>, count: usize)
    ensures
        final(expansions)@ == first_of(ranked(old(expansions)@), count as nat),
{
    let ghost all = expansions@;
    let mut kept: Vec<Expansion> = Vec::new();
    let mut at: usize = 0;
    proof {
        assert(all.take(0) == Seq::<Expansion>::empty());
        assert(kept@ == first_of(ranked(all.take(0)), count as nat));
    }
    while at < expansions.len()
        invariant
            at <= expansions@.len(),
            expansions@ == all,
            kept@ == first_of(ranked(all.take(at as int)), count as nat),
        decreases expansions@.len() - at,
    {
        let item: Expansion = expansions[at];
        let item_rank: i64 = rank_of(item.score);
        let ghost before = kept@;
        let mut place: usize = kept.len();
        while place > 0 && rank_of(kept[place - 1].score) < item_rank
            invariant
                place <= kept@.len(),
                kept@ == before,
                item_rank == rank(item),
                forall|i: int| place <= i < kept@.len() ==> rank(#[trigger] kept@[i]) < rank(item),
            decreases place,
        {
            place = place - 1;
        }
        kept.insert(place, item);
        proof {
            insertion_point(before, item, place as int);
            ranking_sorts(all.take(at as int));
            insertion_into_prefix(ranked(all.take(at as int)), item, count as nat);
            assert(all.take(at + 1).drop_last() == all.take(at as int));
        }
        if kept.len() > count {
            let _dropped = kept.pop();
            proof {
                assert(kept@ == first_of(before.insert(place as int, item), count as nat));
            }
        } else {
            proof {
                assert(kept@ == first_of(before.insert(place as int, item), count as nat));
            }
        }
        at = at + 1;
    }
    proof {
        assert(all.take(at as int) == all);
    }
    *expansions = kept;
}

/// No expansion that is dropped ranks higher than one that is kept.
pub proof fn kept_expansions_are_best(list: Seq<Expansion>, count: nat, kept: int, dropped: int)
    requires
        0 <= kept < count <= dropped < ranked(list).len(),
    ensures
        rank(first_of(ranked(list), count)[kept]) >= rank(ranked(list)[dropped]),
{
    ranking_sorts(list);
}

/// Output so far of one sentence, and the tokens of all sentences.
#[verifier::ext_equal]
pub struct Lane {
    /// Tokens of all hypotheses.
    pub history: Seq<HistoryNode>,
    /// Finished hypotheses of the sentence.
    pub completed: Seq<Hypothesis>,
    /// Next beam of the sentence.
    pub next: Seq<Hypothesis>,
}

/// Adds an expansion of a beam: to the finished hypotheses where its token is
/// the end of the sentence, else to the next beam.
pub open spec fn expanded(
    expansion: Expansion,
    beam: Seq<Hypothesis>,
    eos: TokenId,
    lane: Lane,
) -> Lane {
    let parent = beam[expansion.parent as int];
    if expansion.token == eos {
        let finished = Hypothesis {
            history: parent.history,
            previous: None,
            score: expansion.score,
            length: (parent.length + 1) as usize,
            finished: true,
            state_parent: expansion.parent_row,
        };
        Lane { completed: lane.completed.push(finished), ..lane }
    } else {
        let node = HistoryNode { parent: parent.history, token: expansion.token };
        let continued = Hypothesis {
            history: Some(lane.history.len() as usize),
            previous: Some(expansion.token),
            score: expansion.score,
            length: (parent.length + 1) as usize,
            finished: false,
            state_parent: expansion.parent_row,
        };
        Lane { history: lane.history.push(node), next: lane.next.push(continued), ..lane }
    }
}

/// Adds an expansion of a beam to the output.
pub fn push_expansion(
    expansion: Expansion,
    beam: &[Hypothesis],
    eos: TokenId,
    history: &mut Vec<HistoryNode>,
    completed: &mut Vec<Hypothesis>,
    next_beam: &mut Vec<Hypothesis>,
)
    requires
        expansion.parent < beam@.len(),
        beam@[expansion.parent as int].length < usize::MAX,
    ensures
        (Lane {
            history: final(history)@,
            completed: final(completed)@,
            next: final(next_beam)@,
        }) == expanded(
            expansion,
            beam@,
            eos,
            (Lane {
                history: old(history)@,
                completed: old(completed)@,
                next: old(next_beam)@,
            }),
        ),
{
    let parent: Hypothesis = beam[expansion.parent];
    let length: usize = parent.length + 1;
    if expansion.token == eos {
        completed.push(
            Hypothesis {
                history: parent.history,
                previous: None,
                score: expansion.score,
                length,
                finished: true,
                state_parent: expansion.parent_row,
            },
        );
    } else {
        let index: usize = history.len();
        history.push(HistoryNode { parent: parent.history, token: expansion.token });
        next_beam.push(
            Hypothesis {
                history: Some(index),
                previous: Some(expansion.token),
                score: expansion.score,
                length,
                finished: false,
                state_parent: expansion.parent_row,
            },
        );
    }
}

/// The greedy choice, whatever the scores: no allowed token behind it has a
/// greater score, and it has a greater score than every allowed token in front
/// of it that has a number for a score. Where the first allowed token has no
/// number, that token is chosen; a later one without a number never is.
pub proof fn greedy_choices_need_numbers(
    scores: Seq<u32>,
    shortlist: Seq<TokenId>,
    forbidden: Option<TokenId>,
    upto: nat,
)
    requires
        upto <= scores.len(),
        upto <= shortlist.len(),
    ensures
        best_allowed(scores, shortlist, forbidden, upto) is None <==> forall|k: int|
            0 <= k < upto ==> Some(#[trigger] shortlist[k]) == forbidden,
        best_allowed(scores, shortlist, forbidden, upto) matches Some((token, score)) ==> exists|
            at: int,
        |
            {
                &&& 0 <= at < upto
                &&& #[trigger] shortlist[at] == token
                &&& scores[at] == score
                &&& Some(token) != forbidden
                &&& forall|k: int|
                    at < k < upto && Some(#[trigger] shortlist[k]) != forbidden ==> !greater(
                        scores[k],
                        score,
                    )
                &&& forall|k: int|
                    0 <= k < at && Some(#[trigger] shortlist[k]) != forbidden ==> !crate::ieee::nan(
                        score,
                    ) && (crate::ieee::nan(scores[k]) || greater(score, scores[k]))
            },
    decreases upto,
{
    if upto > 0 {
        let last = upto - 1;
        greedy_choices_need_numbers(scores, shortlist, forbidden, last as nat);
        if let Some((token, score)) = best_allowed(scores, shortlist, forbidden, upto) {
            let before = best_allowed(scores, shortlist, forbidden, last as nat);
            if before == Some((token, score)) && !(Some(shortlist[last]) != forbidden && (before
                is None || greater(scores[last], (before->0).1))) {
                let at = choose|at: int|
                    {
                        &&& 0 <= at < last
                        &&& #[trigger] shortlist[at] == token
                        &&& scores[at] == score
                        &&& Some(token) != forbidden
                        &&& forall|k: int|
                            at < k < last && Some(#[trigger] shortlist[k]) != forbidden
                                ==> !greater(scores[k], score)
                        &&& forall|k: int|
                            0 <= k < at && Some(#[trigger] shortlist[k]) != forbidden
                                ==> !crate::ieee::nan(score) && (crate::ieee::nan(scores[k])
                                || greater(score, scores[k]))
                    };
                assert(shortlist[at] == token);
            } else {
                assert(shortlist[last] == token && scores[last] == score);
                if before is Some {
                    let (earlier, beaten) = before->0;
                    let at = choose|at: int|
                        {
                            &&& 0 <= at < last
                            &&& #[trigger] shortlist[at] == earlier
                            &&& scores[at] == beaten
                            &&& Some(earlier) != forbidden
                            &&& forall|k: int|
                                at < k < last && Some(#[trigger] shortlist[k]) != forbidden
                                    ==> !greater(scores[k], beaten)
                            &&& forall|k: int|
                                0 <= k < at && Some(#[trigger] shortlist[k]) != forbidden
                                    ==> !crate::ieee::nan(beaten) && (crate::ieee::nan(scores[k])
                                    || greater(beaten, scores[k]))
                        };
                    assert forall|k: int|
                        0 <= k < last && Some(#[trigger] shortlist[k])
                            != forbidden implies !crate::ieee::nan(score) && (crate::ieee::nan(
                        scores[k],
                    ) || greater(score, scores[k])) by {
                        if k < at {
                            assert(crate::ieee::nan(scores[k]) || greater(beaten, scores[k]));
                        } else if k > at {
                            assert(!greater(scores[k], beaten));
                        }
                    }
                } else {
                    assert forall|k: int|
                        0 <= k < last && Some(#[trigger] shortlist[k])
                            != forbidden implies false by {}
                }
            }
        }
    }
}

/// The sentences that stay are those with a hypothesis left, in the same order.
pub proof fn live_sentences_stay(active: Seq<usize>, beams: Seq<Seq<Hypothesis>>)
    ensures
        still_active(active, beams) == active.filter(
            |original: usize| beams[original as int].len() > 0,
        ),
    decreases active.len(),
{
    reveal(Seq::filter);
    if active.len() > 0 {
        live_sentences_stay(active.drop_last(), beams);
    }
}

/// The fullest listed beam has as many hypotheses as is said, and no listed
/// beam has more.
pub proof fn fullest_beams_are_listed(active: Seq<usize>, beams: Seq<Seq<Hypothesis>>)
    ensures
        forall|k: int|
            0 <= k < active.len() ==> beams[#[trigger] active[k] as int].len() <= widest(
                active,
                beams,
            ),
        widest(active, beams) > 0 ==> exists|k: int|
            0 <= k < active.len() && beams[#[trigger] active[k] as int].len() == widest(
                active,
                beams,
            ),
    decreases active.len(),
{
    if active.len() > 0 {
        let fewer = active.drop_last();
        fullest_beams_are_listed(fewer, beams);
        assert(forall|k: int| 0 <= k < fewer.len() ==> fewer[k] == active[k]);
        assert(active[active.len() - 1] == active.last());
        assert forall|k: int| 0 <= k < active.len() implies beams[#[trigger] active[k] as int].len()
            <= widest(active, beams) by {
            if k < fewer.len() {
                assert(fewer[k] == active[k]);
            }
        }
        if widest(active, beams) > 0 {
            if beams[active.last() as int].len() == widest(active, beams) {
            } else {
                let k = choose|k: int|
                    0 <= k < fewer.len() && beams[#[trigger] fewer[k] as int].len() == widest(
                        fewer,
                        beams,
                    );
                assert(active[k] == fewer[k]);
            }
        }
    }
}

proof fn rows_are_placed(
    beams: Seq<Seq<Hypothesis>>,
    active: Seq<usize>,
    slot: nat,
    upto: nat,
    row: int,
) -> (at: int)
    requires
        upto <= active.len(),
        0 <= row < live_rows(beams, active, slot, upto).len(),
    ensures
        0 <= at < active.len(),
        live_rows(beams, active, slot, upto)[row].1 == active[at],
        live_rows(beams, active, slot, upto)[row].0 <= slot,
        live_rows(beams, active, slot, upto)[row].0 == slot ==> at < upto,
    decreases slot, upto,
{
    if upto > 0 {
        let before = live_rows(beams, active, slot, (upto - 1) as nat);
        if row < before.len() {
            rows_are_placed(beams, active, slot, (upto - 1) as nat, row)
        } else {
            upto - 1
        }
    } else {
        rows_are_placed(beams, active, (slot - 1) as nat, active.len(), row)
    }
}

proof fn earlier_rows_come_first(
    beams: Seq<Seq<Hypothesis>>,
    active: Seq<usize>,
    slot: nat,
    upto: nat,
    first: int,
    second: int,
) -> (places: (int, int))
    requires
        upto <= active.len(),
        0 <= first < second < live_rows(beams, active, slot, upto).len(),
    ensures
        ({
            let rows = live_rows(beams, active, slot, upto);
            &&& 0 <= places.0 < active.len() && rows[first].1 == active[places.0]
            &&& 0 <= places.1 < active.len() && rows[second].1 == active[places.1]
            &&& rows[first].0 < rows[second].0 || (rows[first].0 == rows[second].0 && places.0
                < places.1)
        }),
    decreases slot, upto,
{
    if upto > 0 {
        let before = live_rows(beams, active, slot, (upto - 1) as nat);
        if second < before.len() {
            earlier_rows_come_first(beams, active, slot, (upto - 1) as nat, first, second)
        } else {
            let at = rows_are_placed(beams, active, slot, (upto - 1) as nat, first);
            (at, upto - 1)
        }
    } else {
        earlier_rows_come_first(beams, active, (slot - 1) as nat, active.len(), first, second)
    }
}

/// Decoder rows go slot by slot, and in a slot sentence by sentence in the
/// order in which they are listed.
pub proof fn rows_go_slot_by_slot(
    beams: Seq<Seq<Hypothesis>>,
    active: Seq<usize>,
    first: int,
    second: int,
)
    requires
        0 <= first < second < all_rows(beams, active).len(),
    ensures
        ({
            let (slot, original) = all_rows(beams, active)[first];
            let (later, other) = all_rows(beams, active)[second];
            slot < later || (slot == later && exists|i: int, j: int|
                0 <= i < j < active.len() && #[trigger] active[i] == original
                    && #[trigger] active[j] == other)
        }),
{
    let places = earlier_rows_come_first(
        beams,
        active,
        widest(active, beams),
        0,
        first,
        second,
    );
    assert(active[places.0] == all_rows(beams, active)[first].1);
    assert(active[places.1] == all_rows(beams, active)[second].1);
}

/// A row stands for the hypothesis in its slot of the beam of its sentence.
pub proof fn rows_stand_for_hypotheses(beams: Seq<Seq<Hypothesis>>, slot: nat, original: usize)
    ensures
        at_row(beams, (slot, original)) == beams[original as int][slot as int],
{
}

/// Beams are listed one for one, in order.
pub proof fn beams_are_listed_in_order(beams: Seq<Vec<Hypothesis>>)
    ensures
        contents(beams).len() == beams.len(),
        forall|k: int| 0 <= k < beams.len() ==> #[trigger] contents(beams)[k] == beams[k]@,
{
}

} // verus!
