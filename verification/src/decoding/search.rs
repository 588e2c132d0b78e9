//! The beam search as a state machine.
//!
//! A caller alternates between the search and a decoder: the search says which
//! rows to decode, the caller decodes them and hands back the cumulative score
//! of every shortlisted token in every row, and the search decides which
//! hypotheses go on.

use crate::decoding::{
    active_sentences, all_rows, allowed, beam_limit, best_allowed, compact_decode_rows, contents,
    expanded, first_of, inside, is_allowed, linked, listed_once, live_rows, materialize_history,
    next_beam_limit, parent_rows, parent_state_rows, push_expansion, ranked, retain_top_k, rows_of,
    select_greedy, sentences_exist, still_active, tokens_to, DecodeRows, Expansion, HistoryNode,
    Hypothesis, Lane,
};
use crate::error::{TranslateError, TranslateFault};
use crate::ieee::{greater, rank_of, total_rank};
use crate::text::TokenId;
use vstd::prelude::*;
use vstd::string::*;

verus! {

/// What a search looks for.
pub struct SearchPlan {
    /// Tokens that can be emitted.
    pub shortlist: Vec<TokenId>,
    /// Token that must not be emitted.
    pub forbidden: Option<TokenId>,
    /// End-of-sentence token.
    pub eos: TokenId,
    /// Which sentences of the batch are empty.
    pub empty_inputs: Vec<bool>,
    /// Largest number of decoding steps.
    pub max_len: usize,
    /// Number of hypotheses retained per sentence.
    pub beam_size: usize,
}

/// State of a search.
#[verifier::ext_equal]
pub struct SearchState {
    /// Unfinished hypotheses of each sentence.
    pub beams: Seq<Seq<Hypothesis>>,
    /// Finished hypotheses of each sentence.
    pub completed: Seq<Seq<Hypothesis>>,
    /// Tokens of all hypotheses.
    pub history: Seq<HistoryNode>,
    /// Sentences that are still decoded.
    pub active: Seq<usize>,
    /// Number of decoding steps taken.
    pub position: nat,
}

/// The hypothesis that every sentence starts from.
pub open spec fn blank() -> Hypothesis {
    Hypothesis {
        history: None,
        previous: None,
        score: 0,
        length: 0,
        finished: false,
        state_parent: 0,
    }
}

/// The finished hypothesis of an empty sentence.
pub open spec fn empty_output(row: usize) -> Hypothesis {
    Hypothesis {
        history: None,
        previous: None,
        score: 0,
        length: 1,
        finished: true,
        state_parent: row,
    }
}

/// The state before the first step.
pub open spec fn started(batch_size: nat) -> SearchState {
    SearchState {
        beams: Seq::new(batch_size, |o: int| seq![blank()]),
        completed: Seq::new(batch_size, |o: int| Seq::empty()),
        history: Seq::empty(),
        active: Seq::new(batch_size, |o: int| o as usize),
        position: 0,
    }
}

/// The allowed expansions of one row among the first `upto` shortlisted
/// tokens.
pub open spec fn row_expansions(
    plan: SearchPlan,
    parent: usize,
    row: usize,
    scores: Seq<u32>,
    upto: nat,
) -> Seq<Expansion>
    decreases upto,
{
    if upto == 0 {
        Seq::empty()
    } else {
        let before = row_expansions(plan, parent, row, scores, (upto - 1) as nat);
        let token = plan.shortlist@[upto - 1];
        if allowed(token, plan.forbidden) {
            before.push(
                Expansion {
                    parent,
                    parent_row: row,
                    token,
                    score: scores[row * plan.shortlist@.len() + upto - 1],
                },
            )
        } else {
            before
        }
    }
}

/// The allowed expansions of the first `upto` hypotheses of a beam.
pub open spec fn beam_expansions(
    plan: SearchPlan,
    rows: Seq<usize>,
    scores: Seq<u32>,
    upto: nat,
) -> Seq<Expansion>
    decreases upto,
{
    if upto == 0 {
        Seq::empty()
    } else {
        let parent = (upto - 1) as usize;
        beam_expansions(plan, rows, scores, (upto - 1) as nat) + row_expansions(
            plan,
            parent,
            rows[parent as int],
            scores,
            plan.shortlist@.len(),
        )
    }
}

/// Adds expansions of a beam one after the other.
pub open spec fn all_expanded(
    expansions: Seq<Expansion>,
    beam: Seq<Hypothesis>,
    eos: TokenId,
    lane: Lane,
) -> Lane
    decreases expansions.len(),
{
    if expansions.len() == 0 {
        lane
    } else {
        expanded(
            expansions.last(),
            beam,
            eos,
            all_expanded(expansions.drop_last(), beam, eos, lane),
        )
    }
}

/// The scores of one row.
pub open spec fn row_scores(plan: SearchPlan, row: usize, scores: Seq<u32>) -> Seq<u32> {
    let vocab = plan.shortlist@.len() as int;
    scores.subrange(row * vocab, (row + 1) * vocab)
}

/// The expansions that a sentence goes on with.
pub open spec fn chosen(
    plan: SearchPlan,
    position: nat,
    beam: Seq<Hypothesis>,
    rows: Seq<usize>,
    scores: Seq<u32>,
) -> Seq<Expansion> {
    if plan.beam_size == 1 {
        match best_allowed(
            row_scores(plan, rows[0], scores),
            plan.shortlist@,
            plan.forbidden,
            plan.shortlist@.len(),
        ) {
            Some((token, score)) => seq![
                Expansion { parent: 0, parent_row: rows[0], token, score },
            ],
            None => Seq::empty(),
        }
    } else {
        first_of(
            ranked(beam_expansions(plan, rows, scores, beam.len())),
            beam_limit(position, beam.len(), plan.beam_size as nat),
        )
    }
}

/// One step of one sentence.
pub open spec fn sentence_step(
    plan: SearchPlan,
    position: nat,
    original: int,
    beam: Seq<Hypothesis>,
    rows: Seq<usize>,
    scores: Seq<u32>,
    lane: Lane,
) -> Lane {
    if position == 0 && plan.empty_inputs@[original] {
        Lane { completed: lane.completed.push(empty_output(rows[0])), ..lane }
    } else {
        all_expanded(chosen(plan, position, beam, rows, scores), beam, plan.eos, lane)
    }
}

/// Output of a step so far.
#[verifier::ext_equal]
pub struct Progress {
    /// Tokens of all hypotheses.
    pub history: Seq<HistoryNode>,
    /// Finished hypotheses of each sentence.
    pub completed: Seq<Seq<Hypothesis>>,
    /// Next beam of each sentence.
    pub next: Seq<Seq<Hypothesis>>,
}

/// Output of a step after the first `upto` active sentences.
pub open spec fn progressed(
    plan: SearchPlan,
    state: SearchState,
    scores: Seq<u32>,
    upto: nat,
) -> Progress
    decreases upto,
{
    if upto == 0 {
        Progress {
            history: state.history,
            completed: state.completed,
            next: Seq::new(state.beams.len(), |o: int| Seq::empty()),
        }
    } else {
        let before = progressed(plan, state, scores, (upto - 1) as nat);
        let original = state.active[upto - 1] as int;
        let lane = sentence_step(
            plan,
            state.position,
            original,
            state.beams[original],
            rows_of(all_rows(state.beams, state.active), original),
            scores,
            Lane {
                history: before.history,
                completed: before.completed[original],
                next: before.next[original],
            },
        );
        Progress {
            history: lane.history,
            completed: before.completed.update(original, lane.completed),
            next: before.next.update(original, lane.next),
        }
    }
}

/// The state after a step in which the decoder gave the scores.
pub open spec fn advanced(plan: SearchPlan, state: SearchState, scores: Seq<u32>) -> SearchState {
    let progress = progressed(plan, state, scores, state.active.len());
    SearchState {
        beams: progress.next,
        completed: progress.completed,
        history: progress.history,
        active: still_active(state.active, progress.next),
        position: state.position + 1,
    }
}

/// The search goes on: the length limit is not reached and some sentence is
/// unfinished.
pub open spec fn goes_on(plan: SearchPlan, state: SearchState) -> bool {
    state.position < plan.max_len && state.active.len() > 0
}

/// The token can stand in an output.
pub open spec fn can_stand(plan: SearchPlan, token: TokenId) -> bool {
    &&& plan.shortlist@.contains(token)
    &&& allowed(token, plan.forbidden)
    &&& token != plan.eos
}

/// The hypothesis has as many tokens as steps, but for a final
/// end-of-sentence token.
pub open spec fn consistent(history: Seq<HistoryNode>, hypothesis: Hypothesis) -> bool {
    &&& inside(history, hypothesis.history)
    &&& hypothesis.finished ==> hypothesis.length >= 1
    &&& tokens_to(history, hypothesis.history).len() == if hypothesis.finished {
        hypothesis.length - 1
    } else {
        hypothesis.length as int
    }
}

/// What holds of every state that a search can reach.
pub open spec fn sound(plan: SearchPlan, state: SearchState) -> bool {
    &&& state.position <= plan.max_len
    &&& state.beams.len() == plan.empty_inputs@.len()
    &&& state.completed.len() == state.beams.len()
    &&& sentences_exist(state.active, state.beams.len())
    &&& listed_once(state.active)
    &&& forall|k: int|
        0 <= k < state.active.len() ==> state.beams[#[trigger] state.active[k] as int].len() > 0
    &&& forall|o: int|
        0 <= o < state.beams.len() && (#[trigger] state.beams[o]).len() > 0
            ==> state.active.contains(o as usize)
    &&& linked(state.history)
    &&& forall|i: int|
        0 <= i < state.history.len() ==> can_stand(plan, #[trigger] state.history[i].token)
    &&& forall|o: int, b: int|
        0 <= o < state.beams.len() && 0 <= b < state.beams[o].len() ==> sound_live(
            state.history,
            state.position,
            #[trigger] state.beams[o][b],
        )
    &&& forall|o: int, b: int|
        0 <= o < state.completed.len() && 0 <= b < state.completed[o].len() ==> sound_finished(
            state.history,
            state.position,
            #[trigger] state.completed[o][b],
        )
}

/// What holds of every unfinished hypothesis.
pub open spec fn sound_live(
    history: Seq<HistoryNode>,
    position: nat,
    hypothesis: Hypothesis,
) -> bool {
    &&& !hypothesis.finished
    &&& hypothesis.length == position
    &&& consistent(history, hypothesis)
}

/// What holds of every finished hypothesis.
pub open spec fn sound_finished(
    history: Seq<HistoryNode>,
    position: nat,
    hypothesis: Hypothesis,
) -> bool {
    &&& hypothesis.finished
    &&& hypothesis.length <= position
    &&& consistent(history, hypothesis)
}

/// The longer history continues the shorter one.
spec fn grows(before: Seq<HistoryNode>, after: Seq<HistoryNode>) -> bool {
    &&& before.len() <= after.len()
    &&& forall|i: int| 0 <= i < before.len() ==> #[trigger] after[i] == before[i]
}

proof fn tokens_stay(before: Seq<HistoryNode>, after: Seq<HistoryNode>, index: Option<usize>)
    requires
        linked(before),
        grows(before, after),
        inside(before, index),
    ensures
        tokens_to(after, index) == tokens_to(before, index),
    decreases
            (match index {
                Some(index) => index + 1,
                None => 0,
            }),
{
    if let Some(at) = index {
        assert(after[at as int] == before[at as int]);
        tokens_stay(before, after, before[at as int].parent);
    }
}

/// The tokens of an output can all stand in it.
proof fn tokens_can_stand(plan: SearchPlan, history: Seq<HistoryNode>, index: Option<usize>)
    requires
        linked(history),
        inside(history, index),
        forall|i: int| 0 <= i < history.len() ==> can_stand(plan, #[trigger] history[i].token),
    ensures
        forall|k: int|
            0 <= k < tokens_to(history, index).len() ==> can_stand(
                plan,
                #[trigger] tokens_to(history, index)[k],
            ),
    decreases
            (match index {
                Some(index) => index + 1,
                None => 0,
            }),
{
    if let Some(at) = index {
        let node = history[at as int];
        tokens_can_stand(plan, history, node.parent);
        assert(can_stand(plan, node.token));
        assert(tokens_to(history, index) == tokens_to(history, node.parent).push(node.token));
        assert forall|k: int| 0 <= k < tokens_to(history, index).len() implies can_stand(
            plan,
            #[trigger] tokens_to(history, index)[k],
        ) by {
            if k < tokens_to(history, node.parent).len() {
                assert(can_stand(plan, tokens_to(history, node.parent)[k]));
            }
        }
    }
}

/// What holds of the output of a sentence during a step from `position`.
spec fn lane_sound(
    plan: SearchPlan,
    start: Seq<HistoryNode>,
    position: nat,
    lane: Lane,
) -> bool {
    &&& grows(start, lane.history)
    &&& linked(lane.history)
    &&& forall|i: int|
        0 <= i < lane.history.len() ==> can_stand(plan, #[trigger] lane.history[i].token)
    &&& forall|b: int|
        0 <= b < lane.next.len() ==> sound_live(
            lane.history,
            position + 1,
            #[trigger] lane.next[b],
        )
    &&& forall|b: int|
        0 <= b < lane.completed.len() ==> sound_finished(
            lane.history,
            position + 1,
            #[trigger] lane.completed[b],
        )
}

/// What holds of every expansion of a beam.
spec fn expansion_sound(plan: SearchPlan, size: nat, expansion: Expansion) -> bool {
    &&& expansion.parent < size
    &&& plan.shortlist@.contains(expansion.token)
    &&& allowed(expansion.token, plan.forbidden)
}

proof fn expanded_is_sound(
    plan: SearchPlan,
    start: Seq<HistoryNode>,
    position: nat,
    beam: Seq<Hypothesis>,
    expansion: Expansion,
    lane: Lane,
)
    requires
        lane_sound(plan, start, position, lane),
        linked(start),
        expansion_sound(plan, beam.len(), expansion),
        forall|b: int| 0 <= b < beam.len() ==> sound_live(start, position, #[trigger] beam[b]),
        position < usize::MAX,
        expanded(expansion, beam, plan.eos, lane).history.len() <= usize::MAX,
    ensures
        lane_sound(plan, start, position, expanded(expansion, beam, plan.eos, lane)),
{
    let after = expanded(expansion, beam, plan.eos, lane);
    let parent = beam[expansion.parent as int];
    assert(sound_live(start, position, parent));
    tokens_stay(start, lane.history, parent.history);
    assert forall|i: int| 0 <= i < after.history.len() implies (
    #[trigger] after.history[i].parent matches Some(parent) ==> parent < i) by {
        if i < lane.history.len() {
            assert(after.history[i] == lane.history[i]);
        }
    }
    assert(linked(after.history));
    assert(grows(lane.history, after.history));
    assert forall|b: int| 0 <= b < after.next.len() implies sound_live(
        after.history,
        position + 1,
        #[trigger] after.next[b],
    ) by {
        if b < lane.next.len() {
            assert(sound_live(lane.history, position + 1, lane.next[b]));
            tokens_stay(lane.history, after.history, lane.next[b].history);
        } else {
            tokens_stay(lane.history, after.history, parent.history);
            assert(tokens_to(after.history, after.next[b].history) == tokens_to(
                after.history,
                parent.history,
            ).push(expansion.token));
        }
    }
    assert forall|b: int| 0 <= b < after.completed.len() implies sound_finished(
        after.history,
        position + 1,
        #[trigger] after.completed[b],
    ) by {
        if b < lane.completed.len() {
            assert(sound_finished(lane.history, position + 1, lane.completed[b]));
            tokens_stay(lane.history, after.history, lane.completed[b].history);
        }
    }
    assert forall|i: int| 0 <= i < after.history.len() implies can_stand(
        plan,
        #[trigger] after.history[i].token,
    ) by {
        if i < lane.history.len() {
            assert(can_stand(plan, lane.history[i].token));
        }
    }
}

proof fn all_expanded_is_sound(
    plan: SearchPlan,
    start: Seq<HistoryNode>,
    position: nat,
    beam: Seq<Hypothesis>,
    expansions: Seq<Expansion>,
    lane: Lane,
)
    requires
        lane_sound(plan, start, position, lane),
        linked(start),
        forall|k: int|
            0 <= k < expansions.len() ==> expansion_sound(
                plan,
                beam.len(),
                #[trigger] expansions[k],
            ),
        forall|b: int| 0 <= b < beam.len() ==> sound_live(start, position, #[trigger] beam[b]),
        position < usize::MAX,
        all_expanded(expansions, beam, plan.eos, lane).history.len() <= usize::MAX,
    ensures
        lane_sound(plan, start, position, all_expanded(expansions, beam, plan.eos, lane)),
        lane.history.len() <= all_expanded(expansions, beam, plan.eos, lane).history.len(),
    decreases expansions.len(),
{
    if expansions.len() > 0 {
        let before = all_expanded(expansions.drop_last(), beam, plan.eos, lane);
        assert(before.history.len() <= expanded(
            expansions.last(),
            beam,
            plan.eos,
            before,
        ).history.len());
        assert forall|k: int| 0 <= k < expansions.drop_last().len() implies expansion_sound(
            plan,
            beam.len(),
            #[trigger] expansions.drop_last()[k],
        ) by {
            assert(expansion_sound(plan, beam.len(), expansions[k]));
        }
        all_expanded_is_sound(plan, start, position, beam, expansions.drop_last(), lane);
        assert(expansion_sound(plan, beam.len(), expansions[expansions.len() - 1]));
        expanded_is_sound(plan, start, position, beam, expansions.last(), before);
    }
}

proof fn row_expansions_are_sound(
    plan: SearchPlan,
    size: nat,
    parent: usize,
    row: usize,
    scores: Seq<u32>,
    upto: nat,
)
    requires
        parent < size,
        upto <= plan.shortlist@.len(),
    ensures
        forall|k: int|
            0 <= k < row_expansions(plan, parent, row, scores, upto).len() ==> expansion_sound(
                plan,
                size,
                #[trigger] row_expansions(plan, parent, row, scores, upto)[k],
            ),
    decreases upto,
{
    if upto > 0 {
        let before = row_expansions(plan, parent, row, scores, (upto - 1) as nat);
        row_expansions_are_sound(plan, size, parent, row, scores, (upto - 1) as nat);
        assert(plan.shortlist@.contains(plan.shortlist@[upto - 1]));
        assert forall|k: int|
            0 <= k < row_expansions(plan, parent, row, scores, upto).len() implies expansion_sound(
            plan,
            size,
            #[trigger] row_expansions(plan, parent, row, scores, upto)[k],
        ) by {
            if k < before.len() {
                assert(expansion_sound(plan, size, before[k]));
            }
        }
    }
}

proof fn beam_expansions_are_sound(
    plan: SearchPlan,
    size: nat,
    rows: Seq<usize>,
    scores: Seq<u32>,
    upto: nat,
)
    requires
        upto <= size,
        size <= usize::MAX,
    ensures
        forall|k: int|
            0 <= k < beam_expansions(plan, rows, scores, upto).len() ==> expansion_sound(
                plan,
                size,
                #[trigger] beam_expansions(plan, rows, scores, upto)[k],
            ),
    decreases upto,
{
    if upto > 0 {
        let parent = (upto - 1) as usize;
        let before = beam_expansions(plan, rows, scores, (upto - 1) as nat);
        let own = row_expansions(
            plan,
            parent,
            rows[parent as int],
            scores,
            plan.shortlist@.len(),
        );
        beam_expansions_are_sound(plan, size, rows, scores, (upto - 1) as nat);
        row_expansions_are_sound(
            plan,
            size,
            parent,
            rows[parent as int],
            scores,
            plan.shortlist@.len(),
        );
        assert forall|k: int|
            0 <= k < beam_expansions(plan, rows, scores, upto).len() implies expansion_sound(
            plan,
            size,
            #[trigger] beam_expansions(plan, rows, scores, upto)[k],
        ) by {
            if k < before.len() {
                assert(expansion_sound(plan, size, before[k]));
            } else {
                assert(expansion_sound(plan, size, own[k - before.len()]));
            }
        }
    }
}

proof fn best_is_allowed(
    scores: Seq<u32>,
    shortlist: Seq<TokenId>,
    forbidden: Option<TokenId>,
    upto: nat,
)
    requires
        upto <= shortlist.len(),
    ensures
        best_allowed(scores, shortlist, forbidden, upto) matches Some((token, _)) ==> allowed(
            token,
            forbidden,
        ) && shortlist.contains(token),
    decreases upto,
{
    if upto > 0 {
        best_is_allowed(scores, shortlist, forbidden, (upto - 1) as nat);
        assert(shortlist.contains(shortlist[upto - 1]));
    }
}

proof fn chosen_are_sound(
    plan: SearchPlan,
    position: nat,
    beam: Seq<Hypothesis>,
    rows: Seq<usize>,
    scores: Seq<u32>,
)
    requires
        0 < beam.len() <= usize::MAX,
    ensures
        forall|k: int|
            0 <= k < chosen(plan, position, beam, rows, scores).len() ==> expansion_sound(
                plan,
                beam.len(),
                #[trigger] chosen(plan, position, beam, rows, scores)[k],
            ),
{
    if plan.beam_size == 1 {
        best_is_allowed(
            row_scores(plan, rows[0], scores),
            plan.shortlist@,
            plan.forbidden,
            plan.shortlist@.len(),
        );
    } else {
        let list = beam_expansions(plan, rows, scores, beam.len());
        beam_expansions_are_sound(plan, beam.len(), rows, scores, beam.len());
        crate::decoding::ranking_sorts(list);
        assert forall|k: int|
            0 <= k < chosen(plan, position, beam, rows, scores).len() implies expansion_sound(
            plan,
            beam.len(),
            #[trigger] chosen(plan, position, beam, rows, scores)[k],
        ) by {
            let item = ranked(list)[k];
            assert(ranked(list).contains(item));
            vstd::seq_lib::to_multiset_contains(ranked(list), item);
            vstd::seq_lib::to_multiset_contains(list, item);
            let j = choose|j: int| 0 <= j < list.len() && list[j] == item;
            assert(expansion_sound(plan, beam.len(), list[j]));
        }
    }
}

/// What holds of the output of a step so far.
spec fn progress_sound(plan: SearchPlan, state: SearchState, progress: Progress) -> bool {
    &&& progress.completed.len() == state.beams.len()
    &&& progress.next.len() == state.beams.len()
    &&& grows(state.history, progress.history)
    &&& linked(progress.history)
    &&& forall|i: int|
        0 <= i < progress.history.len() ==> can_stand(plan, #[trigger] progress.history[i].token)
    &&& forall|o: int, b: int|
        0 <= o < progress.next.len() && 0 <= b < progress.next[o].len() ==> sound_live(
            progress.history,
            state.position + 1,
            #[trigger] progress.next[o][b],
        )
    &&& forall|o: int, b: int|
        0 <= o < progress.completed.len() && 0 <= b < progress.completed[o].len()
            ==> sound_finished(
            progress.history,
            state.position + 1,
            #[trigger] progress.completed[o][b],
        )
}

/// The output that a step so far has for one sentence.
spec fn lane_of(progress: Progress, original: int) -> Lane {
    Lane {
        history: progress.history,
        completed: progress.completed[original],
        next: progress.next[original],
    }
}

/// One step of the sentence at position `at` of the active ones.
spec fn step_at(
    plan: SearchPlan,
    state: SearchState,
    scores: Seq<u32>,
    at: int,
    lane: Lane,
) -> Lane {
    let original = state.active[at] as int;
    sentence_step(
        plan,
        state.position,
        original,
        state.beams[original],
        rows_of(all_rows(state.beams, state.active), original),
        scores,
        lane,
    )
}

proof fn step_is_sound(
    plan: SearchPlan,
    state: SearchState,
    scores: Seq<u32>,
    at: int,
    progress: Progress,
)
    requires
        sound(plan, state),
        state.position < plan.max_len,
        0 <= at < state.active.len(),
        state.beams[state.active[at] as int].len() <= usize::MAX,
        progress_sound(plan, state, progress),
        step_at(
            plan,
            state,
            scores,
            at,
            lane_of(progress, state.active[at] as int),
        ).history.len() <= usize::MAX,
    ensures
        ({
            let original = state.active[at] as int;
            let lane = step_at(plan, state, scores, at, lane_of(progress, original));
            &&& progress.history.len() <= lane.history.len()
            &&& progress_sound(
                plan,
                state,
                Progress {
                    history: lane.history,
                    completed: progress.completed.update(original, lane.completed),
                    next: progress.next.update(original, lane.next),
                },
            )
        }),
{
    let original = state.active[at] as int;
    let before = lane_of(progress, original);
    let beam = state.beams[original];
    let rows = rows_of(all_rows(state.beams, state.active), original);
    let lane = step_at(plan, state, scores, at, before);
    assert(state.active[at] < state.beams.len());
    assert(lane_sound(plan, state.history, state.position, before)) by {
        assert forall|b: int| 0 <= b < before.next.len() implies sound_live(
            before.history,
            state.position + 1,
            #[trigger] before.next[b],
        ) by {
            assert(sound_live(progress.history, state.position + 1, progress.next[original][b]));
        }
        assert forall|b: int| 0 <= b < before.completed.len() implies sound_finished(
            before.history,
            state.position + 1,
            #[trigger] before.completed[b],
        ) by {
            assert(sound_finished(
                progress.history,
                state.position + 1,
                progress.completed[original][b],
            ));
        }
    }
    if state.position == 0 && plan.empty_inputs@[original] {
        assert(lane.history == before.history);
        assert(lane_sound(plan, state.history, state.position, lane)) by {
            assert forall|b: int| 0 <= b < lane.completed.len() implies sound_finished(
                lane.history,
                state.position + 1,
                #[trigger] lane.completed[b],
            ) by {
                if b < before.completed.len() {
                    assert(sound_finished(
                        before.history,
                        state.position + 1,
                        before.completed[b],
                    ));
                }
            }
        }
    } else {
        assert forall|b: int| 0 <= b < beam.len() implies sound_live(
            state.history,
            state.position,
            #[trigger] beam[b],
        ) by {
            assert(sound_live(state.history, state.position, state.beams[original][b]));
        }
        chosen_are_sound(plan, state.position, beam, rows, scores);
        all_expanded_is_sound(
            plan,
            state.history,
            state.position,
            beam,
            chosen(plan, state.position, beam, rows, scores),
            before,
        );
        assert(lane_sound(plan, state.history, state.position, lane));
        expansions_only_append(
            chosen(plan, state.position, beam, rows, scores),
            beam,
            plan.eos,
            before,
        );
    }
    assert(grows(progress.history, lane.history));
    let after = Progress {
        history: lane.history,
        completed: progress.completed.update(original, lane.completed),
        next: progress.next.update(original, lane.next),
    };
    assert forall|o: int, b: int|
        0 <= o < after.next.len() && 0 <= b < after.next[o].len() implies sound_live(
        after.history,
        state.position + 1,
        #[trigger] after.next[o][b],
    ) by {
        if o == original {
            assert(sound_live(lane.history, state.position + 1, lane.next[b]));
        } else {
            assert(sound_live(progress.history, state.position + 1, progress.next[o][b]));
            tokens_stay(progress.history, after.history, progress.next[o][b].history);
        }
    }
    assert forall|o: int, b: int|
        0 <= o < after.completed.len() && 0 <= b < after.completed[o].len() implies sound_finished(
        after.history,
        state.position + 1,
        #[trigger] after.completed[o][b],
    ) by {
        if o == original {
            assert(sound_finished(lane.history, state.position + 1, lane.completed[b]));
        } else {
            assert(sound_finished(progress.history, state.position + 1, progress.completed[o][b]));
            tokens_stay(progress.history, after.history, progress.completed[o][b].history);
        }
    }
}

proof fn expansions_only_append(
    expansions: Seq<Expansion>,
    beam: Seq<Hypothesis>,
    eos: TokenId,
    lane: Lane,
)
    ensures
        grows(lane.history, all_expanded(expansions, beam, eos, lane).history),
    decreases expansions.len(),
{
    if expansions.len() > 0 {
        expansions_only_append(expansions.drop_last(), beam, eos, lane);
    }
}

proof fn progress_only_appends(
    plan: SearchPlan,
    state: SearchState,
    scores: Seq<u32>,
    upto: nat,
    end: nat,
)
    requires
        upto <= end,
    ensures
        progressed(plan, state, scores, upto).history.len() <= progressed(
            plan,
            state,
            scores,
            end,
        ).history.len(),
    decreases end,
{
    if upto < end {
        progress_only_appends(plan, state, scores, upto, (end - 1) as nat);
        let before = progressed(plan, state, scores, (end - 1) as nat);
        let original = state.active[end - 1] as int;
        expansions_only_append(
            chosen(
                plan,
                state.position,
                state.beams[original],
                rows_of(all_rows(state.beams, state.active), original),
                scores,
            ),
            state.beams[original],
            plan.eos,
            lane_of(before, original),
        );
    }
}

proof fn progressed_is_sound(plan: SearchPlan, state: SearchState, scores: Seq<u32>, upto: nat)
    requires
        sound(plan, state),
        state.position < plan.max_len,
        upto <= state.active.len(),
        forall|o: int|
            0 <= o < state.beams.len() ==> (#[trigger] state.beams[o]).len() <= usize::MAX,
        progressed(plan, state, scores, upto).history.len() <= usize::MAX,
    ensures
        progress_sound(plan, state, progressed(plan, state, scores, upto)),
    decreases upto,
{
    if upto > 0 {
        progress_only_appends(plan, state, scores, (upto - 1) as nat, upto);
        progressed_is_sound(plan, state, scores, (upto - 1) as nat);
        let before = progressed(plan, state, scores, (upto - 1) as nat);
        assert(state.active[upto - 1] < state.beams.len());
        step_is_sound(plan, state, scores, upto - 1, before);
    } else {
        let progress = progressed(plan, state, scores, 0);
        assert forall|o: int, b: int|
            0 <= o < progress.completed.len() && 0 <= b
                < progress.completed[o].len() implies sound_finished(
            progress.history,
            state.position + 1,
            #[trigger] progress.completed[o][b],
        ) by {
            assert(sound_finished(state.history, state.position, state.completed[o][b]));
        }
    }
}

proof fn remaining_are_listed(active: Seq<usize>, beams: Seq<Seq<Hypothesis>>)
    requires
        listed_once(active),
    ensures
        listed_once(still_active(active, beams)),
        forall|k: int|
            0 <= k < still_active(active, beams).len() ==> active.contains(
                #[trigger] still_active(active, beams)[k],
            ) && beams[still_active(active, beams)[k] as int].len() > 0,
        forall|j: int|
            0 <= j < active.len() && beams[#[trigger] active[j] as int].len() > 0
                ==> still_active(active, beams).contains(active[j]),
    decreases active.len(),
{
    if active.len() > 0 {
        let fewer = active.drop_last();
        let before = still_active(fewer, beams);
        let after = still_active(active, beams);
        remaining_are_listed(fewer, beams);
        assert forall|j: int|
            0 <= j < active.len() && beams[#[trigger] active[j] as int].len()
                > 0 implies after.contains(active[j]) by {
            if j < fewer.len() {
                assert(before.contains(fewer[j]));
                let k = choose|k: int| 0 <= k < before.len() && before[k] == fewer[j];
                assert(after[k] == active[j]);
            } else {
                assert(after[after.len() - 1] == active[j]);
            }
        }
        assert forall|k: int| 0 <= k < after.len() implies active.contains(#[trigger] after[k])
            && beams[after[k] as int].len() > 0 by {
            if k < before.len() {
                assert(fewer.contains(before[k]));
                let j = choose|j: int| 0 <= j < fewer.len() && fewer[j] == before[k];
                assert(active[j] == after[k]);
            } else {
                assert(active[active.len() - 1] == after[k]);
            }
        }
        assert forall|j: int, k: int| 0 <= j < k < after.len() implies after[j] != after[k] by {
            if k == before.len() {
                assert(fewer.contains(before[j]));
                let i = choose|i: int| 0 <= i < fewer.len() && fewer[i] == before[j];
                assert(active[i] != active[active.len() - 1]);
            } else {
                assert(before[j] != before[k]);
            }
        }
    }
}

/// Every state that a search can reach is sound: the state that it starts
/// from is.
pub proof fn starts_sound(plan: SearchPlan)
    ensures
        sound(plan, started(plan.empty_inputs@.len())),
{
    assert(plan.empty_inputs@.len() <= usize::MAX) by {
        assert(plan.empty_inputs.len() == plan.empty_inputs@.len());
    }
    let start = started(plan.empty_inputs@.len());
    assert forall|o: int|
        0 <= o < start.beams.len() && (#[trigger] start.beams[o]).len()
            > 0 implies start.active.contains(o as usize) by {
        assert(start.active[o] == o as usize);
    }
}

/// A step leads from a sound state to a sound state.
pub proof fn steps_stay_sound(plan: SearchPlan, state: SearchState, scores: Seq<u32>)
    requires
        sound(plan, state),
        goes_on(plan, state),
        forall|o: int|
            0 <= o < state.beams.len() ==> (#[trigger] state.beams[o]).len() <= usize::MAX,
        advanced(plan, state, scores).history.len() <= usize::MAX,
    ensures
        sound(plan, advanced(plan, state, scores)),
{
    let next = advanced(plan, state, scores);
    progressed_is_sound(plan, state, scores, state.active.len());
    remaining_are_listed(state.active, next.beams);
    assert forall|k: int| 0 <= k < next.active.len() implies #[trigger] next.active[k]
        < next.beams.len() by {
        assert(state.active.contains(next.active[k]));
    }
    assert forall|o: int|
        0 <= o < next.beams.len() && (#[trigger] next.beams[o]).len()
            > 0 implies next.active.contains(o as usize) by {
        progress_keeps_completed(plan, state, scores, state.active.len(), o);
        let k = choose|k: int| 0 <= k < state.active.len() && state.active[k] == o;
        assert(next.active.contains(state.active[k]));
    }
}

/// The state after steps in which the decoder gave the scores.
pub open spec fn after_steps(plan: SearchPlan, steps: Seq<Seq<u32>>) -> SearchState
    decreases steps.len(),
{
    if steps.len() == 0 {
        started(plan.empty_inputs@.len())
    } else {
        advanced(plan, after_steps(plan, steps.drop_last()), steps.last())
    }
}

/// The beams, the decoder rows and the history of a state fit in memory.
pub open spec fn fits_memory(state: SearchState) -> bool {
    &&& state.history.len() <= usize::MAX
    &&& all_rows(state.beams, state.active).len() <= usize::MAX
    &&& forall|o: int|
        0 <= o < state.beams.len() ==> (#[trigger] state.beams[o]).len() <= usize::MAX
}

/// The search went on before each of the steps.
pub open spec fn is_run(plan: SearchPlan, steps: Seq<Seq<u32>>) -> bool {
    forall|k: int|
        0 <= k < steps.len() ==> goes_on(plan, #[trigger] after_steps(plan, steps.take(k)))
}

/// Whatever scores the decoder gives, a search ends: it takes no more steps
/// than the length limit allows, and every state on the way is sound.
pub proof fn searches_end(plan: SearchPlan, steps: Seq<Seq<u32>>)
    requires
        is_run(plan, steps),
        forall|k: int|
            0 <= k <= steps.len() ==> fits_memory(#[trigger] after_steps(plan, steps.take(k))),
    ensures
        steps.len() <= plan.max_len,
        after_steps(plan, steps).position == steps.len(),
        sound(plan, after_steps(plan, steps)),
    decreases steps.len(),
{
    if steps.len() == 0 {
        starts_sound(plan);
    } else {
        let fewer = steps.drop_last();
        runs_have_prefixes(plan, steps);
        searches_end(plan, fewer);
        steps_stay_sound(plan, after_steps(plan, fewer), steps.last());
    }
}

/// Every expansion comes from a row below the limit.
spec fn rows_below(limit: int, expansions: Seq<Expansion>) -> bool {
    forall|k: int| 0 <= k < expansions.len() ==> (#[trigger] expansions[k]).parent_row < limit
}

/// Every hypothesis comes from a row below the limit.
spec fn parents_below(limit: int, beam: Seq<Hypothesis>) -> bool {
    forall|b: int| 0 <= b < beam.len() ==> (#[trigger] beam[b]).state_parent < limit
}

proof fn row_expansions_share_row(
    plan: SearchPlan,
    parent: usize,
    row: usize,
    scores: Seq<u32>,
    upto: nat,
)
    ensures
        rows_below(row + 1, row_expansions(plan, parent, row, scores, upto)),
    decreases upto,
{
    if upto > 0 {
        row_expansions_share_row(plan, parent, row, scores, (upto - 1) as nat);
    }
}

proof fn beam_expansions_have_rows(
    plan: SearchPlan,
    rows: Seq<usize>,
    scores: Seq<u32>,
    upto: nat,
    limit: int,
)
    requires
        upto <= rows.len(),
        upto <= usize::MAX,
        forall|b: int| 0 <= b < rows.len() ==> #[trigger] rows[b] < limit,
    ensures
        rows_below(limit, beam_expansions(plan, rows, scores, upto)),
    decreases upto,
{
    if upto > 0 {
        let parent = (upto - 1) as usize;
        beam_expansions_have_rows(plan, rows, scores, (upto - 1) as nat, limit);
        row_expansions_share_row(
            plan,
            parent,
            rows[parent as int],
            scores,
            plan.shortlist@.len(),
        );
    }
}

proof fn chosen_have_rows(
    plan: SearchPlan,
    position: nat,
    beam: Seq<Hypothesis>,
    rows: Seq<usize>,
    scores: Seq<u32>,
    limit: int,
)
    requires
        0 < beam.len() <= usize::MAX,
        rows.len() == beam.len(),
        forall|b: int| 0 <= b < rows.len() ==> #[trigger] rows[b] < limit,
    ensures
        rows_below(limit, chosen(plan, position, beam, rows, scores)),
        chosen(plan, position, beam, rows, scores).len() <= beam_limit(
            position,
            beam.len(),
            plan.beam_size as nat,
        ),
{
    if plan.beam_size != 1 {
        let list = beam_expansions(plan, rows, scores, beam.len());
        beam_expansions_have_rows(plan, rows, scores, beam.len(), limit);
        crate::decoding::ranking_sorts(list);
        assert forall|k: int| 0 <= k < chosen(plan, position, beam, rows, scores).len() implies (
        #[trigger] chosen(plan, position, beam, rows, scores)[k]).parent_row < limit by {
            let item = ranked(list)[k];
            assert(ranked(list).contains(item));
            vstd::seq_lib::to_multiset_contains(ranked(list), item);
            vstd::seq_lib::to_multiset_contains(list, item);
            let j = choose|j: int| 0 <= j < list.len() && list[j] == item;
            assert(list[j].parent_row < limit);
        }
    }
}

proof fn expansions_have_parents(
    expansions: Seq<Expansion>,
    beam: Seq<Hypothesis>,
    eos: TokenId,
    lane: Lane,
    limit: int,
)
    requires
        rows_below(limit, expansions),
        parents_below(limit, lane.next),
    ensures
        parents_below(limit, all_expanded(expansions, beam, eos, lane).next),
        all_expanded(expansions, beam, eos, lane).next.len() <= lane.next.len()
            + expansions.len(),
    decreases expansions.len(),
{
    if expansions.len() > 0 {
        assert(rows_below(limit, expansions.drop_last())) by {
            assert forall|k: int| 0 <= k < expansions.drop_last().len() implies (
            #[trigger] expansions.drop_last()[k]).parent_row < limit by {
                assert(expansions[k].parent_row < limit);
            }
        }
        expansions_have_parents(expansions.drop_last(), beam, eos, lane, limit);
        assert(expansions[expansions.len() - 1].parent_row < limit);
    }
}

/// During a step, next beams are filled for the first `upto` active sentences
/// only, from existing rows, and within the limit on their size.
proof fn progress_has_parents(
    plan: SearchPlan,
    state: SearchState,
    scores: Seq<u32>,
    upto: nat,
    original: int,
)
    requires
        sound(plan, state),
        upto <= state.active.len(),
        all_rows(state.beams, state.active).len() <= usize::MAX,
        0 <= original < state.beams.len(),
    ensures
        ({
            let next = progressed(plan, state, scores, upto).next;
            &&& next.len() == state.beams.len()
            &&& parents_below(all_rows(state.beams, state.active).len() as int, next[original])
            &&& next[original].len() > 0 ==> exists|k: int|
                0 <= k < upto && #[trigger] state.active[k] == original
            &&& next[original].len() <= beam_limit(
                state.position,
                state.beams[original].len(),
                plan.beam_size as nat,
            )
        }),
    decreases upto,
{
    if upto > 0 {
        let limit = all_rows(state.beams, state.active).len() as int;
        let at = upto - 1;
        progress_has_parents(plan, state, scores, (upto - 1) as nat, original);
        let before = progressed(plan, state, scores, (upto - 1) as nat);
        if state.active[at] == original {
            if before.next[original].len() > 0 {
                let k = choose|k: int| 0 <= k < at && #[trigger] state.active[k] == original;
                assert(state.active[k] != state.active[at]);
            }
            let beam = state.beams[original];
            let rows = rows_of(all_rows(state.beams, state.active), original);
            crate::decoding::rows_track_beams(state.beams, state.active, at);
            crate::decoding::own_rows_are_rows(
                all_rows(state.beams, state.active),
                original,
            );
            if !(state.position == 0 && plan.empty_inputs@[original]) {
                chosen_have_rows(plan, state.position, beam, rows, scores, limit);
                expansions_have_parents(
                    chosen(plan, state.position, beam, rows, scores),
                    beam,
                    plan.eos,
                    lane_of(before, original),
                    limit,
                );
            }
        } else {
            assert(state.active[at] < state.beams.len());
        }
    }
}

/// Every row of the next step comes from a row of this step.
pub proof fn parents_are_rows(plan: SearchPlan, state: SearchState, scores: Seq<u32>, row: int)
    requires
        sound(plan, state),
        all_rows(state.beams, state.active).len() <= usize::MAX,
        ({
            let next = advanced(plan, state, scores);
            0 <= row < parent_rows(next.beams, next.active).len()
        }),
    ensures
        ({
            let next = advanced(plan, state, scores);
            parent_rows(next.beams, next.active)[row] < all_rows(
                state.beams,
                state.active,
            ).len()
        }),
{
    let next = advanced(plan, state, scores);
    let live = all_rows(next.beams, next.active);
    crate::decoding::rows_belong_to_live_beams(next.beams, next.active, row);
    remaining_are_listed(state.active, next.beams);
    let original = live[row].1;
    let k = choose|k: int| 0 <= k < next.active.len() && next.active[k] == original;
    assert(state.active.contains(next.active[k]));
    let j = choose|j: int| 0 <= j < state.active.len() && state.active[j] == original;
    assert(state.active[j] < state.beams.len());
    progress_has_parents(plan, state, scores, state.active.len(), original as int);
    assert(next.beams[original as int][live[row].0 as int].state_parent < all_rows(
        state.beams,
        state.active,
    ).len());
}

/// A beam can expand to the configured size only on the first step, and never
/// grows afterwards.
pub proof fn beams_never_widen(
    plan: SearchPlan,
    state: SearchState,
    scores: Seq<u32>,
    original: int,
)
    requires
        sound(plan, state),
        all_rows(state.beams, state.active).len() <= usize::MAX,
        0 <= original < state.beams.len(),
    ensures
        advanced(plan, state, scores).beams[original].len() <= beam_limit(
            state.position,
            state.beams[original].len(),
            plan.beam_size as nat,
        ),
{
    progress_has_parents(plan, state, scores, state.active.len(), original);
}

/// A run that does without its last step is a run.
proof fn runs_have_prefixes(plan: SearchPlan, steps: Seq<Seq<u32>>)
    requires
        steps.len() > 0,
        is_run(plan, steps),
        forall|k: int|
            0 <= k <= steps.len() ==> fits_memory(#[trigger] after_steps(plan, steps.take(k))),
    ensures
        is_run(plan, steps.drop_last()),
        forall|k: int|
            0 <= k < steps.len() ==> fits_memory(
                #[trigger] after_steps(plan, steps.drop_last().take(k)),
            ),
        goes_on(plan, after_steps(plan, steps.drop_last())),
        fits_memory(after_steps(plan, steps.drop_last())),
        fits_memory(after_steps(plan, steps)),
{
    let fewer = steps.drop_last();
    let count = fewer.len() as int;
    assert forall|k: int| 0 <= k <= count implies steps.take(k) == fewer.take(k) by {}
    assert forall|k: int| 0 <= k < fewer.len() implies goes_on(
        plan,
        #[trigger] after_steps(plan, fewer.take(k)),
    ) by {
        assert(goes_on(plan, after_steps(plan, steps.take(k))));
    }
    assert forall|k: int| 0 <= k <= fewer.len() implies fits_memory(
        #[trigger] after_steps(plan, fewer.take(k)),
    ) by {
        assert(fits_memory(after_steps(plan, steps.take(k))));
    }
    assert(fewer.take(count) == fewer);
    assert(steps.take(steps.len() as int) == steps);
    assert(goes_on(plan, after_steps(plan, steps.take(count))));
    assert(fits_memory(after_steps(plan, steps.take(steps.len() as int))));
}

/// No beam ever has more hypotheses than the configured size; greedy decoding,
/// whose size is one, follows a single hypothesis.
pub proof fn beams_stay_within_size(plan: SearchPlan, steps: Seq<Seq<u32>>, original: int)
    requires
        plan.beam_size > 0,
        is_run(plan, steps),
        forall|k: int|
            0 <= k <= steps.len() ==> fits_memory(#[trigger] after_steps(plan, steps.take(k))),
        0 <= original < plan.empty_inputs@.len(),
    ensures
        after_steps(plan, steps).beams[original].len() <= plan.beam_size,
    decreases steps.len(),
{
    if steps.len() > 0 {
        let fewer = steps.drop_last();
        runs_have_prefixes(plan, steps);
        beams_stay_within_size(plan, fewer, original);
        searches_end(plan, fewer);
        beams_never_widen(plan, after_steps(plan, fewer), steps.last(), original);
    }
}

/// A beam search over a batch of sentences.
pub struct BeamSearch {
    /// What the search looks for.
    pub plan: SearchPlan,
    /// Unfinished hypotheses of each sentence.
    pub beams: Vec<Vec<Hypothesis>>,
    /// Finished hypotheses of each sentence.
    pub completed: Vec<Vec<Hypothesis>>,
    /// Tokens of all hypotheses.
    pub history: Vec<HistoryNode>,
    /// Sentences that are still decoded.
    pub active: Vec<usize>,
    /// Number of decoding steps taken.
    pub position: usize,
}

impl View for BeamSearch {
    type V = SearchState;

    open spec fn view(&self) -> SearchState {
        SearchState {
            beams: contents(self.beams@),
            completed: contents(self.completed@),
            history: self.history@,
            active: self.active@,
            position: self.position as nat,
        }
    }
}

/// Adds the allowed expansions of one row.
fn push_row_expansions(
    plan: &SearchPlan,
    parent: usize,
    row: usize,
    scores: &[u32],
    expansions: &mut Vec<Expansion>,
)
    requires
        (row + 1) * plan.shortlist@.len() <= scores@.len(),
    ensures
        final(expansions)@ == old(expansions)@ + row_expansions(
            *plan,
            parent,
            row,
            scores@,
            plan.shortlist@.len(),
        ),
{
    let vocab: usize = plan.shortlist.len();
    let ghost before = expansions@;
    proof {
        assert(scores.len() == scores@.len());
        assert(row * vocab + vocab == (row + 1) * vocab) by (nonlinear_arith);
    }
    let base: usize = row * vocab;
    let mut at: usize = 0;
    proof {
        assert(before + row_expansions(*plan, parent, row, scores@, 0) == before);
    }
    while at < vocab
        invariant
            at <= vocab,
            vocab == plan.shortlist@.len(),
            base == row * vocab,
            base + vocab <= scores@.len(),
            expansions@ == before + row_expansions(*plan, parent, row, scores@, at as nat),
        decreases vocab - at,
    {
        let token: TokenId = plan.shortlist[at];
        proof {
            assert(scores.len() == scores@.len());
        }
        if is_allowed(token, plan.forbidden) {
            let ghost own = row_expansions(*plan, parent, row, scores@, at as nat);
            let item = Expansion { parent, parent_row: row, token, score: scores[base + at] };
            expansions.push(item);
            proof {
                assert((before + own).push(item) == before + own.push(item));
            }
        }
        at = at + 1;
    }
}

/// Picks the expansions that a sentence goes on with.
fn choose_expansions(
    plan: &SearchPlan,
    position: usize,
    beam: &Vec<Hypothesis>,
    rows: &Vec<usize>,
    scores: &[u32],
) -> (picked: Vec<Expansion>)
    requires
        beam@.len() > 0,
        rows@.len() == beam@.len(),
        forall|b: int|
            0 <= b < rows@.len() ==> (#[trigger] rows@[b] + 1) * plan.shortlist@.len()
                <= scores@.len(),
    ensures
        picked@ == chosen(*plan, position as nat, beam@, rows@, scores@),
{
    let mut expansions: Vec<Expansion> = Vec::new();
    if plan.beam_size == 1 {
        let vocab: usize = plan.shortlist.len();
        let row: usize = rows[0];
        proof {
            assert(scores.len() == scores@.len());
            assert((rows@[0] + 1) * plan.shortlist@.len() <= scores@.len());
            assert(row * vocab + vocab == (row + 1) * vocab) by (nonlinear_arith);
        }
        let start: usize = row * vocab;
        let own: &[u32] = vstd::slice::slice_subrange(scores, start, start + vocab);
        proof {
            assert(own@ == row_scores(*plan, row, scores@));
        }
        match select_greedy(own, plan.shortlist.as_slice(), plan.forbidden) {
            Some((token, score)) => {
                expansions.push(Expansion { parent: 0, parent_row: row, token, score });
            },
            None => {},
        }
        return expansions;
    }
    let mut parent: usize = 0;
    while parent < beam.len()
        invariant
            parent <= beam@.len(),
            rows@.len() == beam@.len(),
            forall|b: int|
                0 <= b < rows@.len() ==> (#[trigger] rows@[b] + 1) * plan.shortlist@.len()
                    <= scores@.len(),
            expansions@ == beam_expansions(*plan, rows@, scores@, parent as nat),
        decreases beam@.len() - parent,
    {
        proof {
            assert((rows@[parent as int] + 1) * plan.shortlist@.len() <= scores@.len());
        }
        push_row_expansions(plan, parent, rows[parent], scores, &mut expansions);
        parent = parent + 1;
    }
    retain_top_k(&mut expansions, next_beam_limit(position, beam.len(), plan.beam_size));
    expansions
}

/// Takes one step of one sentence.
fn step_sentence(
    plan: &SearchPlan,
    position: usize,
    original: usize,
    beam: &Vec<Hypothesis>,
    rows: &Vec<usize>,
    scores: &[u32],
    history: &mut Vec<HistoryNode>,
    completed: &mut Vec<Hypothesis>,
    next_beam: &mut Vec<Hypothesis>,
)
    requires
        original < plan.empty_inputs@.len(),
        beam@.len() > 0,
        rows@.len() == beam@.len(),
        forall|b: int| 0 <= b < beam@.len() ==> (#[trigger] beam@[b]).length < usize::MAX,
        forall|b: int|
            0 <= b < rows@.len() ==> (#[trigger] rows@[b] + 1) * plan.shortlist@.len()
                <= scores@.len(),
    ensures
        (Lane {
            history: final(history)@,
            completed: final(completed)@,
            next: final(next_beam)@,
        }) == sentence_step(
            *plan,
            position as nat,
            original as int,
            beam@,
            rows@,
            scores@,
            (Lane {
                history: old(history)@,
                completed: old(completed)@,
                next: old(next_beam)@,
            }),
        ),
{
    let ghost start = Lane { history: history@, completed: completed@, next: next_beam@ };
    if position == 0 && plan.empty_inputs[original] {
        completed.push(
            Hypothesis {
                history: None,
                previous: None,
                score: 0,
                length: 1,
                finished: true,
                state_parent: rows[0],
            },
        );
        return ;
    }
    let picked: Vec<Expansion> = choose_expansions(plan, position, beam, rows, scores);
    proof {
        assert(beam.len() == beam@.len());
        chosen_are_sound(*plan, position as nat, beam@, rows@, scores@);
        assert(picked@.take(0) == Seq::<Expansion>::empty());
    }
    let mut at: usize = 0;
    while at < picked.len()
        invariant
            at <= picked@.len(),
            forall|b: int| 0 <= b < beam@.len() ==> (#[trigger] beam@[b]).length < usize::MAX,
            forall|k: int|
                0 <= k < picked@.len() ==> expansion_sound(*plan, beam@.len(), #[trigger] picked@[k]),
            (Lane { history: history@, completed: completed@, next: next_beam@ }) == all_expanded(
                picked@.take(at as int),
                beam@,
                plan.eos,
                start,
            ),
        decreases picked@.len() - at,
    {
        proof {
            assert(picked@.take(at + 1).drop_last() == picked@.take(at as int));
            assert(expansion_sound(*plan, beam@.len(), picked@[at as int]));
        }
        push_expansion(picked[at], beam.as_slice(), plan.eos, history, completed, next_beam);
        at = at + 1;
    }
    proof {
        assert(picked@.take(at as int) == picked@);
    }
}

/// Lists with no hypotheses, one per sentence.
fn empty_beams(count: usize) -> (beams: Vec<Vec<Hypothesis>>)
    ensures
        contents(beams@) == Seq::new(count as nat, |o: int| Seq::<Hypothesis>::empty()),
{
    let mut beams: Vec<Vec<Hypothesis>> = Vec::with_capacity(count);
    while beams.len() < count
        invariant
            beams@.len() <= count,
            forall|o: int| 0 <= o < beams@.len() ==> (#[trigger] beams@[o])@.len() == 0,
        decreases count - beams@.len(),
    {
        beams.push(Vec::new());
    }
    proof {
        assert forall|o: int| 0 <= o < count implies #[trigger] contents(beams@)[o] == Seq::<
            Hypothesis,
        >::empty() by {
            assert(beams@[o]@.len() == 0);
        }
        assert(contents(beams@) =~= Seq::new(count as nat, |o: int| Seq::<Hypothesis>::empty()));
    }
    beams
}

impl BeamSearch {
    /// The search has reached its state by its own steps.
    pub open spec fn valid(&self) -> bool {
        sound(self.plan, self@)
    }

    /// Starts a search.
    pub fn new(plan: SearchPlan) -> (search: BeamSearch)
        ensures
            search.valid(),
            search.plan == plan,
            search@ == started(plan.empty_inputs@.len()),
    {
        let batch_size: usize = plan.empty_inputs.len();
        let completed: Vec<Vec<Hypothesis>> = empty_beams(batch_size);
        let mut beams: Vec<Vec<Hypothesis>> = Vec::with_capacity(batch_size);
        let mut active: Vec<usize> = Vec::with_capacity(batch_size);
        while active.len() < batch_size
            invariant
                active@.len() <= batch_size,
                beams@.len() == active@.len(),
                forall|o: int| 0 <= o < active@.len() ==> #[trigger] active@[o] == o,
                forall|o: int| 0 <= o < beams@.len() ==> (#[trigger] beams@[o])@ == seq![blank()],
            decreases batch_size - active@.len(),
        {
            let mut beam: Vec<Hypothesis> = Vec::with_capacity(1);
            beam.push(
                Hypothesis {
                    history: None,
                    previous: None,
                    score: 0,
                    length: 0,
                    finished: false,
                    state_parent: 0,
                },
            );
            proof {
                assert(beam@ == seq![blank()]);
            }
            beams.push(beam);
            active.push(active.len());
        }
        let search = BeamSearch {
            plan,
            beams,
            completed,
            history: Vec::new(),
            active,
            position: 0,
        };
        proof {
            starts_sound(plan);
            assert forall|o: int| 0 <= o < batch_size implies #[trigger] contents(beams@)[o]
                == seq![blank()] by {
                assert(beams@[o]@ == seq![blank()]);
            }
            assert(contents(beams@) =~= Seq::new(batch_size as nat, |o: int| seq![blank()]));
            assert(active@ =~= Seq::new(batch_size as nat, |o: int| o as usize));
            assert(search@ =~= started(plan.empty_inputs@.len()));
        }
        search
    }

    /// The rows to decode next; `None` where the search is over.
    pub fn next_rows(&self) -> (rows: Option<DecodeRows>)
        requires
            self.valid(),
        ensures
            match rows {
                Some(rows) => goes_on(self.plan, self@) && rows.hold(
                    self@.beams,
                    all_rows(self@.beams, self@.active),
                ),
                None => !goes_on(self.plan, self@),
            },
    {
        if self.position >= self.plan.max_len || self.active.len() == 0 {
            return None;
        }
        let width: usize = crate::decoding::beam_width(
            self.active.as_slice(),
            self.beams.as_slice(),
        );
        Some(compact_decode_rows(self.beams.as_slice(), self.active.as_slice(), width))
    }

    /// The cumulative score of the hypothesis that each row continues.
    pub fn parent_scores(&self) -> (scores: Vec<u32>)
        requires
            self.valid(),
        ensures
            scores@ == all_rows(self@.beams, self@.active).map_values(
                |row: (nat, usize)| crate::decoding::at_row(self@.beams, row).score,
            ),
    {
        let ghost all = contents(self.beams@);
        let width: usize = crate::decoding::beam_width(
            self.active.as_slice(),
            self.beams.as_slice(),
        );
        let mut scores: Vec<u32> = Vec::new();
        let mut slot: usize = 0;
        let ghost mut rows: Seq<(nat, usize)> = Seq::empty();
        proof {
            assert(scores@ == rows.map_values(
                |row: (nat, usize)| crate::decoding::at_row(all, row).score,
            ));
        }
        while slot < width
            invariant
                slot <= width,
                self.valid(),
                all == contents(self.beams@),
                rows == live_rows(all, self.active@, slot as nat, 0),
                scores@ == rows.map_values(
                    |row: (nat, usize)| crate::decoding::at_row(all, row).score,
                ),
            decreases width - slot,
        {
            let mut at: usize = 0;
            while at < self.active.len()
                invariant
                    at <= self.active@.len(),
                    self.valid(),
                    all == contents(self.beams@),
                    rows == live_rows(all, self.active@, slot as nat, at as nat),
                    scores@ == rows.map_values(
                        |row: (nat, usize)| crate::decoding::at_row(all, row).score,
                    ),
                decreases self.active@.len() - at,
            {
                let original: usize = self.active[at];
                proof {
                    assert(self@.active[at as int] < self@.beams.len());
                    assert(all[original as int] == self.beams@[original as int]@);
                }
                if slot < self.beams[original].len() {
                    scores.push(self.beams[original][slot].score);
                    proof {
                        rows = rows.push((slot as nat, original));
                        assert(scores@ == rows.map_values(
                            |row: (nat, usize)| crate::decoding::at_row(all, row).score,
                        ));
                    }
                }
                at = at + 1;
            }
            slot = slot + 1;
        }
        scores
    }

    /// Takes a step: `scores` has, row by row, the cumulative score of every
    /// shortlisted token.
    ///
    /// Returns the decoder row that each row of the next step comes from;
    /// `None` where the search is over.
    pub fn advance(&mut self, scores: &[u32]) -> (parents: Option<Vec<usize>>)
        requires
            old(self).valid(),
            goes_on(old(self).plan, old(self)@),
            scores@.len() == all_rows(old(self)@.beams, old(self)@.active).len()
                * old(self).plan.shortlist@.len(),
        ensures
            final(self).valid(),
            final(self).plan == old(self).plan,
            final(self)@ == advanced(old(self).plan, old(self)@, scores@),
            match parents {
                Some(parents) => goes_on(final(self).plan, final(self)@) && parents@ == parent_rows(
                    final(self)@.beams,
                    final(self)@.active,
                ) && forall|k: int|
                    0 <= k < parents@.len() ==> #[trigger] parents@[k] < all_rows(
                        old(self)@.beams,
                        old(self)@.active,
                    ).len(),
                None => !goes_on(final(self).plan, final(self)@),
            },
    {
        let ghost before = self@;
        let ghost plan = self.plan;
        let width: usize = crate::decoding::beam_width(
            self.active.as_slice(),
            self.beams.as_slice(),
        );
        let rows: DecodeRows = compact_decode_rows(
            self.beams.as_slice(),
            self.active.as_slice(),
            width,
        );
        let ghost live = all_rows(before.beams, before.active);
        let ghost vocab = plan.shortlist@.len();
        proof {
            assert(rows.previous@.len() == live.len());
            assert(rows.previous.len() == rows.previous@.len());
        }
        let mut next_beams: Vec<Vec<Hypothesis>> = empty_beams(self.beams.len());
        proof {
            assert(contents(next_beams@).len() == next_beams@.len());
        }
        let mut at: usize = 0;
        while at < self.active.len()
            invariant
                at <= self.active@.len(),
                sound(plan, before),
                goes_on(plan, before),
                live == all_rows(before.beams, before.active),
                live.len() <= usize::MAX,
                vocab == plan.shortlist@.len(),
                scores@.len() == live.len() * vocab,
                rows.hold(before.beams, live),
                self.plan == plan,
                contents(self.beams@) == before.beams,
                self.active@ == before.active,
                self.position == before.position,
                (Progress {
                    history: self.history@,
                    completed: contents(self.completed@),
                    next: contents(next_beams@),
                }) == progressed(plan, before, scores@, at as nat),
                self.completed@.len() == before.beams.len(),
                next_beams@.len() == before.beams.len(),
            decreases self.active@.len() - at,
        {
            let original: usize = self.active[at];
            let ghost done_before = contents(self.completed@);
            let ghost next_before = contents(next_beams@);
            proof {
                assert(before.active[at as int] < before.beams.len());
                assert(before.beams[original as int] == self.beams@[original as int]@);
                crate::decoding::rows_track_beams(before.beams, before.active, at as int);
                assert(rows.beam_rows@[original as int]@ == rows_of(live, original as int));
                assert forall|b: int| 0 <= b < rows.beam_rows@[original as int]@.len() implies (
                #[trigger] rows.beam_rows@[original as int]@[b] + 1) * vocab <= scores@.len() by {
                    let row = rows.beam_rows@[original as int]@[b] as int;
                    assert(row < live.len());
                    assert((row + 1) * vocab <= live.len() * vocab) by (nonlinear_arith)
                        requires
                            row + 1 <= live.len(),
                    ;
                }
                assert forall|b: int| 0 <= b < self.beams@[original as int]@.len() implies (
                #[trigger] self.beams@[original as int]@[b]).length < usize::MAX by {
                    assert(sound_live(
                        before.history,
                        before.position,
                        before.beams[original as int][b],
                    ));
                }
            }
            let mut done: Vec<Hypothesis> = Vec::new();
            std::mem::swap(&mut done, &mut self.completed[original]);
            let mut next: Vec<Hypothesis> = Vec::new();
            std::mem::swap(&mut next, &mut next_beams[original]);
            proof {
                assert(done@ == done_before[original as int]);
                assert(next@ == next_before[original as int]);
            }
            step_sentence(
                &self.plan,
                self.position,
                original,
                &self.beams[original],
                &rows.beam_rows[original],
                scores,
                &mut self.history,
                &mut done,
                &mut next,
            );
            self.completed.set(original, done);
            next_beams.set(original, next);
            proof {
                assert(contents(self.completed@) =~= done_before.update(original as int, done@));
                assert(contents(next_beams@) =~= next_before.update(original as int, next@));
            }
            at = at + 1;
        }
        let remaining: Vec<usize> = active_sentences(
            self.active.as_slice(),
            next_beams.as_slice(),
        );
        self.beams = next_beams;
        self.active = remaining;
        self.position = self.position + 1;
        proof {
            assert(self.history.len() == self.history@.len());
            assert forall|o: int| 0 <= o < before.beams.len() implies (
            #[trigger] before.beams[o]).len() <= usize::MAX by {
                let beam = old(self).beams@[o];
                assert(beam.len() == beam@.len());
            }
            assert(self@ == advanced(plan, before, scores@));
            steps_stay_sound(plan, before, scores@);
        }
        if self.position >= self.plan.max_len || self.active.len() == 0 {
            None
        } else {
            let parents: Vec<usize> = parent_state_rows(
                self.beams.as_slice(),
                self.active.as_slice(),
            );
            proof {
                assert forall|k: int| 0 <= k < parents@.len() implies #[trigger] parents@[k]
                    < live.len() by {
                    parents_are_rows(plan, before, scores@, k);
                }
            }
            Some(parents)
        }
    }
}

/// The best output of one sentence.
#[derive(Debug)]
pub struct DecodedHypothesis {
    /// Output tokens, without the end-of-sentence token.
    pub tokens: Vec<TokenId>,
    /// Normalized score.
    pub score: u32,
    /// The end of the sentence was reached.
    pub finished: bool,
}

/// The best output of one sentence, with its tokens as a sequence.
#[verifier::ext_equal]
pub struct Output {
    /// Output tokens, without the end-of-sentence token.
    pub tokens: Seq<TokenId>,
    /// Normalized score.
    pub score: u32,
    /// The end of the sentence was reached.
    pub finished: bool,
}

impl View for DecodedHypothesis {
    type V = Output;

    open spec fn view(&self) -> Output {
        Output { tokens: self.tokens@, score: self.score, finished: self.finished }
    }
}

/// The outputs, with their tokens as sequences.
pub open spec fn outputs(decoded: Seq<DecodedHypothesis>) -> Seq<Output> {
    decoded.map_values(|output: DecodedHypothesis| output@)
}

/// The hypotheses that compete for the output of a sentence: the finished
/// ones, then the unfinished ones.
pub open spec fn competing(state: SearchState, original: int) -> Seq<Hypothesis> {
    state.completed[original] + state.beams[original]
}

/// The last of the highest-ranked scores among the first `upto` ones.
pub open spec fn last_best(scores: Seq<u32>, upto: nat) -> int
    decreases upto,
{
    if upto <= 1 {
        0
    } else {
        let best = last_best(scores, (upto - 1) as nat);
        if total_rank(scores[upto - 1]) >= total_rank(scores[best]) {
            upto - 1
        } else {
            best
        }
    }
}

/// The output of a sentence, given the normalized scores of its hypotheses.
pub open spec fn output_of(state: SearchState, original: int, normalized: Seq<u32>) -> Output {
    let best = last_best(normalized, normalized.len());
    let hypothesis = competing(state, original)[best];
    Output {
        tokens: tokens_to(state.history, hypothesis.history),
        score: normalized[best],
        finished: hypothesis.finished,
    }
}

/// Each sentence has a normalized score for every hypothesis that competes for
/// its output.
pub open spec fn scores_fit(state: SearchState, normalized: Seq<Seq<u32>>) -> bool {
    &&& normalized.len() == state.beams.len()
    &&& forall|o: int|
        0 <= o < normalized.len() ==> (#[trigger] normalized[o]).len() == competing(
            state,
            o,
        ).len()
}

/// The scores of a list of lists.
pub open spec fn score_lists(normalized: Seq<Vec<u32>>) -> Seq<Seq<u32>> {
    normalized.map_values(|scores: Vec<u32>| scores@)
}

/// Some sentence has no hypothesis.
pub open spec fn comes_out_empty(state: SearchState) -> bool {
    exists|o: int| 0 <= o < state.beams.len() && (#[trigger] competing(state, o)).len() == 0
}

impl BeamSearch {
    /// The hypothesis at a position among those that compete for the output of
    /// a sentence.
    fn competitor(&self, original: usize, at: usize) -> (hypothesis: Hypothesis)
        requires
            self.valid(),
            original < self@.beams.len(),
            at < competing(self@, original as int).len(),
        ensures
            hypothesis == competing(self@, original as int)[at as int],
    {
        proof {
            assert(self@.completed[original as int] == self.completed@[original as int]@);
            assert(self@.beams[original as int] == self.beams@[original as int]@);
        }
        let done: usize = self.completed[original].len();
        if at < done {
            self.completed[original][at]
        } else {
            self.beams[original][at - done]
        }
    }

    /// Score and length of every hypothesis that competes for the output of a
    /// sentence.
    pub fn candidates(&self, original: usize) -> (candidates: Vec<(u32, usize)>)
        requires
            self.valid(),
            original < self@.beams.len(),
        ensures
            candidates@ == competing(self@, original as int).map_values(
                |hypothesis: Hypothesis| (hypothesis.score, hypothesis.length),
            ),
    {
        let ghost all = competing(self@, original as int);
        let mut candidates: Vec<(u32, usize)> = Vec::new();
        proof {
            assert(self@.completed[original as int] == self.completed@[original as int]@);
            assert(self@.beams[original as int] == self.beams@[original as int]@);
        }
        let mut at: usize = 0;
        while at < self.completed[original].len()
            invariant
                self.valid(),
                original < self@.beams.len(),
                at <= self.completed@[original as int]@.len(),
                all == self.completed@[original as int]@ + self.beams@[original as int]@,
                candidates@.len() == at,
                forall|k: int|
                    0 <= k < at ==> #[trigger] candidates@[k] == (all[k].score, all[k].length),
            decreases self.completed@[original as int]@.len() - at,
        {
            let hypothesis: Hypothesis = self.completed[original][at];
            candidates.push((hypothesis.score, hypothesis.length));
            at = at + 1;
        }
        let ghost done = at;
        let mut slot: usize = 0;
        while slot < self.beams[original].len()
            invariant
                self.valid(),
                original < self@.beams.len(),
                done == self.completed@[original as int]@.len(),
                slot <= self.beams@[original as int]@.len(),
                all == self.completed@[original as int]@ + self.beams@[original as int]@,
                candidates@.len() == done + slot,
                forall|k: int|
                    0 <= k < done + slot ==> #[trigger] candidates@[k] == (
                        all[k].score,
                        all[k].length,
                    ),
            decreases self.beams@[original as int]@.len() - slot,
        {
            let hypothesis: Hypothesis = self.beams[original][slot];
            candidates.push((hypothesis.score, hypothesis.length));
            slot = slot + 1;
        }
        candidates
    }

    /// Picks the output of every sentence by the normalized scores of its
    /// hypotheses; the last one wins a tie.
    ///
    /// Fails where a sentence has no hypothesis at all.
    pub fn finish(&self, normalized: &[Vec<u32>]) -> (decoded: Result<
        Vec<DecodedHypothesis>,
        TranslateError,
    >)
        requires
            self.valid(),
            scores_fit(self@, score_lists(normalized@)),
        ensures
            match decoded {
                Ok(decoded) => {
                    &&& !comes_out_empty(self@)
                    &&& outputs(decoded@) == Seq::new(
                        self@.beams.len(),
                        |o: int| output_of(self@, o, normalized@[o]@),
                    )
                },
                Err(error) => {
                    &&& comes_out_empty(self@)
                    &&& error@ == TranslateFault::Runtime("beam search returned no result"@)
                },
            },
    {
        let mut decoded: Vec<DecodedHypothesis> = Vec::with_capacity(self.beams.len());
        while decoded.len() < self.beams.len()
            invariant
                self.valid(),
                scores_fit(self@, score_lists(normalized@)),
                decoded@.len() <= self.beams@.len(),
                forall|o: int|
                    0 <= o < decoded@.len() ==> (#[trigger] decoded@[o])@ == output_of(
                        self@,
                        o,
                        normalized@[o]@,
                    ),
                forall|o: int|
                    0 <= o < decoded@.len() ==> (#[trigger] competing(self@, o)).len() > 0,
            decreases self.beams@.len() - decoded@.len(),
        {
            let original: usize = decoded.len();
            let scores: &Vec<u32> = &normalized[original];
            proof {
                assert(score_lists(normalized@)[original as int] == scores@);
                assert(scores@.len() == competing(self@, original as int).len());
            }
            if scores.len() == 0 {
                return Err(
                    TranslateError::Runtime(String::from_str("beam search returned no result")),
                );
            }
            let best: usize = last_best_of(scores);
            let hypothesis: Hypothesis = self.competitor(original, best);
            proof {
                if best < self@.completed[original as int].len() {
                    assert(sound_finished(
                        self@.history,
                        self@.position,
                        self@.completed[original as int][best as int],
                    ));
                } else {
                    assert(sound_live(
                        self@.history,
                        self@.position,
                        self@.beams[original as int][best - self@.completed[original as int].len()],
                    ));
                }
            }
            decoded.push(
                DecodedHypothesis {
                    tokens: materialize_history(self.history.as_slice(), hypothesis.history),
                    score: scores[best],
                    finished: hypothesis.finished,
                },
            );
        }
        proof {
            assert(outputs(decoded@) =~= Seq::new(
                self@.beams.len(),
                |o: int| output_of(self@, o, normalized@[o]@),
            ));
        }
        Ok(decoded)
    }
}

/// Finds the last of the highest-ranked scores.
fn last_best_of(scores: &Vec<u32>) -> (best: usize)
    requires
        scores@.len() > 0,
    ensures
        best < scores@.len(),
        best == last_best(scores@, scores@.len()),
{
    let mut best: usize = 0;
    let mut at: usize = 1;
    while at < scores.len()
        invariant
            1 <= at <= scores@.len(),
            best < at,
            best == last_best(scores@, at as nat),
        decreases scores@.len() - at,
    {
        if rank_of(scores[at]) >= rank_of(scores[best]) {
            best = at;
        }
        at = at + 1;
    }
    best
}

proof fn best_ranks_highest(scores: Seq<u32>, upto: nat)
    requires
        0 < upto <= scores.len(),
    ensures
        0 <= last_best(scores, upto) < upto,
        forall|k: int|
            0 <= k < upto ==> total_rank(#[trigger] scores[k]) <= total_rank(
                scores[last_best(scores, upto)],
            ),
        forall|k: int|
            last_best(scores, upto) < k < upto ==> total_rank(#[trigger] scores[k]) < total_rank(
                scores[last_best(scores, upto)],
            ),
    decreases upto,
{
    if upto > 1 {
        best_ranks_highest(scores, (upto - 1) as nat);
    }
}

/// The output of a sentence has the highest normalized score; of equal ones
/// it is the last.
pub proof fn outputs_score_highest(
    state: SearchState,
    original: int,
    normalized: Seq<u32>,
    at: int,
)
    requires
        0 <= at < normalized.len(),
    ensures
        total_rank(normalized[at]) <= total_rank(output_of(state, original, normalized).score),
        at > last_best(normalized, normalized.len()) ==> total_rank(normalized[at]) < total_rank(
            output_of(state, original, normalized).score,
        ),
{
    best_ranks_highest(normalized, normalized.len());
}

/// Outputs have only shortlisted tokens, neither the forbidden one nor the
/// end-of-sentence token, and no more tokens than there were steps; one that
/// ended its sentence has fewer.
pub proof fn outputs_are_admissible(
    plan: SearchPlan,
    state: SearchState,
    original: int,
    normalized: Seq<u32>,
)
    requires
        sound(plan, state),
        0 <= original < state.beams.len(),
        normalized.len() == competing(state, original).len(),
        normalized.len() > 0,
    ensures
        ({
            let output = output_of(state, original, normalized);
            &&& forall|k: int|
                0 <= k < output.tokens.len() ==> can_stand(plan, #[trigger] output.tokens[k])
            &&& output.tokens.len() <= plan.max_len
            &&& output.finished ==> output.tokens.len() < plan.max_len
        }),
{
    best_ranks_highest(normalized, normalized.len());
    let best = last_best(normalized, normalized.len());
    let done = state.completed[original];
    let hypothesis = competing(state, original)[best];
    if best < done.len() {
        assert(sound_finished(state.history, state.position, state.completed[original][best]));
    } else {
        assert(sound_live(
            state.history,
            state.position,
            state.beams[original][best - done.len()],
        ));
    }
    tokens_can_stand(plan, state.history, hypothesis.history);
}

/// Once a search is over, an output that did not end its sentence has as many
/// tokens as the length limit allows.
pub proof fn unfinished_outputs_fill_the_limit(
    plan: SearchPlan,
    state: SearchState,
    original: int,
    normalized: Seq<u32>,
)
    requires
        sound(plan, state),
        !goes_on(plan, state),
        0 <= original < state.beams.len(),
        normalized.len() == competing(state, original).len(),
        normalized.len() > 0,
        !output_of(state, original, normalized).finished,
    ensures
        output_of(state, original, normalized).tokens.len() == plan.max_len,
{
    best_ranks_highest(normalized, normalized.len());
    let best = last_best(normalized, normalized.len());
    let done = state.completed[original];
    if best < done.len() {
        assert(sound_finished(state.history, state.position, state.completed[original][best]));
    } else {
        assert(sound_live(
            state.history,
            state.position,
            state.beams[original][best - done.len()],
        ));
        assert(state.active.contains(original as usize));
    }
}

proof fn expansions_keep_completed(
    expansions: Seq<Expansion>,
    beam: Seq<Hypothesis>,
    eos: TokenId,
    lane: Lane,
)
    ensures
        lane.completed.is_prefix_of(all_expanded(expansions, beam, eos, lane).completed),
    decreases expansions.len(),
{
    if expansions.len() > 0 {
        expansions_keep_completed(expansions.drop_last(), beam, eos, lane);
    }
}

proof fn progress_keeps_completed(
    plan: SearchPlan,
    state: SearchState,
    scores: Seq<u32>,
    upto: nat,
    original: int,
)
    requires
        sound(plan, state),
        upto <= state.active.len(),
        0 <= original < state.beams.len(),
    ensures
        ({
            let progress = progressed(plan, state, scores, upto);
            &&& progress.next.len() == state.beams.len()
            &&& progress.completed.len() == state.beams.len()
            &&& state.completed[original].is_prefix_of(progress.completed[original])
            &&& (forall|k: int| 0 <= k < upto ==> #[trigger] state.active[k] != original)
                ==> progress.completed[original] == state.completed[original]
                && progress.next[original].len() == 0
        }),
    decreases upto,
{
    if upto > 0 {
        let at = upto - 1;
        progress_keeps_completed(plan, state, scores, (upto - 1) as nat, original);
        let before = progressed(plan, state, scores, (upto - 1) as nat);
        assert(state.active[at] < state.beams.len());
        if state.active[at] == original {
            let beam = state.beams[original];
            let rows = rows_of(all_rows(state.beams, state.active), original);
            expansions_keep_completed(
                chosen(plan, state.position, beam, rows, scores),
                beam,
                plan.eos,
                lane_of(before, original),
            );
        }
    }
}

/// A finished hypothesis is never lost.
pub proof fn finished_hypotheses_stay(
    plan: SearchPlan,
    state: SearchState,
    scores: Seq<u32>,
    original: int,
)
    requires
        sound(plan, state),
        0 <= original < state.beams.len(),
    ensures
        state.completed[original].is_prefix_of(advanced(plan, state, scores).completed[original]),
{
    progress_keeps_completed(plan, state, scores, state.active.len(), original);
}

/// A step leaves the sentences that are no longer decoded as they are.
pub proof fn idle_sentences_stay(
    plan: SearchPlan,
    state: SearchState,
    scores: Seq<u32>,
    original: int,
)
    requires
        sound(plan, state),
        0 <= original < state.beams.len(),
        forall|k: int| 0 <= k < state.active.len() ==> #[trigger] state.active[k] != original,
    ensures
        advanced(plan, state, scores).completed[original] == state.completed[original],
        advanced(plan, state, scores).beams[original].len() == 0,
        forall|k: int|
            0 <= k < advanced(plan, state, scores).active.len() ==> #[trigger] advanced(
                plan,
                state,
                scores,
            ).active[k] != original,
{
    let next = advanced(plan, state, scores);
    progress_keeps_completed(plan, state, scores, state.active.len(), original);
    remaining_are_listed(state.active, next.beams);
    assert forall|k: int| 0 <= k < next.active.len() implies #[trigger] next.active[k]
        != original by {
        assert(state.active.contains(next.active[k]));
    }
}

proof fn first_step_of_empty_sentence(
    plan: SearchPlan,
    state: SearchState,
    scores: Seq<u32>,
    upto: nat,
    original: int,
)
    requires
        sound(plan, state),
        state.position == 0,
        upto <= state.active.len(),
        0 <= original < state.beams.len(),
        plan.empty_inputs@[original],
    ensures
        ({
            let progress = progressed(plan, state, scores, upto);
            &&& progress.next.len() == state.beams.len()
            &&& progress.completed.len() == state.beams.len()
            &&& progress.next[original].len() == 0
            &&& (forall|k: int| 0 <= k < upto ==> #[trigger] state.active[k] != original)
                ==> progress.completed[original] == state.completed[original]
            &&& (exists|k: int| 0 <= k < upto && #[trigger] state.active[k] == original)
                ==> progress.completed[original] == state.completed[original].push(
                empty_output(rows_of(all_rows(state.beams, state.active), original)[0]),
            )
        }),
    decreases upto,
{
    if upto > 0 {
        let at = upto - 1;
        first_step_of_empty_sentence(plan, state, scores, (upto - 1) as nat, original);
        assert(state.active[at] < state.beams.len());
        if state.active[at] == original {
            assert forall|k: int| 0 <= k < at implies #[trigger] state.active[k] != original by {
                assert(state.active[k] != state.active[at]);
            }
        }
    }
}

/// An empty sentence is finished by the first step, and its output is empty.
pub proof fn empty_sentences_give_empty_outputs(
    plan: SearchPlan,
    scores: Seq<u32>,
    original: int,
    normalized: Seq<u32>,
)
    requires
        0 <= original < plan.empty_inputs@.len(),
        plan.empty_inputs@[original],
        normalized.len() == 1,
    ensures
        ({
            let state = advanced(plan, started(plan.empty_inputs@.len()), scores);
            &&& competing(state, original).len() == 1
            &&& forall|k: int|
                0 <= k < state.active.len() ==> #[trigger] state.active[k] != original
            &&& output_of(state, original, normalized).finished
            &&& output_of(state, original, normalized).tokens == Seq::<TokenId>::empty()
        }),
{
    let start = started(plan.empty_inputs@.len());
    let state = advanced(plan, start, scores);
    starts_sound(plan);
    assert(plan.empty_inputs@.len() <= usize::MAX) by {
        assert(plan.empty_inputs.len() == plan.empty_inputs@.len());
    }
    assert(start.active[original] == original);
    first_step_of_empty_sentence(plan, start, scores, start.active.len(), original);
    remaining_are_listed(start.active, state.beams);
    assert forall|k: int| 0 <= k < state.active.len() implies #[trigger] state.active[k]
        != original by {
        assert(state.beams[state.active[k] as int].len() > 0);
    }
}

/// Number of tokens among the first ones of the shortlist that may be emitted.
spec fn allowed_before(plan: SearchPlan, upto: nat) -> nat
    decreases upto,
{
    if upto == 0 {
        0
    } else if Some(plan.shortlist@[upto - 1]) != plan.forbidden {
        allowed_before(plan, (upto - 1) as nat) + 1
    } else {
        allowed_before(plan, (upto - 1) as nat)
    }
}

/// The expansion of a hypothesis by a shortlisted token.
spec fn expansion_by(
    plan: SearchPlan,
    parent: usize,
    row: usize,
    scores: Seq<u32>,
    at: int,
) -> Expansion {
    Expansion {
        parent,
        parent_row: row,
        token: plan.shortlist@[at],
        score: scores[row * plan.shortlist@.len() + at],
    }
}

proof fn row_expansions_are_counted(
    plan: SearchPlan,
    parent: usize,
    row: usize,
    scores: Seq<u32>,
    upto: nat,
    at: int,
)
    ensures
        row_expansions(plan, parent, row, scores, upto).len() == allowed_before(plan, upto),
        0 <= at < upto && Some(plan.shortlist@[at]) != plan.forbidden ==> allowed_before(
            plan,
            at as nat,
        ) < allowed_before(plan, upto) && row_expansions(plan, parent, row, scores, upto)[
            allowed_before(plan, at as nat) as int] == expansion_by(plan, parent, row, scores, at),
    decreases upto,
{
    if upto > 0 {
        row_expansions_are_counted(plan, parent, row, scores, (upto - 1) as nat, at);
    }
}

proof fn row_expansions_have_tokens(
    plan: SearchPlan,
    parent: usize,
    row: usize,
    scores: Seq<u32>,
    upto: nat,
    k: int,
) -> (at: int)
    requires
        0 <= k < row_expansions(plan, parent, row, scores, upto).len(),
    ensures
        0 <= at < upto,
        Some(plan.shortlist@[at]) != plan.forbidden,
        allowed_before(plan, at as nat) == k,
        row_expansions(plan, parent, row, scores, upto)[k] == expansion_by(
            plan,
            parent,
            row,
            scores,
            at,
        ),
    decreases upto,
{
    let before = row_expansions(plan, parent, row, scores, (upto - 1) as nat);
    row_expansions_are_counted(plan, parent, row, scores, (upto - 1) as nat, 0);
    if k < before.len() {
        row_expansions_have_tokens(plan, parent, row, scores, (upto - 1) as nat, k)
    } else {
        upto - 1
    }
}

proof fn beam_expansions_are_counted(
    plan: SearchPlan,
    rows: Seq<usize>,
    scores: Seq<u32>,
    upto: nat,
    parent: int,
    at: int,
)
    requires
        upto <= usize::MAX,
    ensures
        ({
            let list = beam_expansions(plan, rows, scores, upto);
            let each = allowed_before(plan, plan.shortlist@.len());
            &&& list.len() == upto * each
            &&& 0 <= parent < upto && 0 <= at < plan.shortlist@.len() && Some(plan.shortlist@[at])
                != plan.forbidden ==> {
                let k = parent * each + allowed_before(plan, at as nat);
                0 <= k < list.len() && list[k] == expansion_by(
                    plan,
                    parent as usize,
                    rows[parent],
                    scores,
                    at,
                )
            }
        }),
    decreases upto,
{
    let each = allowed_before(plan, plan.shortlist@.len());
    if upto > 0 {
        let last = (upto - 1) as usize;
        beam_expansions_are_counted(plan, rows, scores, (upto - 1) as nat, parent, at);
        row_expansions_are_counted(
            plan,
            last,
            rows[last as int],
            scores,
            plan.shortlist@.len(),
            at,
        );
        assert(upto * each == (upto - 1) * each + each) by (nonlinear_arith);
        if parent == upto - 1 {
            assert(parent * each >= 0) by (nonlinear_arith)
                requires
                    parent >= 0,
            ;
        }
    } else {
        assert(0 * each == 0) by (nonlinear_arith);
    }
}

proof fn beam_expansions_have_tokens(
    plan: SearchPlan,
    rows: Seq<usize>,
    scores: Seq<u32>,
    upto: nat,
    k: int,
) -> (origin: (int, int))
    requires
        upto <= usize::MAX,
        0 <= k < beam_expansions(plan, rows, scores, upto).len(),
    ensures
        0 <= origin.0 < upto,
        0 <= origin.1 < plan.shortlist@.len(),
        Some(plan.shortlist@[origin.1]) != plan.forbidden,
        k == origin.0 * allowed_before(plan, plan.shortlist@.len()) + allowed_before(
            plan,
            origin.1 as nat,
        ),
        beam_expansions(plan, rows, scores, upto)[k] == expansion_by(
            plan,
            origin.0 as usize,
            rows[origin.0],
            scores,
            origin.1,
        ),
    decreases upto,
{
    let before = beam_expansions(plan, rows, scores, (upto - 1) as nat);
    beam_expansions_are_counted(plan, rows, scores, (upto - 1) as nat, 0, 0);
    if k < before.len() {
        beam_expansions_have_tokens(plan, rows, scores, (upto - 1) as nat, k)
    } else {
        let last = (upto - 1) as usize;
        let at = row_expansions_have_tokens(
            plan,
            last,
            rows[last as int],
            scores,
            plan.shortlist@.len(),
            k - before.len(),
        );
        (upto - 1, at)
    }
}

/// Every expansion that a sentence goes on with continues one of its hypotheses
/// by an allowed token of the shortlist, and has the score that the decoder gave
/// for that token in the row of that hypothesis.
pub proof fn kept_expansions_follow_rows(
    plan: SearchPlan,
    position: nat,
    beam: Seq<Hypothesis>,
    rows: Seq<usize>,
    scores: Seq<u32>,
    k: int,
)
    requires
        0 < beam.len() <= usize::MAX,
        rows.len() == beam.len(),
        forall|b: int|
            0 <= b < rows.len() ==> (#[trigger] rows[b] + 1) * plan.shortlist@.len()
                <= scores.len(),
        0 <= k < chosen(plan, position, beam, rows, scores).len(),
    ensures
        ({
            let kept = chosen(plan, position, beam, rows, scores)[k];
            &&& kept.parent < beam.len()
            &&& kept.parent_row == rows[kept.parent as int]
            &&& Some(kept.token) != plan.forbidden
            &&& exists|at: int|
                0 <= at < plan.shortlist@.len() && #[trigger] plan.shortlist@[at] == kept.token
                    && kept.score == scores[rows[kept.parent as int] * plan.shortlist@.len() + at]
        }),
{
    let kept = chosen(plan, position, beam, rows, scores)[k];
    if plan.beam_size == 1 {
        let at = greedy_choice_has_place(plan, rows[0], scores, plan.shortlist@.len());
        assert(plan.shortlist@[at] == kept.token);
    } else {
        let list = beam_expansions(plan, rows, scores, beam.len());
        let j = ranked_item_is_listed(list, k);
        let (parent, at) = beam_expansions_have_tokens(plan, rows, scores, beam.len(), j);
        assert(plan.shortlist@[at] == kept.token);
    }
}

/// What is ranked is one of the listed.
proof fn ranked_item_is_listed(list: Seq<Expansion>, k: int) -> (j: int)
    requires
        0 <= k < ranked(list).len(),
    ensures
        0 <= j < list.len(),
        list[j] == ranked(list)[k],
        ranked(list).len() == list.len(),
{
    crate::decoding::ranking_sorts(list);
    let item = ranked(list)[k];
    assert(ranked(list).contains(item));
    vstd::seq_lib::to_multiset_contains(ranked(list), item);
    vstd::seq_lib::to_multiset_contains(list, item);
    vstd::seq_lib::to_multiset_len(list);
    vstd::seq_lib::to_multiset_len(ranked(list));
    choose|j: int| 0 <= j < list.len() && list[j] == item
}

/// What is listed is ranked.
proof fn listed_item_is_ranked(list: Seq<Expansion>, j: int) -> (k: int)
    requires
        0 <= j < list.len(),
    ensures
        0 <= k < ranked(list).len(),
        list[j] == ranked(list)[k],
        ranked(list).len() == list.len(),
{
    crate::decoding::ranking_sorts(list);
    let item = list[j];
    assert(list.contains(item));
    vstd::seq_lib::to_multiset_contains(ranked(list), item);
    vstd::seq_lib::to_multiset_contains(list, item);
    vstd::seq_lib::to_multiset_len(list);
    vstd::seq_lib::to_multiset_len(ranked(list));
    choose|k: int| 0 <= k < ranked(list).len() && ranked(list)[k] == item
}

/// Where the best allowed token of a row stands in the shortlist.
proof fn greedy_choice_has_place(plan: SearchPlan, row: usize, scores: Seq<u32>, upto: nat) -> (at:
    int)
    requires
        upto <= plan.shortlist@.len(),
        (row + 1) * plan.shortlist@.len() <= scores.len(),
    ensures
        best_allowed(
            row_scores(plan, row, scores),
            plan.shortlist@,
            plan.forbidden,
            upto,
        ) matches Some((token, score)) ==> {
            &&& 0 <= at < upto
            &&& plan.shortlist@[at] == token
            &&& Some(token) != plan.forbidden
            &&& scores[row * plan.shortlist@.len() + at] == score
        },
    decreases upto,
{
    if upto == 0 {
        0
    } else {
        let before = greedy_choice_has_place(plan, row, scores, (upto - 1) as nat);
        let vocab = plan.shortlist@.len() as int;
        assert(row * vocab >= 0 && row * vocab + vocab == (row + 1) * vocab) by (nonlinear_arith)
            requires
                vocab >= 0,
        ;
        assert(row_scores(plan, row, scores)[upto - 1] == scores[row * vocab + upto - 1]);
        if best_allowed(row_scores(plan, row, scores), plan.shortlist@, plan.forbidden, upto)
            == best_allowed(
            row_scores(plan, row, scores),
            plan.shortlist@,
            plan.forbidden,
            (upto - 1) as nat,
        ) {
            before
        } else {
            upto - 1
        }
    }
}

/// In a beam search, every pair of a hypothesis of the beam and an allowed token
/// competes: it is kept, or as many are kept as may be and none of them ranks
/// lower. The first step keeps the configured number, a later one as many as
/// there are hypotheses.
pub proof fn all_expansions_compete(
    plan: SearchPlan,
    position: nat,
    beam: Seq<Hypothesis>,
    rows: Seq<usize>,
    scores: Seq<u32>,
    parent: int,
    at: int,
)
    requires
        plan.beam_size != 1,
        beam.len() <= usize::MAX,
        rows.len() == beam.len(),
        0 <= parent < beam.len(),
        0 <= at < plan.shortlist@.len(),
        Some(plan.shortlist@[at]) != plan.forbidden,
    ensures
        ({
            let kept = chosen(plan, position, beam, rows, scores);
            let most = if position == 0 {
                plan.beam_size as nat
            } else {
                beam.len()
            };
            let score = scores[rows[parent] * plan.shortlist@.len() + at];
            &&& kept.len() <= most
            &&& kept.contains(
                Expansion {
                    parent: parent as usize,
                    parent_row: rows[parent],
                    token: plan.shortlist@[at],
                    score,
                },
            ) || (kept.len() == most && forall|k: int|
                0 <= k < kept.len() ==> total_rank((#[trigger] kept[k]).score) >= total_rank(score))
        }),
{
    let list = beam_expansions(plan, rows, scores, beam.len());
    let kept = chosen(plan, position, beam, rows, scores);
    beam_expansions_are_counted(plan, rows, scores, beam.len(), parent, at);
    let j = parent * allowed_before(plan, plan.shortlist@.len()) + allowed_before(plan, at as nat);
    let k = listed_item_is_ranked(list, j);
    crate::decoding::ranking_sorts(list);
    if k < kept.len() {
        assert(kept[k] == list[j]);
    } else {
        assert forall|i: int| 0 <= i < kept.len() implies total_rank((#[trigger] kept[i]).score)
            >= total_rank(list[j].score) by {
            assert(kept[i] == ranked(list)[i]);
            assert(crate::decoding::rank(ranked(list)[i]) >= crate::decoding::rank(
                ranked(list)[k],
            ));
        }
    }
}

/// In a beam search, better expansions come first, and no pair of a hypothesis
/// and a token is kept twice where the shortlist has no token twice.
pub proof fn kept_expansions_differ(
    plan: SearchPlan,
    position: nat,
    beam: Seq<Hypothesis>,
    rows: Seq<usize>,
    scores: Seq<u32>,
    first: int,
    second: int,
)
    requires
        plan.beam_size != 1,
        beam.len() <= usize::MAX,
        rows.len() == beam.len(),
        0 <= first < second < chosen(plan, position, beam, rows, scores).len(),
    ensures
        ({
            let kept = chosen(plan, position, beam, rows, scores);
            &&& total_rank(kept[first].score) >= total_rank(kept[second].score)
            &&& plan.shortlist@.no_duplicates() ==> kept[first].parent != kept[second].parent
                || kept[first].token != kept[second].token
        }),
{
    let list = beam_expansions(plan, rows, scores, beam.len());
    let kept = chosen(plan, position, beam, rows, scores);
    crate::decoding::ranking_sorts(list);
    assert(crate::decoding::rank(ranked(list)[first]) >= crate::decoding::rank(
        ranked(list)[second],
    ));
    if plan.shortlist@.no_duplicates() && kept[first].parent == kept[second].parent
        && kept[first].token == kept[second].token {
        assert(list.no_duplicates()) by {
            assert forall|i: int, j: int| 0 <= i < list.len() && 0 <= j < list.len() && i
                != j implies list[i] != list[j] by {
                let left = beam_expansions_have_tokens(plan, rows, scores, beam.len(), i);
                let right = beam_expansions_have_tokens(plan, rows, scores, beam.len(), j);
                if list[i] == list[j] {
                    assert(left.0 == right.0);
                    assert(plan.shortlist@[left.1] == plan.shortlist@[right.1]);
                    assert(left.1 == right.1);
                }
            }
        }
        let i = ranked_item_is_listed(list, first);
        let j = ranked_item_is_listed(list, second);
        let left = beam_expansions_have_tokens(plan, rows, scores, beam.len(), i);
        let right = beam_expansions_have_tokens(plan, rows, scores, beam.len(), j);
        assert(left.0 == right.0);
        assert(plan.shortlist@[left.1] == plan.shortlist@[right.1]);
        assert(left.1 == right.1);
        assert(kept[first] == kept[second]);
        list.lemma_multiset_has_no_duplicates();
        ranked(list).lemma_multiset_has_no_duplicates_conv();
        assert(ranked(list)[first] == ranked(list)[second]);
    }
}

/// Greedy decoding goes on with one token, if any is allowed. No allowed token
/// has a greater score in the sentence's own row, and of equal ones it is the
/// first; its score is the one in that row.
pub proof fn greedy_steps_follow_own_rows(
    plan: SearchPlan,
    position: nat,
    beam: Seq<Hypothesis>,
    rows: Seq<usize>,
    scores: Seq<u32>,
)
    requires
        plan.beam_size == 1,
        rows.len() > 0,
        (rows[0] + 1) * plan.shortlist@.len() <= scores.len(),
        forall|at: int|
            0 <= at < plan.shortlist@.len() ==> !crate::ieee::nan(
                #[trigger] scores[rows[0] * plan.shortlist@.len() + at],
            ),
    ensures
        ({
            let kept = chosen(plan, position, beam, rows, scores);
            let start = rows[0] * plan.shortlist@.len();
            &&& kept.len() <= 1
            &&& kept.len() == 0 <==> forall|at: int|
                0 <= at < plan.shortlist@.len() ==> Some(#[trigger] plan.shortlist@[at])
                    == plan.forbidden
            &&& kept.len() == 1 ==> {
                &&& kept[0].parent == 0
                &&& kept[0].parent_row == rows[0]
                &&& Some(kept[0].token) != plan.forbidden
                &&& exists|best: int|
                    {
                        &&& 0 <= best < plan.shortlist@.len()
                        &&& #[trigger] plan.shortlist@[best] == kept[0].token
                        &&& scores[start + best] == kept[0].score
                        &&& forall|at: int|
                            0 <= at < plan.shortlist@.len() && Some(
                                #[trigger] plan.shortlist@[at],
                            ) != plan.forbidden ==> !greater(scores[start + at], kept[0].score) && (
                            at < best ==> greater(kept[0].score, scores[start + at]))
                    }
            }
        }),
{
    let vocab = plan.shortlist@.len() as int;
    let own = row_scores(plan, rows[0], scores);
    let row = rows[0];
    assert(row * vocab >= 0 && row * vocab + vocab == (row + 1) * vocab) by (nonlinear_arith)
        requires
            vocab >= 0,
    ;
    assert forall|at: int| 0 <= at < vocab implies !crate::ieee::nan(#[trigger] own[at]) && own[at]
        == scores[row * vocab + at] by {
        assert(!crate::ieee::nan(scores[row * vocab + at]));
    }
    let best = first_best(own, plan.shortlist@, plan.forbidden, plan.shortlist@.len());
    if best_allowed(own, plan.shortlist@, plan.forbidden, plan.shortlist@.len()) is Some {
        assert(Some(plan.shortlist@[best]) != plan.forbidden);
    }
}

/// The best allowed token is the first that no other beats.
proof fn first_best(
    own: Seq<u32>,
    shortlist: Seq<TokenId>,
    forbidden: Option<TokenId>,
    upto: nat,
) -> (best: int)
    requires
        upto <= shortlist.len(),
        upto <= own.len(),
        forall|at: int| 0 <= at < upto ==> !crate::ieee::nan(#[trigger] own[at]),
    ensures
        match best_allowed(own, shortlist, forbidden, upto) {
            Some((token, score)) => {
                &&& 0 <= best < upto
                &&& shortlist[best] == token
                &&& Some(token) != forbidden
                &&& own[best] == score
                &&& forall|at: int|
                    0 <= at < upto && Some(#[trigger] shortlist[at]) != forbidden ==> !greater(
                        own[at],
                        score,
                    ) && (at < best ==> greater(score, own[at]))
            },
            None => forall|at: int|
                0 <= at < upto ==> Some(#[trigger] shortlist[at]) == forbidden,
        },
    decreases upto,
{
    if upto == 0 {
        0
    } else {
        let before = first_best(own, shortlist, forbidden, (upto - 1) as nat);
        let last = upto - 1;
        assert(!crate::ieee::nan(own[last]));
        match best_allowed(own, shortlist, forbidden, (upto - 1) as nat) {
            None => last,
            Some((_, score)) => {
                assert(!crate::ieee::nan(own[before]));
                assert forall|at: int|
                    0 <= at < last && Some(#[trigger] shortlist[at]) != forbidden implies !greater(
                    own[at],
                    score,
                ) && !crate::ieee::nan(own[at]) by {}
                if Some(shortlist[last]) != forbidden && greater(own[last], score) {
                    last
                } else {
                    before
                }
            },
        }
    }
}

/// Number of expansions among the first ones that end their sentence.
spec fn ends_before(expansions: Seq<Expansion>, eos: TokenId, upto: nat) -> nat
    decreases upto,
{
    if upto == 0 {
        0
    } else if expansions[upto - 1].token == eos {
        ends_before(expansions, eos, (upto - 1) as nat) + 1
    } else {
        ends_before(expansions, eos, (upto - 1) as nat)
    }
}

proof fn ends_stay(expansions: Seq<Expansion>, eos: TokenId, upto: nat)
    requires
        upto < expansions.len(),
    ensures
        ends_before(expansions.drop_last(), eos, upto) == ends_before(expansions, eos, upto),
        ends_before(expansions, eos, upto) <= upto,
    decreases upto,
{
    if upto > 0 {
        ends_stay(expansions, eos, (upto - 1) as nat);
    }
}

/// A hypothesis is what an expansion of a beam makes, where the history has its
/// token.
spec fn is_made_by(
    expansion: Expansion,
    beam: Seq<Hypothesis>,
    eos: TokenId,
    history: Seq<HistoryNode>,
    start: int,
    made: Hypothesis,
) -> bool {
    let parent = beam[expansion.parent as int];
    &&& made.score == expansion.score
    &&& made.length == (parent.length + 1) as usize
    &&& made.state_parent == expansion.parent_row
    &&& made.finished == (expansion.token == eos)
    &&& if expansion.token == eos {
        made.history == parent.history && made.previous is None
    } else {
        &&& made.previous == Some(expansion.token)
        &&& made.history matches Some(index) && start <= index < history.len()
            && history[index as int] == (HistoryNode {
            parent: parent.history,
            token: expansion.token,
        })
    }
}

proof fn expansions_come_out(
    expansions: Seq<Expansion>,
    beam: Seq<Hypothesis>,
    eos: TokenId,
    lane: Lane,
    k: int,
)
    requires
        all_expanded(expansions, beam, eos, lane).history.len() <= usize::MAX,
    ensures
        ({
            let out = all_expanded(expansions, beam, eos, lane);
            let ends = ends_before(expansions, eos, expansions.len());
            &&& ends <= expansions.len()
            &&& out.completed.len() == lane.completed.len() + ends
            &&& out.next.len() == lane.next.len() + expansions.len() - ends
            &&& lane.history.len() <= out.history.len()
            &&& forall|i: int| 0 <= i < lane.completed.len() ==> out.completed[i] == lane.completed[i]
            &&& forall|i: int| 0 <= i < lane.next.len() ==> out.next[i] == lane.next[i]
            &&& 0 <= k < expansions.len() && expansions[k].token == eos ==> {
                let place = lane.completed.len() + ends_before(expansions, eos, k as nat);
                place < out.completed.len() && is_made_by(
                    expansions[k],
                    beam,
                    eos,
                    out.history,
                    lane.history.len() as int,
                    out.completed[place as int],
                )
            }
            &&& 0 <= k < expansions.len() && expansions[k].token != eos ==> {
                let place = lane.next.len() + k - ends_before(expansions, eos, k as nat);
                lane.next.len() <= place < out.next.len() && is_made_by(
                    expansions[k],
                    beam,
                    eos,
                    out.history,
                    lane.history.len() as int,
                    out.next[place],
                )
            }
        }),
    decreases expansions.len(),
{
    if expansions.len() > 0 {
        let fewer = expansions.drop_last();
        let last = expansions.len() - 1;
        let before = all_expanded(fewer, beam, eos, lane);
        assert(before.history.len() <= expanded(
            expansions.last(),
            beam,
            eos,
            before,
        ).history.len());
        expansions_come_out(fewer, beam, eos, lane, k);
        ends_stay(expansions, eos, last as nat);
        if 0 <= k < last {
            ends_stay(expansions, eos, k as nat);
        }
    }
}

/// Every new hypothesis was made by an expansion.
proof fn made_hypotheses_have_expansions(
    expansions: Seq<Expansion>,
    beam: Seq<Hypothesis>,
    eos: TokenId,
    lane: Lane,
    place: int,
    ended: bool,
) -> (k: int)
    requires
        all_expanded(expansions, beam, eos, lane).history.len() <= usize::MAX,
        ended ==> lane.completed.len() <= place < all_expanded(
            expansions,
            beam,
            eos,
            lane,
        ).completed.len(),
        !ended ==> lane.next.len() <= place < all_expanded(expansions, beam, eos, lane).next.len(),
    ensures
        0 <= k < expansions.len(),
        (expansions[k].token == eos) == ended,
        ended ==> place == lane.completed.len() + ends_before(expansions, eos, k as nat),
        !ended ==> place == lane.next.len() + k - ends_before(expansions, eos, k as nat),
        ({
            let out = all_expanded(expansions, beam, eos, lane);
            is_made_by(
                expansions[k],
                beam,
                eos,
                out.history,
                lane.history.len() as int,
                if ended {
                    out.completed[place]
                } else {
                    out.next[place]
                },
            )
        }),
    decreases expansions.len(),
{
    if expansions.len() == 0 {
        0
    } else {
        let fewer = expansions.drop_last();
        let before = all_expanded(fewer, beam, eos, lane);
        assert(before.history.len() <= expanded(
            expansions.last(),
            beam,
            eos,
            before,
        ).history.len());
        expansions_come_out(fewer, beam, eos, lane, 0);
        expansions_come_out(expansions, beam, eos, lane, expansions.len() - 1);
        if (ended && place < before.completed.len()) || (!ended && place < before.next.len()) {
            let k = made_hypotheses_have_expansions(fewer, beam, eos, lane, place, ended);
            ends_stay(expansions, eos, k as nat);
            k
        } else {
            ends_stay(expansions, eos, (expansions.len() - 1) as nat);
            expansions.len() - 1
        }
    }
}

proof fn progress_grows(
    plan: SearchPlan,
    state: SearchState,
    scores: Seq<u32>,
    upto: nat,
    end: nat,
)
    requires
        upto <= end,
    ensures
        grows(
            progressed(plan, state, scores, upto).history,
            progressed(plan, state, scores, end).history,
        ),
    decreases end,
{
    if upto < end {
        progress_grows(plan, state, scores, upto, (end - 1) as nat);
        let before = progressed(plan, state, scores, (end - 1) as nat);
        let original = state.active[end - 1] as int;
        expansions_only_append(
            chosen(
                plan,
                state.position,
                state.beams[original],
                rows_of(all_rows(state.beams, state.active), original),
                scores,
            ),
            state.beams[original],
            plan.eos,
            lane_of(before, original),
        );
    }
}

/// What later sentences do leaves a sentence's output as it is.
proof fn output_is_settled(
    plan: SearchPlan,
    state: SearchState,
    scores: Seq<u32>,
    at: int,
    end: nat,
)
    requires
        sound(plan, state),
        0 <= at < end <= state.active.len(),
    ensures
        ({
            let original = state.active[at] as int;
            let early = progressed(plan, state, scores, (at + 1) as nat);
            let late = progressed(plan, state, scores, end);
            &&& late.next[original] == early.next[original]
            &&& late.completed[original] == early.completed[original]
        }),
    decreases end,
{
    if at + 1 < end {
        let original = state.active[at] as int;
        output_is_settled(plan, state, scores, at, (end - 1) as nat);
        assert(state.active[at] != state.active[end - 1]);
        assert(state.active[end - 1] < state.beams.len());
        assert(state.active[at] < state.beams.len());
        progress_keeps_completed(plan, state, scores, (end - 1) as nat, original);
    }
}

/// A step of the search takes one step of each active sentence: what comes out of
/// it for the sentence is what the sentence's own step makes.
proof fn sentence_takes_its_step(
    plan: SearchPlan,
    state: SearchState,
    scores: Seq<u32>,
    at: int,
) -> (start: Seq<HistoryNode>)
    requires
        sound(plan, state),
        0 <= at < state.active.len(),
        advanced(plan, state, scores).history.len() <= usize::MAX,
    ensures
        ({
            let original = state.active[at] as int;
            let next = advanced(plan, state, scores);
            let lane = step_at(
                plan,
                state,
                scores,
                at,
                Lane {
                    history: start,
                    completed: state.completed[original],
                    next: Seq::empty(),
                },
            );
            &&& grows(state.history, start)
            &&& grows(lane.history, next.history)
            &&& next.beams[original] == lane.next
            &&& next.completed[original] == lane.completed
        }),
{
    let original = state.active[at] as int;
    let before = progressed(plan, state, scores, at as nat);
    assert(state.active[at] < state.beams.len());
    progress_keeps_completed(plan, state, scores, at as nat, original);
    assert forall|k: int| 0 <= k < at implies #[trigger] state.active[k] != original by {
        assert(state.active[k] != state.active[at]);
    }
    assert(before.next[original] == Seq::<Hypothesis>::empty());
    progress_grows(plan, state, scores, 0, at as nat);
    progress_grows(plan, state, scores, (at + 1) as nat, state.active.len());
    output_is_settled(plan, state, scores, at, state.active.len());
    before.history
}

/// A hypothesis continues the one in a slot of a beam by a token of the
/// shortlist: its score is the one that the decoder gave for that token in the
/// decoder row of the slot, and its tokens are those of the continued hypothesis
/// and behind them the token, unless that is the end of the sentence.
pub open spec fn continues(
    plan: SearchPlan,
    state: SearchState,
    scores: Seq<u32>,
    after: SearchState,
    original: int,
    slot: int,
    at: int,
    made: Hypothesis,
) -> bool {
    let parent = state.beams[original][slot];
    let token = plan.shortlist@[at];
    let row = made.state_parent as int;
    &&& 0 <= slot < state.beams[original].len()
    &&& 0 <= at < plan.shortlist@.len()
    &&& Some(token) != plan.forbidden
    &&& row < all_rows(state.beams, state.active).len()
    &&& all_rows(state.beams, state.active)[row] == (slot as nat, original as usize)
    &&& made.score == scores[row * plan.shortlist@.len() + at]
    &&& made.length == parent.length + 1
    &&& made.finished == (token == plan.eos)
    &&& made.previous == if token == plan.eos {
        None
    } else {
        Some(token)
    }
    &&& tokens_to(after.history, made.history) == if token == plan.eos {
        tokens_to(state.history, parent.history)
    } else {
        tokens_to(state.history, parent.history).push(token)
    }
}

/// What holds before a step that a sentence takes with decoder scores.
pub open spec fn takes_step(
    plan: SearchPlan,
    state: SearchState,
    scores: Seq<u32>,
    at: int,
) -> bool {
    &&& sound(plan, state)
    &&& goes_on(plan, state)
    &&& fits_memory(state)
    &&& 0 <= at < state.active.len()
    &&& scores.len() == all_rows(state.beams, state.active).len() * plan.shortlist@.len()
    &&& advanced(plan, state, scores).history.len() <= usize::MAX
    &&& !(state.position == 0 && plan.empty_inputs@[state.active[at] as int])
}

/// The rows of a sentence lie inside the scores.
proof fn own_rows_have_scores(plan: SearchPlan, state: SearchState, scores: Seq<u32>, at: int)
    requires
        takes_step(plan, state, scores, at),
    ensures
        ({
            let original = state.active[at] as int;
            let all = all_rows(state.beams, state.active);
            let rows = rows_of(all, original);
            &&& 0 < rows.len() <= usize::MAX
            &&& rows.len() == state.beams[original].len()
            &&& forall|b: int|
                0 <= b < rows.len() ==> #[trigger] rows[b] < all.len() && all[rows[b] as int] == (
                    b as nat,
                    state.active[at],
                ) && (rows[b] + 1) * plan.shortlist@.len() <= scores.len()
        }),
{
    let original = state.active[at] as int;
    let all = all_rows(state.beams, state.active);
    let rows = rows_of(all, original);
    let vocab = plan.shortlist@.len() as int;
    crate::decoding::rows_track_beams(state.beams, state.active, at);
    assert(state.active[at] < state.beams.len());
    assert(state.beams[state.active[at] as int].len() > 0);
    assert forall|b: int| 0 <= b < rows.len() implies #[trigger] rows[b] < all.len()
        && all[rows[b] as int] == (b as nat, state.active[at]) && (rows[b] + 1) * vocab
        <= scores.len() by {
        let row = rows[b];
        assert((row + 1) * vocab <= all.len() * vocab) by (nonlinear_arith)
            requires
                row + 1 <= all.len(),
                vocab >= 0,
        ;
    }
}

/// What an expansion makes continues a hypothesis.
proof fn made_continues(
    plan: SearchPlan,
    state: SearchState,
    scores: Seq<u32>,
    at: int,
    start: Seq<HistoryNode>,
    out: Seq<HistoryNode>,
    expansion: Expansion,
    place: int,
    made: Hypothesis,
)
    requires
        takes_step(plan, state, scores, at),
        grows(state.history, start),
        grows(out, advanced(plan, state, scores).history),
        grows(start, out),
        expansion.parent < state.beams[state.active[at] as int].len(),
        expansion.parent_row == rows_of(
            all_rows(state.beams, state.active),
            state.active[at] as int,
        )[expansion.parent as int],
        0 <= place < plan.shortlist@.len(),
        plan.shortlist@[place] == expansion.token,
        Some(expansion.token) != plan.forbidden,
        expansion.score == scores[expansion.parent_row * plan.shortlist@.len() + place],
        is_made_by(
            expansion,
            state.beams[state.active[at] as int],
            plan.eos,
            out,
            start.len() as int,
            made,
        ),
    ensures
        continues(
            plan,
            state,
            scores,
            advanced(plan, state, scores),
            state.active[at] as int,
            expansion.parent as int,
            place,
            made,
        ),
{
    let original = state.active[at] as int;
    let next = advanced(plan, state, scores);
    let parent = state.beams[original][expansion.parent as int];
    own_rows_have_scores(plan, state, scores, at);
    steps_stay_sound(plan, state, scores);
    assert(state.active[at] < state.beams.len());
    assert(sound_live(state.history, state.position, parent));
    assert(grows(state.history, next.history)) by {
        assert forall|i: int| 0 <= i < state.history.len() implies #[trigger] next.history[i]
            == state.history[i] by {
            assert(start[i] == state.history[i]);
            assert(out[i] == start[i]);
        }
    }
    tokens_stay(state.history, next.history, parent.history);
    if expansion.token != plan.eos {
        let index = made.history->0;
        assert(next.history[index as int] == out[index as int]);
        crate::decoding::histories_end_with_their_token(next.history, index);
        let tokens = tokens_to(next.history, made.history);
        assert(tokens == tokens.drop_last().push(tokens.last()));
    }
}

/// A finished or an unfinished hypothesis of a sentence.
pub open spec fn hypothesis_at(
    state: SearchState,
    original: int,
    ended: bool,
    place: int,
) -> Hypothesis {
    if ended {
        state.completed[original][place]
    } else {
        state.beams[original][place]
    }
}

/// Every hypothesis that a sentence has after a step, and did not have before,
/// continues one that it had, in the row of that one.
pub proof fn new_hypotheses_continue_old_ones(
    plan: SearchPlan,
    state: SearchState,
    scores: Seq<u32>,
    at: int,
    place: int,
    ended: bool,
)
    requires
        takes_step(plan, state, scores, at),
        ended ==> state.completed[state.active[at] as int].len() <= place < advanced(
            plan,
            state,
            scores,
        ).completed[state.active[at] as int].len(),
        !ended ==> 0 <= place < advanced(plan, state, scores).beams[state.active[at] as int].len(),
    ensures
        ({
            let original = state.active[at] as int;
            let next = advanced(plan, state, scores);
            let made = hypothesis_at(next, original, ended, place);
            &&& made.finished == ended
            &&& exists|slot: int, token: int| #[trigger]
                continues(plan, state, scores, next, original, slot, token, made)
        }),
{
    let original = state.active[at] as int;
    let next = advanced(plan, state, scores);
    let beam = state.beams[original];
    let rows = rows_of(all_rows(state.beams, state.active), original);
    let list = chosen(plan, state.position, beam, rows, scores);
    let start = sentence_takes_its_step(plan, state, scores, at);
    let lane = Lane { history: start, completed: state.completed[original], next: Seq::empty() };
    let out = all_expanded(list, beam, plan.eos, lane);
    assert(out.history.len() <= usize::MAX);
    own_rows_have_scores(plan, state, scores, at);
    expansions_only_append(list, beam, plan.eos, lane);
    let k = made_hypotheses_have_expansions(list, beam, plan.eos, lane, place, ended);
    kept_expansions_follow_rows(plan, state.position, beam, rows, scores, k);
    let token = choose|token: int|
        0 <= token < plan.shortlist@.len() && #[trigger] plan.shortlist@[token] == list[k].token
            && list[k].score == scores[rows[list[k].parent as int] * plan.shortlist@.len() + token];
    let made = hypothesis_at(next, original, ended, place);
    made_continues(plan, state, scores, at, start, out.history, list[k], token, made);
}

/// A hypothesis came out of a step: it is unfinished, or it is finished and was
/// not before.
pub open spec fn comes_out(
    state: SearchState,
    after: SearchState,
    original: int,
    made: Hypothesis,
) -> bool {
    ||| after.beams[original].contains(made)
    ||| after.completed[original].skip(state.completed[original].len() as int).contains(made)
}

/// Number of hypotheses that came out of a step for a sentence.
pub open spec fn count_out(state: SearchState, after: SearchState, original: int) -> int {
    after.beams[original].len() + after.completed[original].len() - state.completed[original].len()
}

/// In a beam search, every hypothesis of a sentence and every allowed token
/// compete in a step, with the score that the decoder gave for that token in the
/// row of that hypothesis: the continued hypothesis comes out, or as many come
/// out as may and none of them ranks lower.
#[verifier::spinoff_prover]
#[verifier::rlimit(60)]
pub proof fn all_continuations_compete(
    plan: SearchPlan,
    state: SearchState,
    scores: Seq<u32>,
    at: int,
    slot: int,
    row: int,
    token: int,
)
    requires
        takes_step(plan, state, scores, at),
        plan.beam_size != 1,
        0 <= slot < state.beams[state.active[at] as int].len(),
        0 <= row < all_rows(state.beams, state.active).len(),
        all_rows(state.beams, state.active)[row] == (slot as nat, state.active[at]),
        0 <= token < plan.shortlist@.len(),
        Some(plan.shortlist@[token]) != plan.forbidden,
    ensures
        ({
            let original = state.active[at] as int;
            let next = advanced(plan, state, scores);
            let score = scores[row * plan.shortlist@.len() + token];
            let most = if state.position == 0 {
                plan.beam_size as nat
            } else {
                state.beams[original].len()
            };
            &&& count_out(state, next, original) <= most
            &&& (exists|made: Hypothesis| #[trigger]
                comes_out(state, next, original, made) && continues(
                    plan,
                    state,
                    scores,
                    next,
                    original,
                    slot,
                    token,
                    made,
                )) || (count_out(state, next, original) == most && forall|made: Hypothesis| #[trigger]
                comes_out(state, next, original, made) ==> total_rank(made.score) >= total_rank(
                    score,
                ))
        }),
{
    let original = state.active[at] as int;
    let next = advanced(plan, state, scores);
    let beam = state.beams[original];
    let all = all_rows(state.beams, state.active);
    let rows = rows_of(all, original);
    let list = chosen(plan, state.position, beam, rows, scores);
    let score = scores[row * plan.shortlist@.len() + token];
    let start = sentence_takes_its_step(plan, state, scores, at);
    let lane = Lane { history: start, completed: state.completed[original], next: Seq::empty() };
    let out = all_expanded(list, beam, plan.eos, lane);
    own_rows_have_scores(plan, state, scores, at);
    row_is_own(state.beams, state.active, at, slot, row);
    assert(rows[slot] == row);
    expansions_only_append(list, beam, plan.eos, lane);
    expansions_come_out(list, beam, plan.eos, lane, 0);
    all_expansions_compete(plan, state.position, beam, rows, scores, slot, token);
    let item = Expansion {
        parent: slot as usize,
        parent_row: rows[slot],
        token: plan.shortlist@[token],
        score,
    };
    if list.contains(item) {
        let k = choose|k: int| 0 <= k < list.len() && list[k] == item;
        expansions_come_out(list, beam, plan.eos, lane, k);
        ends_are_few(list, plan.eos, k as nat);
        let ends = ends_before(list, plan.eos, k as nat) as int;
        let behind = next.completed[original].skip(state.completed[original].len() as int);
        let made = if item.token == plan.eos {
            assert(behind[ends] == out.completed[lane.completed.len() + ends]);
            behind[ends]
        } else {
            out.next[k - ends]
        };
        made_continues(plan, state, scores, at, start, out.history, item, token, made);
        assert(comes_out(state, next, original, made));
    } else {
        assert forall|made: Hypothesis| #[trigger]
            comes_out(state, next, original, made) implies total_rank(made.score) >= total_rank(
            score,
        ) by {
            let done = state.completed[original].len() as int;
            if next.beams[original].contains(made) {
                let place = choose|place: int|
                    0 <= place < next.beams[original].len() && next.beams[original][place] == made;
                let k = made_hypotheses_have_expansions(list, beam, plan.eos, lane, place, false);
                assert(total_rank(list[k].score) >= total_rank(score));
            } else {
                let behind = next.completed[original].skip(done);
                let place = choose|place: int| 0 <= place < behind.len() && behind[place] == made;
                let k = made_hypotheses_have_expansions(
                    list,
                    beam,
                    plan.eos,
                    lane,
                    done + place,
                    true,
                );
                assert(total_rank(list[k].score) >= total_rank(score));
            }
        }
    }
}

proof fn ends_are_few(expansions: Seq<Expansion>, eos: TokenId, upto: nat)
    ensures
        ends_before(expansions, eos, upto) <= upto,
    decreases upto,
{
    if upto > 0 {
        ends_are_few(expansions, eos, (upto - 1) as nat);
    }
}

/// The row of a slot of a sentence is the one that the sentence has for it.
proof fn row_is_own(
    beams: Seq<Seq<Hypothesis>>,
    active: Seq<usize>,
    at: int,
    slot: int,
    row: int,
)
    requires
        listed_once(active),
        0 <= at < active.len(),
        all_rows(beams, active).len() <= usize::MAX,
        0 <= row < all_rows(beams, active).len(),
        all_rows(beams, active)[row] == (slot as nat, active[at]),
        0 <= slot,
    ensures
        slot < rows_of(all_rows(beams, active), active[at] as int).len(),
        rows_of(all_rows(beams, active), active[at] as int)[slot] == row,
{
    let all = all_rows(beams, active);
    let own = rows_of(all, active[at] as int);
    crate::decoding::rows_track_beams(beams, active, at);
    let b = row_is_listed(all, active[at] as int, row);
    assert(own[b] == row);
    assert(all[own[b] as int] == (b as nat, active[at]));
}

proof fn row_is_listed(rows: Seq<(nat, usize)>, original: int, row: int) -> (b: int)
    requires
        rows.len() <= usize::MAX,
        0 <= row < rows.len(),
        rows[row].1 == original,
    ensures
        0 <= b < rows_of(rows, original).len(),
        rows_of(rows, original)[b] == row,
    decreases rows.len(),
{
    if row < rows.len() - 1 {
        row_is_listed(rows.drop_last(), original, row)
    } else {
        rows_of(rows, original).len() - 1
    }
}

/// In a greedy step, a sentence goes on with one token, if any is allowed: its
/// hypothesis is continued by a token that no allowed token beats in the
/// sentence's own row.
#[verifier::spinoff_prover]
#[verifier::rlimit(60)]
pub proof fn greedy_continuations_are_best(
    plan: SearchPlan,
    state: SearchState,
    scores: Seq<u32>,
    at: int,
    row: int,
)
    requires
        takes_step(plan, state, scores, at),
        plan.beam_size == 1,
        0 <= row < all_rows(state.beams, state.active).len(),
        all_rows(state.beams, state.active)[row] == (0nat, state.active[at]),
        forall|token: int|
            0 <= token < plan.shortlist@.len() ==> !crate::ieee::nan(
                #[trigger] scores[row * plan.shortlist@.len() + token],
            ),
    ensures
        ({
            let original = state.active[at] as int;
            let next = advanced(plan, state, scores);
            let start = row * plan.shortlist@.len();
            &&& count_out(state, next, original) <= 1
            &&& count_out(state, next, original) == 0 <==> forall|token: int|
                0 <= token < plan.shortlist@.len() ==> Some(#[trigger] plan.shortlist@[token])
                    == plan.forbidden
            &&& forall|made: Hypothesis| #[trigger]
                comes_out(state, next, original, made) ==> {
                    &&& made.state_parent == row
                    &&& exists|token: int| #[trigger]
                        continues(plan, state, scores, next, original, 0, token, made)
                    &&& forall|token: int|
                        0 <= token < plan.shortlist@.len() && Some(
                            #[trigger] plan.shortlist@[token],
                        ) != plan.forbidden ==> !greater(scores[start + token], made.score)
                }
        }),
{
    let original = state.active[at] as int;
    let next = advanced(plan, state, scores);
    let beam = state.beams[original];
    let all = all_rows(state.beams, state.active);
    let rows = rows_of(all, original);
    let list = chosen(plan, state.position, beam, rows, scores);
    let start = sentence_takes_its_step(plan, state, scores, at);
    let lane = Lane { history: start, completed: state.completed[original], next: Seq::empty() };
    let out = all_expanded(list, beam, plan.eos, lane);
    own_rows_have_scores(plan, state, scores, at);
    row_is_own(state.beams, state.active, at, 0, row);
    assert(rows[0] == row);
    expansions_only_append(list, beam, plan.eos, lane);
    expansions_come_out(list, beam, plan.eos, lane, 0);
    greedy_steps_follow_own_rows(plan, state.position, beam, rows, scores);
    assert forall|made: Hypothesis| #[trigger] comes_out(state, next, original, made) implies {
        &&& made.state_parent == row
        &&& exists|token: int| #[trigger]
            continues(plan, state, scores, next, original, 0, token, made)
        &&& forall|token: int|
            0 <= token < plan.shortlist@.len() && Some(#[trigger] plan.shortlist@[token])
                != plan.forbidden ==> !greater(
                scores[row * plan.shortlist@.len() + token],
                made.score,
            )
    } by {
        let done = state.completed[original].len() as int;
        let k = if next.beams[original].contains(made) {
            let place = choose|place: int|
                0 <= place < next.beams[original].len() && next.beams[original][place] == made;
            made_hypotheses_have_expansions(list, beam, plan.eos, lane, place, false)
        } else {
            let behind = next.completed[original].skip(done);
            let place = choose|place: int| 0 <= place < behind.len() && behind[place] == made;
            made_hypotheses_have_expansions(list, beam, plan.eos, lane, done + place, true)
        };
        assert(k == 0);
        kept_expansions_follow_rows(plan, state.position, beam, rows, scores, 0);
        let token = choose|token: int|
            0 <= token < plan.shortlist@.len() && #[trigger] plan.shortlist@[token] == list[0].token
                && list[0].score == scores[rows[list[0].parent as int] * plan.shortlist@.len()
                + token];
        made_continues(plan, state, scores, at, start, out.history, list[0], token, made);
    }
}

/// A search starts with one hypothesis per sentence, without tokens and with the
/// score zero, and with every sentence to be decoded.
pub proof fn searches_start_empty(plan: SearchPlan, original: int)
    requires
        0 <= original < plan.empty_inputs@.len(),
    ensures
        ({
            let start = started(plan.empty_inputs@.len());
            let beam = start.beams[original];
            &&& start.position == 0
            &&& start.beams.len() == plan.empty_inputs@.len()
            &&& start.completed.len() == plan.empty_inputs@.len()
            &&& start.active.len() == plan.empty_inputs@.len()
            &&& start.active[original] == original
            &&& start.completed[original].len() == 0
            &&& beam.len() == 1
            &&& tokens_to(start.history, beam[0].history) == Seq::<TokenId>::empty()
            &&& beam[0].previous is None
            &&& beam[0].score == 0
            &&& beam[0].length == 0
            &&& !beam[0].finished
        }),
{
    assert(plan.empty_inputs.len() == plan.empty_inputs@.len());
}

/// A search goes on exactly as long as its limit is not reached and some sentence
/// has an unfinished hypothesis.
pub proof fn searches_go_on_with_live_hypotheses(plan: SearchPlan, state: SearchState)
    requires
        sound(plan, state),
    ensures
        goes_on(plan, state) <==> state.position < plan.max_len && exists|original: int|
            0 <= original < state.beams.len() && (#[trigger] state.beams[original]).len() > 0,
{
    if state.active.len() > 0 {
        assert(state.active[0] < state.beams.len());
        assert(state.beams[state.active[0] as int].len() > 0);
    }
    if exists|original: int|
        0 <= original < state.beams.len() && (#[trigger] state.beams[original]).len() > 0 {
        let original = choose|original: int|
            0 <= original < state.beams.len() && (#[trigger] state.beams[original]).len() > 0;
        assert(state.active.contains(original as usize));
    }
}

/// A step counts as one.
pub proof fn steps_are_counted(plan: SearchPlan, state: SearchState, scores: Seq<u32>)
    ensures
        advanced(plan, state, scores).position == state.position + 1,
{
}

/// All hypotheses of a sentence compete for its output: first the finished ones,
/// then the unfinished ones.
pub proof fn all_hypotheses_compete(state: SearchState, original: int, at: int)
    ensures
        competing(state, original).len() == state.completed[original].len()
            + state.beams[original].len(),
        0 <= at < state.completed[original].len() ==> competing(state, original)[at]
            == state.completed[original][at],
        0 <= at < state.beams[original].len() ==> competing(state, original)[
            state.completed[original].len() + at] == state.beams[original][at],
{
}

/// The output of a sentence is one of its hypotheses, with its tokens: the one
/// whose normalized score ranks highest, and the last of equal ones.
pub proof fn outputs_are_best_hypotheses(
    state: SearchState,
    original: int,
    normalized: Seq<u32>,
)
    requires
        normalized.len() > 0,
        normalized.len() == state.completed[original].len() + state.beams[original].len(),
    ensures
        exists|best: int|
            {
                let done = state.completed[original].len() as int;
                let output = output_of(state, original, normalized);
                &&& 0 <= best < normalized.len()
                &&& output.score == #[trigger] normalized[best]
                &&& forall|other: int|
                    0 <= other < normalized.len() ==> total_rank(#[trigger] normalized[other])
                        <= total_rank(normalized[best]) && (other > best ==> total_rank(
                        normalized[other],
                    ) < total_rank(normalized[best]))
                &&& best < done ==> output.finished == state.completed[original][best].finished
                    && output.tokens == tokens_to(
                    state.history,
                    state.completed[original][best].history,
                )
                &&& best >= done ==> output.finished == state.beams[original][best - done].finished
                    && output.tokens == tokens_to(
                    state.history,
                    state.beams[original][best - done].history,
                )
            },
{
    best_ranks_highest(normalized, normalized.len());
    let best = last_best(normalized, normalized.len());
    assert(output_of(state, original, normalized).score == normalized[best]);
}

/// Each row of the next step goes on from a row of the same sentence.
pub proof fn parents_stay_in_their_sentence(
    plan: SearchPlan,
    state: SearchState,
    scores: Seq<u32>,
    row: int,
)
    requires
        sound(plan, state),
        goes_on(plan, state),
        fits_memory(state),
        scores.len() == all_rows(state.beams, state.active).len() * plan.shortlist@.len(),
        advanced(plan, state, scores).history.len() <= usize::MAX,
        ({
            let next = advanced(plan, state, scores);
            0 <= row < all_rows(next.beams, next.active).len()
        }),
    ensures
        ({
            let next = advanced(plan, state, scores);
            let parent = parent_rows(next.beams, next.active)[row] as int;
            &&& 0 <= parent < all_rows(state.beams, state.active).len()
            &&& all_rows(state.beams, state.active)[parent].1 == all_rows(next.beams, next.active)[
                row].1
        }),
{
    let next = advanced(plan, state, scores);
    let (slot, original) = all_rows(next.beams, next.active)[row];
    crate::decoding::rows_belong_to_live_beams(next.beams, next.active, row);
    remaining_are_listed(state.active, next.beams);
    let k = choose|k: int| 0 <= k < next.active.len() && next.active[k] == original;
    assert(state.active.contains(next.active[k]));
    let at = choose|at: int| 0 <= at < state.active.len() && state.active[at] == original;
    assert(state.active[at] < state.beams.len());
    if state.position == 0 && plan.empty_inputs@[original as int] {
        first_step_of_empty_sentence(plan, state, scores, state.active.len(), original as int);
    }
    new_hypotheses_continue_old_ones(plan, state, scores, at, slot as int, false);
    let made = next.beams[original as int][slot as int];
    assert(made == hypothesis_at(next, original as int, false, slot as int));
}

/// An empty sentence is finished with one hypothesis, of score zero and of one
/// step.
pub proof fn empty_sentences_score_zero(plan: SearchPlan, scores: Seq<u32>, original: int)
    requires
        0 <= original < plan.empty_inputs@.len(),
        plan.empty_inputs@[original],
    ensures
        ({
            let state = advanced(plan, started(plan.empty_inputs@.len()), scores);
            &&& state.beams[original].len() == 0
            &&& state.completed[original].len() == 1
            &&& state.completed[original][0].score == 0
            &&& state.completed[original][0].length == 1
            &&& state.completed[original][0].finished
            &&& tokens_to(state.history, state.completed[original][0].history) == Seq::<
                TokenId,
            >::empty()
        }),
{
    let start = started(plan.empty_inputs@.len());
    starts_sound(plan);
    assert(plan.empty_inputs.len() == plan.empty_inputs@.len());
    assert(start.active[original] == original);
    first_step_of_empty_sentence(plan, start, scores, start.active.len(), original);
}

proof fn filtered_item(list: Seq<Expansion>, keeps: spec_fn(Expansion) -> bool, at: int)
    requires
        0 <= at < list.len(),
        keeps(list[at]),
    ensures
        list.take(at).filter(keeps).len() < list.filter(keeps).len(),
        list.filter(keeps)[list.take(at).filter(keeps).len() as int] == list[at],
    decreases list.len(),
{
    reveal(Seq::filter);
    let fewer = list.drop_last();
    if at == list.len() - 1 {
        assert(list.take(at) =~= fewer);
    } else {
        assert(fewer[at] == list[at]);
        assert(fewer.take(at) =~= list.take(at));
        filtered_item(fewer, keeps, at);
    }
}

proof fn filtered_items_have_places(
    list: Seq<Expansion>,
    keeps: spec_fn(Expansion) -> bool,
    k: int,
) -> (at: int)
    requires
        0 <= k < list.filter(keeps).len(),
    ensures
        0 <= at < list.len(),
        keeps(list[at]),
        list[at] == list.filter(keeps)[k],
        list.take(at).filter(keeps).len() == k,
    decreases list.len(),
{
    reveal(Seq::filter);
    let last = list.len() - 1;
    let fewer = list.drop_last();
    assert(list.take(last) =~= fewer);
    if k < fewer.filter(keeps).len() {
        let at = filtered_items_have_places(fewer, keeps, k);
        assert(fewer.take(at) =~= list.take(at));
        at
    } else {
        last
    }
}

proof fn filtering_grows(
    list: Seq<Expansion>,
    keeps: spec_fn(Expansion) -> bool,
    first: int,
    second: int,
)
    requires
        0 <= first <= second <= list.len(),
    ensures
        list.take(first).filter(keeps).len() <= list.take(second).filter(keeps).len(),
    decreases second - first,
{
    if first < second {
        filtering_grows(list, keeps, first, second - 1);
        reveal(Seq::filter);
        assert(list.take(second).drop_last() =~= list.take(second - 1));
    }
}

/// In a beam search, expansions that rank alike are kept in the order of their
/// hypotheses, and those of one hypothesis in the order of the shortlist.
#[verifier::spinoff_prover]
#[verifier::rlimit(60)]
pub proof fn kept_ties_keep_their_order(
    plan: SearchPlan,
    position: nat,
    beam: Seq<Hypothesis>,
    rows: Seq<usize>,
    scores: Seq<u32>,
    first: int,
    second: int,
)
    requires
        plan.beam_size != 1,
        beam.len() <= usize::MAX,
        rows.len() == beam.len(),
        0 <= first < second < chosen(plan, position, beam, rows, scores).len(),
        ({
            let kept = chosen(plan, position, beam, rows, scores);
            total_rank(kept[first].score) == total_rank(kept[second].score)
        }),
    ensures
        ({
            let kept = chosen(plan, position, beam, rows, scores);
            &&& kept[first].parent <= kept[second].parent
            &&& kept[first].parent == kept[second].parent ==> exists|a: int, b: int|
                0 <= a < b < plan.shortlist@.len() && #[trigger] plan.shortlist@[a]
                    == kept[first].token && #[trigger] plan.shortlist@[b] == kept[second].token
        }),
{
    let list = beam_expansions(plan, rows, scores, beam.len());
    let all = ranked(list);
    let of = total_rank(all[first].score);
    let same = |item: Expansion| total_rank(item.score) == of;
    crate::decoding::ranking_keeps_ties(list, of);
    assert(all.filter(same) == list.filter(same));
    filtered_item(all, same, first);
    filtered_item(all, same, second);
    filtering_grows(all, same, first + 1, second);
    filtered_item(all.take(first + 1), same, first);
    assert(all.take(first + 1).take(first) =~= all.take(first));
    let i = all.take(first).filter(same).len() as int;
    let j = all.take(second).filter(same).len() as int;
    assert(i < j);
    let left = filtered_items_have_places(list, same, i);
    let right = filtered_items_have_places(list, same, j);
    if right <= left {
        filtering_grows(list, same, right, left);
    }
    let one = beam_expansions_have_tokens(plan, rows, scores, beam.len(), left);
    let other = beam_expansions_have_tokens(plan, rows, scores, beam.len(), right);
    let each = allowed_before(plan, plan.shortlist@.len()) as int;
    allowed_counts_grow(plan, one.1 as nat, plan.shortlist@.len());
    allowed_counts_grow(plan, other.1 as nat, plan.shortlist@.len());
    if one.0 > other.0 {
        assert(one.0 * each >= other.0 * each + each) by (nonlinear_arith)
            requires
                one.0 >= other.0 + 1,
                each >= 0,
        ;
    }
    if one.0 == other.0 {
        if one.1 >= other.1 {
            allowed_counts_grow(plan, other.1 as nat, one.1 as nat);
        }
        assert(plan.shortlist@[one.1] == all[first].token);
        assert(plan.shortlist@[other.1] == all[second].token);
    }
}

proof fn allowed_counts_grow(plan: SearchPlan, at: nat, upto: nat)
    requires
        at <= upto,
    ensures
        allowed_before(plan, at) <= allowed_before(plan, upto),
        at < upto && Some(plan.shortlist@[at as int]) != plan.forbidden ==> allowed_before(plan, at)
            < allowed_before(plan, upto),
    decreases upto,
{
    if at < upto {
        allowed_counts_grow(plan, at, (upto - 1) as nat);
    }
}

proof fn ends_count(expansions: Seq<Expansion>, eos: TokenId, first: nat, second: nat)
    requires
        first <= second,
    ensures
        ends_before(expansions, eos, first) <= ends_before(expansions, eos, second),
        first - ends_before(expansions, eos, first) <= second - ends_before(
            expansions,
            eos,
            second,
        ),
    decreases second,
{
    if first < second {
        ends_count(expansions, eos, first, (second - 1) as nat);
    }
}

/// After a step of a beam search, the hypotheses of a sentence stand in order:
/// of two that came out unfinished, or of two that came out finished, the first
/// one ranks no lower.
#[verifier::spinoff_prover]
#[verifier::rlimit(60)]
pub proof fn new_hypotheses_are_ordered(
    plan: SearchPlan,
    state: SearchState,
    scores: Seq<u32>,
    at: int,
    ended: bool,
    first: int,
    second: int,
)
    requires
        takes_step(plan, state, scores, at),
        plan.beam_size != 1,
        ended ==> state.completed[state.active[at] as int].len() <= first < second < advanced(
            plan,
            state,
            scores,
        ).completed[state.active[at] as int].len(),
        !ended ==> 0 <= first < second < advanced(plan, state, scores).beams[
            state.active[at] as int].len(),
    ensures
        ({
            let original = state.active[at] as int;
            let next = advanced(plan, state, scores);
            total_rank(hypothesis_at(next, original, ended, first).score) >= total_rank(
                hypothesis_at(next, original, ended, second).score,
            )
        }),
{
    let original = state.active[at] as int;
    let next = advanced(plan, state, scores);
    let beam = state.beams[original];
    let rows = rows_of(all_rows(state.beams, state.active), original);
    let list = chosen(plan, state.position, beam, rows, scores);
    let start = sentence_takes_its_step(plan, state, scores, at);
    let lane = Lane { history: start, completed: state.completed[original], next: Seq::empty() };
    let out = all_expanded(list, beam, plan.eos, lane);
    own_rows_have_scores(plan, state, scores, at);
    expansions_only_append(list, beam, plan.eos, lane);
    let i = made_hypotheses_have_expansions(list, beam, plan.eos, lane, first, ended);
    let j = made_hypotheses_have_expansions(list, beam, plan.eos, lane, second, ended);
    if j <= i {
        ends_count(list, plan.eos, j as nat, i as nat);
    }
    kept_expansions_differ(plan, state.position, beam, rows, scores, i, j);
}

/// The contents of outputs and of a search are what they hold, each in its
/// place.
pub proof fn outputs_are_in_place(
    decoded: Seq<DecodedHypothesis>,
    search: BeamSearch,
    k: int,
    original: int,
)
    requires
        0 <= k < decoded.len(),
        0 <= original < search.beams@.len(),
        search.completed@.len() == search.beams@.len(),
    ensures
        outputs(decoded).len() == decoded.len(),
        outputs(decoded)[k].tokens == decoded[k].tokens@,
        outputs(decoded)[k].score == decoded[k].score,
        outputs(decoded)[k].finished == decoded[k].finished,
        search@.beams.len() == search.beams@.len(),
        search@.beams[original] == search.beams@[original]@,
        search@.completed.len() == search.completed@.len(),
        search@.completed[original] == search.completed@[original]@,
        search@.history == search.history@,
        search@.active == search.active@,
        search@.position == search.position,
{
}

/// A search comes out empty exactly where some sentence has neither a finished
/// nor an unfinished hypothesis.
pub proof fn empty_searches_lack_hypotheses(state: SearchState)
    ensures
        comes_out_empty(state) <==> exists|original: int|
            0 <= original < state.beams.len() && (#[trigger] state.beams[original]).len() == 0
                && state.completed[original].len() == 0,
{
    if exists|original: int|
        0 <= original < state.beams.len() && (#[trigger] state.beams[original]).len() == 0
            && state.completed[original].len() == 0 {
        let original = choose|original: int|
            0 <= original < state.beams.len() && (#[trigger] state.beams[original]).len() == 0
                && state.completed[original].len() == 0;
        assert(competing(state, original).len() == 0);
    }
    if comes_out_empty(state) {
        let original = choose|o: int|
            0 <= o < state.beams.len() && (#[trigger] competing(state, o)).len() == 0;
        assert(state.beams[original].len() == 0);
    }
}

/// Normalized scores are listed one for one, in order, and fit where each
/// sentence has as many as it has hypotheses.
pub proof fn scores_are_listed_in_order(normalized: Seq<Vec<u32>>, state: SearchState)
    ensures
        score_lists(normalized).len() == normalized.len(),
        forall|k: int|
            0 <= k < normalized.len() ==> #[trigger] score_lists(normalized)[k] == normalized[k]@,
        scores_fit(state, score_lists(normalized)) <==> normalized.len() == state.beams.len()
            && forall|k: int|
            0 <= k < normalized.len() ==> (#[trigger] normalized[k])@.len()
                == state.completed[k].len() + state.beams[k].len(),
{
    let lists = score_lists(normalized);
    if scores_fit(state, lists) {
        assert forall|k: int| 0 <= k < normalized.len() implies (#[trigger] normalized[k])@.len()
            == state.completed[k].len() + state.beams[k].len() by {
            assert(lists[k].len() == competing(state, k).len());
        }
    }
    if normalized.len() == state.beams.len() && (forall|k: int|
        0 <= k < normalized.len() ==> (#[trigger] normalized[k])@.len() == state.completed[k].len()
            + state.beams[k].len()) {
        assert forall|o: int| 0 <= o < lists.len() implies (#[trigger] lists[o]).len()
            == competing(state, o).len() by {
            assert(lists[o] == normalized[o]@);
        }
    }
}

} // verus!
