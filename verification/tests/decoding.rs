use linguaspark::decoding::{
    Expansion, HistoryNode, Hypothesis, active_sentences, beam_width, compact_decode_rows,
    is_allowed, materialize_history, next_beam_limit, parent_state_rows, push_expansion,
    retain_top_k, select_greedy,
};

fn cumulative(log_probs: &[f32], parent_score: f32) -> Vec<u32> {
    log_probs
        .iter()
        .map(|log_prob| (parent_score + log_prob).to_bits())
        .collect()
}

fn greedy(
    log_probs: &[f32],
    shortlist: &[u32],
    forbidden: Option<u32>,
    parent_score: f32,
) -> Option<(u32, f32)> {
    select_greedy(&cumulative(log_probs, parent_score), shortlist, forbidden)
        .map(|(token, score)| (token, f32::from_bits(score)))
}

fn expansion(token: u32, score: f32) -> Expansion {
    Expansion {
        parent: 0,
        parent_row: 0,
        token,
        score: score.to_bits(),
    }
}

fn tokens(expansions: &[Expansion]) -> Vec<u32> {
    expansions.iter().map(|item| item.token).collect()
}

#[test]
fn materializes_parent_linked_history() {
    let history = vec![
        HistoryNode {
            parent: None,
            token: 10,
        },
        HistoryNode {
            parent: Some(0),
            token: 20,
        },
        HistoryNode {
            parent: Some(1),
            token: 30,
        },
    ];
    assert_eq!(materialize_history(&history, Some(2)), [10, 20, 30]);
    assert!(materialize_history(&history, None).is_empty());
}

#[test]
fn greedy_selects_the_best_allowed_cumulative_score() {
    assert_eq!(
        greedy(&[-3.0, -1.0, -2.0], &[10, 20, 30], Some(20), -4.0),
        Some((30, -6.0))
    );
}

#[test]
fn greedy_keeps_the_first_candidate_when_cumulative_scores_tie() {
    assert_eq!(
        greedy(&[-2.0, -1.0], &[10, 20], None, -33_554_432.0),
        Some((10, -33_554_432.0))
    );
}

#[test]
fn greedy_returns_none_without_an_allowed_candidate() {
    assert_eq!(greedy(&[-1.0], &[10], Some(10), 0.0), None);
}

#[test]
fn greedy_keeps_a_leading_nan() {
    let (token, score) = greedy(&[f32::NAN, -1.0], &[10, 20], None, 0.0).unwrap();
    assert_eq!(token, 10);
    assert!(score.is_nan());
    let (token, _) = greedy(&[-1.0, f32::NAN, -0.5], &[10, 20, 30], None, 0.0).unwrap();
    assert_eq!(token, 30);
}

#[test]
fn top_k_keeps_best_expansions_in_order() {
    let mut expansions = vec![
        Expansion {
            parent: 0,
            parent_row: 0,
            token: 1,
            score: (-3.0f32).to_bits(),
        },
        Expansion {
            parent: 1,
            parent_row: 1,
            token: 2,
            score: (-1.0f32).to_bits(),
        },
        Expansion {
            parent: 0,
            parent_row: 0,
            token: 3,
            score: (-2.0f32).to_bits(),
        },
    ];
    retain_top_k(&mut expansions, 2);
    assert_eq!(
        expansions.iter().map(|item| item.token).collect::<Vec<_>>(),
        [2, 3]
    );
}

#[test]
fn top_k_follows_the_total_order() {
    let mut expansions = vec![
        expansion(1, -0.0),
        expansion(2, f32::NEG_INFINITY),
        expansion(3, 0.0),
        expansion(4, f32::NAN),
    ];
    retain_top_k(&mut expansions, 10);
    assert_eq!(tokens(&expansions), [4, 3, 1, 2]);
    retain_top_k(&mut expansions, 0);
    assert!(expansions.is_empty());
}

#[test]
fn beam_can_expand_only_on_the_first_step() {
    assert_eq!(next_beam_limit(0, 1, 5), 5);
    assert_eq!(next_beam_limit(1, 3, 5), 3);
    assert_eq!(next_beam_limit(4, 1, 5), 1);
}

#[test]
fn compacts_finished_sentences_and_builds_beam_major_parent_rows() {
    let make = |state_parent| Hypothesis {
        history: None,
        previous: Some(1),
        score: 0.0f32.to_bits(),
        length: 1,
        finished: false,
        state_parent,
    };
    let beams = vec![
        vec![make(10), make(20)],
        Vec::new(),
        vec![make(12)],
        vec![make(13), make(23), make(33)],
    ];
    let active = active_sentences(&[0, 1, 2, 3], &beams);
    assert_eq!(active, [0, 2, 3]);
    // Beam-major, skipping missing beam slots.
    assert_eq!(parent_state_rows(&beams, &active), [10, 12, 13, 20, 23, 33]);
}

#[test]
fn packs_only_live_beams_and_tracks_their_rows() {
    let make = |token| Hypothesis {
        history: None,
        previous: Some(token),
        score: 0.0f32.to_bits(),
        length: 1,
        finished: false,
        state_parent: 0,
    };
    let beams = vec![
        vec![make(10), make(20)],
        Vec::new(),
        vec![make(12)],
        vec![make(13), make(23), make(33)],
    ];
    let rows = compact_decode_rows(&beams, &[0, 2, 3], 3);
    assert_eq!(
        rows.previous,
        [Some(10), Some(12), Some(13), Some(20), Some(23), Some(33)]
    );
    assert_eq!(rows.source_indices, [0, 2, 3, 0, 3, 3]);
    assert_eq!(rows.beam_rows, [vec![0, 3], vec![], vec![1], vec![2, 4, 5]]);
    assert_eq!(beam_width(&[0, 2, 3], &beams), 3);
    assert_eq!(beam_width(&[2], &beams), 1);
    assert_eq!(beam_width(&[], &beams), 0);
}

#[test]
fn forbidden_tokens_are_not_allowed() {
    assert!(is_allowed(3, None));
    assert!(is_allowed(3, Some(4)));
    assert!(!is_allowed(3, Some(3)));
}

#[test]
fn expansions_extend_or_finish_their_parent() {
    let parent = Hypothesis {
        history: Some(0),
        previous: Some(7),
        score: (-1.0f32).to_bits(),
        length: 1,
        finished: false,
        state_parent: 4,
    };
    let mut history = vec![HistoryNode {
        parent: None,
        token: 7,
    }];
    let mut completed = Vec::new();
    let mut next = Vec::new();
    let grown = Expansion {
        parent: 0,
        parent_row: 5,
        token: 8,
        score: (-2.0f32).to_bits(),
    };
    push_expansion(grown, &[parent], 0, &mut history, &mut completed, &mut next);
    assert!(completed.is_empty());
    assert_eq!(next.len(), 1);
    assert_eq!(next[0].history, Some(1));
    assert_eq!(next[0].previous, Some(8));
    assert_eq!(next[0].length, 2);
    assert_eq!(next[0].state_parent, 5);
    assert_eq!(materialize_history(&history, next[0].history), [7, 8]);

    let ended = Expansion { token: 0, ..grown };
    push_expansion(ended, &[parent], 0, &mut history, &mut completed, &mut next);
    assert_eq!(next.len(), 1);
    assert_eq!(history.len(), 2);
    assert_eq!(completed.len(), 1);
    assert!(completed[0].finished);
    assert_eq!(completed[0].previous, None);
    assert_eq!(materialize_history(&history, completed[0].history), [7]);
}
