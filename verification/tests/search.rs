use linguaspark::decoding::search::{BeamSearch, DecodedHypothesis, SearchPlan};

fn bits(values: &[f32]) -> Vec<u32> {
    values.iter().map(|value| value.to_bits()).collect()
}

fn plan(beam_size: usize, max_len: usize, empty_inputs: Vec<bool>) -> SearchPlan {
    SearchPlan {
        shortlist: vec![0, 5, 6],
        forbidden: None,
        eos: 0,
        empty_inputs,
        max_len,
        beam_size,
    }
}

/// Scores of every row, given the log probabilities of the shortlisted tokens.
fn cumulative(search: &BeamSearch, rows: &[[f32; 3]]) -> Vec<u32> {
    let parents = search.parent_scores();
    assert_eq!(parents.len(), rows.len());
    parents
        .iter()
        .zip(rows)
        .flat_map(|(&parent, row)| row.map(|value| (f32::from_bits(parent) + value).to_bits()))
        .collect()
}

/// Picks outputs by their scores, without normalization.
fn finish(search: &BeamSearch, batch_size: usize) -> Vec<DecodedHypothesis> {
    let normalized = (0..batch_size)
        .map(|original| {
            search
                .candidates(original)
                .into_iter()
                .map(|(score, _)| score)
                .collect::<Vec<_>>()
        })
        .collect::<Vec<_>>();
    search.finish(&normalized).unwrap()
}

#[test]
fn greedy_search_follows_the_best_token() {
    let mut search = BeamSearch::new(plan(1, 10, vec![false]));
    let rows = search.next_rows().unwrap();
    assert_eq!(rows.previous, [None]);
    assert_eq!(rows.source_indices, [0]);
    let scores = cumulative(&search, &[[-3.0, -1.0, -2.0]]);
    assert_eq!(search.advance(&scores), Some(vec![0]));

    assert_eq!(search.next_rows().unwrap().previous, [Some(5)]);
    let scores = cumulative(&search, &[[-3.0, -2.0, -0.5]]);
    assert_eq!(search.advance(&scores), Some(vec![0]));

    let scores = cumulative(&search, &[[-0.25, -2.0, -0.5]]);
    assert_eq!(search.advance(&scores), None);
    assert!(search.next_rows().is_none());

    let outputs = finish(&search, 1);
    assert_eq!(outputs[0].tokens, [5, 6]);
    assert!(outputs[0].finished);
    assert_eq!(f32::from_bits(outputs[0].score), -1.75);
}

#[test]
fn forbidden_tokens_are_never_chosen() {
    let mut plan = plan(1, 1, vec![false]);
    plan.forbidden = Some(5);
    let mut search = BeamSearch::new(plan);
    let scores = cumulative(&search, &[[-3.0, -1.0, -2.0]]);
    assert_eq!(search.advance(&scores), None);
    let outputs = finish(&search, 1);
    assert_eq!(outputs[0].tokens, [6]);
    assert!(!outputs[0].finished);
}

#[test]
fn empty_sentences_stay_empty() {
    let mut search = BeamSearch::new(plan(2, 3, vec![true, false]));
    assert_eq!(search.next_rows().unwrap().source_indices, [0, 1]);
    let scores = cumulative(&search, &[[-5.0, -0.1, -0.2], [-0.1, -5.0, -6.0]]);
    // Sentence 1 keeps its two best expansions, of which one has ended.
    assert_eq!(search.advance(&scores), Some(vec![1]));
    let scores = cumulative(&search, &[[-0.1, -5.0, -6.0]]);
    assert_eq!(search.advance(&scores), None);
    let outputs = finish(&search, 2);
    assert!(outputs[0].tokens.is_empty());
    assert!(outputs[0].finished);
    assert_eq!(f32::from_bits(outputs[0].score), 0.0);
    assert!(outputs[1].tokens.is_empty());
    assert!(outputs[1].finished);
}

#[test]
fn beams_keep_the_best_continuations() {
    let mut search = BeamSearch::new(plan(2, 4, vec![false]));
    let scores = cumulative(&search, &[[-9.0, -1.0, -2.0]]);
    assert_eq!(search.advance(&scores), Some(vec![0, 0]));
    let rows = search.next_rows().unwrap();
    assert_eq!(rows.previous, [Some(5), Some(6)]);
    assert_eq!(rows.beam_rows, [vec![0, 1]]);

    // Both survivors continue the second hypothesis.
    let scores = cumulative(&search, &[[-9.0, -8.0, -7.0], [-9.0, -0.5, -0.25]]);
    assert_eq!(search.advance(&scores), Some(vec![1, 1]));
    assert_eq!(search.next_rows().unwrap().previous, [Some(6), Some(5)]);

    // One hypothesis ends, so that the beam narrows.
    let scores = cumulative(&search, &[[-0.25, -8.0, -7.0], [-9.0, -0.25, -9.0]]);
    assert_eq!(search.advance(&scores), Some(vec![1]));
    assert_eq!(search.next_rows().unwrap().previous, [Some(5)]);

    let scores = cumulative(&search, &[[-9.0, -3.0, -9.0]]);
    assert_eq!(search.advance(&scores), None);
    let outputs = finish(&search, 1);
    assert_eq!(outputs[0].tokens, [6, 6]);
    assert!(outputs[0].finished);
    assert_eq!(f32::from_bits(outputs[0].score), -2.5);
}

#[test]
fn normalized_scores_decide_and_the_last_tie_wins() {
    let mut search = BeamSearch::new(plan(2, 2, vec![false]));
    let scores = cumulative(&search, &[[-1.0, -2.0, -9.0]]);
    assert_eq!(search.advance(&scores), Some(vec![0]));
    let scores = cumulative(&search, &[[-9.0, -1.0, -8.0]]);
    assert_eq!(search.advance(&scores), None);
    let candidates = search.candidates(0);
    assert_eq!(
        candidates,
        [((-1.0f32).to_bits(), 1), ((-3.0f32).to_bits(), 2)]
    );
    let outputs = search.finish(&[bits(&[-1.5, -1.5])]).unwrap();
    assert_eq!(outputs[0].tokens, [5, 5]);
    assert!(!outputs[0].finished);
    let outputs = search.finish(&[bits(&[-1.25, -1.5])]).unwrap();
    assert!(outputs[0].tokens.is_empty());
    assert!(outputs[0].finished);
}

#[test]
fn searches_without_candidates_fail() {
    let mut plan = plan(1, 3, vec![false]);
    plan.shortlist = vec![5];
    plan.forbidden = Some(5);
    let mut search = BeamSearch::new(plan);
    assert_eq!(search.advance(&bits(&[-1.0])), None);
    assert!(search.candidates(0).is_empty());
    assert_eq!(
        search.finish(&[vec![]]).unwrap_err().sentence(),
        "translation failed: beam search returned no result"
    );
}

#[test]
fn searches_without_steps_return_the_blank_hypothesis() {
    let search = BeamSearch::new(plan(1, 0, vec![false]));
    assert!(search.next_rows().is_none());
    let outputs = finish(&search, 1);
    assert!(outputs[0].tokens.is_empty());
    assert!(!outputs[0].finished);
}

#[test]
fn beams_never_outgrow_their_size() {
    for beam_size in 1..4 {
        let mut search = BeamSearch::new(plan(beam_size, 5, vec![false, false]));
        let mut steps = 0;
        while let Some(rows) = search.next_rows() {
            assert!(search.beams.iter().all(|beam| beam.len() <= beam_size));
            let scores = cumulative(&search, &vec![[-2.0, -1.0, -1.5]; rows.previous.len()]);
            search.advance(&scores);
            steps += 1;
        }
        assert_eq!(steps, 5);
        for output in finish(&search, 2) {
            if !output.finished {
                assert_eq!(output.tokens.len(), 5);
            }
            assert!(output.tokens.iter().all(|token| [5, 6].contains(token)));
        }
    }
}
