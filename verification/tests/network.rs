use linguaspark::inference::backend::{Linear, MatrixView, Scalar, plan_batch};
use linguaspark::inference::network::attention::{
    HeadLayout, all_valid, join_heads, plan_attention, valid_keys,
};
use linguaspark::inference::network::state::{
    DecoderState, check_decoder_batch, check_source_batch, to_sentence_major,
};
use linguaspark::inference::network::{Attention, FeedForward, LayerNorm, Ssru};

fn square_linear(dim: usize, values: Vec<i8>) -> Linear {
    let one = 1.0f32.to_bits();
    Linear::from_quantized("test", dim, dim, values, one, Scalar::Float(one), None).unwrap()
}

fn identity(dim: usize) -> Vec<i8> {
    let mut values = vec![0; dim * dim];
    for index in 0..dim {
        values[index * dim + index] = 1;
    }
    values
}

fn norm(dim: usize) -> LayerNorm {
    LayerNorm {
        dim,
        scale: vec![1.0f32.to_bits(); dim],
        bias: vec![0.0f32.to_bits(); dim],
    }
}

fn attention(dim: usize, heads: usize, queries: Vec<i8>, keys: Vec<i8>) -> Attention {
    Attention {
        dim,
        heads,
        head_dim: dim / heads,
        query: square_linear(dim, queries),
        key: square_linear(dim, keys),
        value: square_linear(dim, identity(dim)),
        output: square_linear(dim, identity(dim)),
        norm: norm(dim),
    }
}

fn self_attention(dim: usize, heads: usize) -> Attention {
    attention(dim, heads, vec![0; dim * dim], vec![0; dim * dim])
}

fn apply(linear: &Linear, input: &[f32]) -> Vec<f32> {
    let rows = linear.row_count(input.len()).unwrap();
    let shifted = input
        .iter()
        .map(|value| (value.round_ties_even().clamp(-127.0, 127.0) as i16 + 127) as u8)
        .collect::<Vec<_>>();
    linear
        .apply_int8(&shifted, rows)
        .unwrap()
        .iter()
        .map(|&value| value as f32)
        .collect()
}

fn multiply(lhs: &[MatrixView], left: &[f32], rhs: &[MatrixView], right: &[f32]) -> Vec<f32> {
    let plan = plan_batch(lhs, left.len(), rhs, right.len()).unwrap();
    let mut output = Vec::with_capacity(plan.output_len);
    for (a, b) in lhs.iter().zip(rhs) {
        for row in 0..a.rows {
            for col in 0..b.cols {
                output.push(
                    (0..a.cols)
                        .map(|k| {
                            left[a.offset + row * a.row_stride + k * a.col_stride]
                                * right[b.offset + k * b.row_stride + col * b.col_stride]
                        })
                        .sum(),
                );
            }
        }
    }
    assert_eq!(output.len(), plan.output_len);
    output
}

fn softmax(values: &mut [f32]) {
    let max = values.iter().copied().fold(f32::NEG_INFINITY, f32::max);
    let sum = values.iter().map(|value| (value - max).exp()).sum::<f32>();
    for value in values.iter_mut() {
        *value = (*value - max).exp() / sum;
    }
}

fn normalize(dim: usize, output: &[f32], residual: &[f32]) -> Vec<f32> {
    let mut result = output
        .iter()
        .zip(residual)
        .map(|(a, b)| a + b)
        .collect::<Vec<_>>();
    for row in result.chunks_exact_mut(dim) {
        let mean = row.iter().sum::<f32>() / dim as f32;
        let variance = row
            .iter()
            .map(|value| (value - mean) * (value - mean))
            .sum::<f32>()
            / dim as f32;
        for value in row.iter_mut() {
            *value = (*value - mean) / (variance + 1e-6).sqrt();
        }
    }
    result
}

struct Source<'a> {
    keys: &'a [f32],
    values: &'a [f32],
    mask: &'a [bool],
    batch_size: usize,
    width: usize,
}

fn attend(
    attention: &Attention,
    input: &[f32],
    contexts: &[usize],
    query_rows: usize,
    source: &Source<'_>,
) -> Vec<f32> {
    let layout = HeadLayout {
        dim: attention.dim,
        heads: attention.heads,
        head_dim: attention.head_dim,
    };
    let queries = apply(&attention.query, input);
    let plan = plan_attention(layout, contexts, source.batch_size, query_rows, source.width);
    let mut scores = multiply(&plan.queries, &queries, &plan.keys, source.keys);
    let scale = 1.0 / (attention.head_dim as f32).sqrt();
    let group_len = query_rows * source.width;
    for (group, scores) in scores.chunks_exact_mut(group_len).enumerate() {
        let context = contexts[group / attention.heads];
        let valid = valid_keys(source.mask, source.batch_size, context, source.width);
        for row in scores.chunks_exact_mut(source.width) {
            for (score, valid) in row.iter_mut().zip(&valid) {
                *score = if *valid { *score * scale } else { -99_999_999.0 };
            }
            softmax(row);
        }
    }
    let attended = multiply(&plan.scores, &scores, &plan.values, source.values);
    let joined = join_heads(&attended, layout, contexts.len(), query_rows);
    normalize(attention.dim, &apply(&attention.output, &joined), input)
}

fn attend_self(
    attention: &Attention,
    input: &[f32],
    batch_size: usize,
    width: usize,
    mask: &[bool],
) -> Vec<f32> {
    let keys = apply(&attention.key, input);
    let values = apply(&attention.value, input);
    let contexts = (0..batch_size).collect::<Vec<_>>();
    let source = Source {
        keys: &keys,
        values: &values,
        mask,
        batch_size,
        width,
    };
    attend(attention, input, &contexts, width, &source)
}

#[test]
fn self_attention_isolates_batches_and_respects_time_major_mask() {
    let attention = self_attention(2, 1);
    let input = [
        2.0, 0.0, 0.0, 2.0, // batch 0
        0.0, 4.0, 4.0, 0.0, // batch 1
    ];
    let output = attend_self(
        &attention,
        &input,
        2,
        2,
        &[true, true, false, true], // time-major mask
    );
    let expected = [[1.0, -1.0], [0.0, 0.0], [-1.0, 1.0], [1.0, -1.0]];
    for (actual, expected) in output.chunks_exact(2).zip(expected) {
        for (actual, expected) in actual.iter().zip(expected) {
            assert!((actual - expected).abs() < 1e-5, "{actual} != {expected}");
        }
    }
}

#[test]
fn self_attention_rejoins_multiple_heads_in_order() {
    let attention = self_attention(4, 2);
    let output = attend_self(&attention, &[1.0, 2.0, 3.0, 4.0], 1, 1, &[true]);
    let expected = [-1.341_640_7, -0.447_213_6, 0.447_213_6, 1.341_640_7];
    for (actual, expected) in output.iter().zip(expected) {
        assert!((actual - expected).abs() < 1e-5, "{actual} != {expected}");
    }
}

#[test]
fn cross_attention_maps_source_rows_across_beams() {
    let attention = attention(2, 1, identity(2), identity(2));
    let source = Source {
        keys: &[0.0; 8],
        values: &[2.0, 0.0, 2.0, 0.0, 0.0, 4.0, 0.0, 4.0],
        mask: &[true; 4],
        batch_size: 2,
        width: 2,
    };
    let output = attend(&attention, &[0.0; 8], &[1, 0, 1, 0], 1, &source);
    for (actual, expected) in
        output
            .chunks_exact(2)
            .zip([[-1.0, 1.0], [1.0, -1.0], [-1.0, 1.0], [1.0, -1.0]])
    {
        assert!((actual[0] - expected[0]).abs() < 1e-5);
        assert!((actual[1] - expected[1]).abs() < 1e-5);
    }
}

#[test]
fn cross_attention_respects_time_major_mask() {
    let attention = attention(2, 1, identity(2), identity(2));
    let source = Source {
        keys: &[0.0; 8],
        values: &[
            3.0, 0.0, 0.0, 9.0, // batch 0: only the first row is valid
            8.0, 0.0, 0.0, 4.0, // batch 1: both rows are valid
        ],
        // [time 0: batch 0, batch 1, time 1: batch 0, batch 1]
        mask: &[true, true, false, true],
        batch_size: 2,
        width: 2,
    };
    let output = attend(&attention, &[0.0; 4], &[0, 1], 1, &source);
    assert!((output[0] - 1.0).abs() < 1e-5);
    assert!((output[1] + 1.0).abs() < 1e-5);
    assert!((output[2] - 1.0).abs() < 1e-5);
    assert!((output[3] + 1.0).abs() < 1e-5);
}

#[test]
fn attention_views_address_their_heads() {
    let layout = HeadLayout {
        dim: 6,
        heads: 2,
        head_dim: 3,
    };
    let plan = plan_attention(layout, &[1, 0], 2, 1, 4);
    assert_eq!(plan.queries.len(), 4);
    let offsets = |views: &[MatrixView]| views.iter().map(|view| view.offset).collect::<Vec<_>>();
    assert_eq!(offsets(&plan.queries), [0, 3, 6, 9]);
    assert_eq!(offsets(&plan.keys), [24, 27, 0, 3]);
    assert_eq!(offsets(&plan.values), [24, 27, 0, 3]);
    assert_eq!(offsets(&plan.scores), [0, 4, 8, 12]);
    assert_eq!((plan.keys[0].rows, plan.keys[0].cols), (3, 4));
    assert_eq!((plan.keys[0].row_stride, plan.keys[0].col_stride), (1, 6));
    assert_eq!((plan.values[0].rows, plan.values[0].cols), (4, 3));
}

#[test]
fn masks_are_read_position_by_position() {
    let mask = [true, true, false, true];
    assert_eq!(valid_keys(&mask, 2, 0, 2), [true, false]);
    assert_eq!(valid_keys(&mask, 2, 1, 2), [true, true]);
    assert!(!all_valid(&mask));
    assert!(all_valid(&[true, true]));
    assert!(all_valid(&[]));
}

#[test]
fn selects_parent_rows_across_all_layers() {
    let state = DecoderState {
        cells: vec![
            vec![0.0, 1.0, 10.0, 11.0, 20.0, 21.0],
            vec![100.0, 101.0, 110.0, 111.0, 120.0, 121.0],
        ],
    };
    let selected = state.select(&[2, 0, 2], 2);
    assert_eq!(selected.cells[0], [20.0, 21.0, 0.0, 1.0, 20.0, 21.0]);
    assert_eq!(
        selected.cells[1],
        [120.0, 121.0, 100.0, 101.0, 120.0, 121.0]
    );
}

#[test]
fn decoder_states_start_out_uniform() {
    let state = DecoderState::new(2, 3, 2, 0.5f32);
    assert_eq!(state.cells, [vec![0.5; 6], vec![0.5; 6]]);
    assert_eq!(state.select(&[0, 1, 2], 2).cells[0], [0.5; 6]);
}

#[test]
fn sentences_become_contiguous() {
    // Two sentences of three positions, one number each.
    assert_eq!(
        to_sentence_major(&[1, 10, 2, 20, 3, 30], 2, 3, 1),
        [1, 2, 3, 10, 20, 30]
    );
    assert_eq!(
        to_sentence_major(&[1, 2, 10, 20], 2, 1, 2),
        [1, 2, 10, 20]
    );
}

#[test]
fn batch_dimensions_are_checked() {
    check_source_batch(6, 6, 2, 3).unwrap();
    assert_eq!(
        check_source_batch(5, 5, 2, 3).unwrap_err().sentence(),
        "translation failed: invalid source batch dimensions"
    );
    assert!(check_source_batch(6, 5, 2, 3).is_err());
    assert!(check_source_batch(0, 0, usize::MAX, 2).is_err());
    check_decoder_batch(4, 4).unwrap();
    assert_eq!(
        check_decoder_batch(3, 4).unwrap_err().sentence(),
        "translation failed: invalid decoder batch dimensions"
    );
}

#[test]
fn layer_inputs_are_checked() {
    norm(2).check_input(4, 4).unwrap();
    assert_eq!(
        norm(2).check_input(4, 2).unwrap_err().sentence(),
        "translation failed: invalid layer norm input shape"
    );
    assert!(norm(2).check_input(3, 3).is_err());
    let ssru = Ssru {
        dim: 2,
        candidate: square_linear(2, identity(2)),
        forget: square_linear(2, vec![0; 4]),
        norm: norm(2),
    };
    ssru.check_cell(4, 4).unwrap();
    assert_eq!(
        ssru.check_cell(2, 4).unwrap_err().sentence(),
        "translation failed: SSRU cell has an invalid dimension"
    );
    assert!(ssru.check_cell(3, 3).is_err());
}

#[test]
fn only_inner_layers_rectify() {
    let ffn = FeedForward {
        layers: vec![square_linear(2, identity(2)), square_linear(2, identity(2))],
        norm: norm(2),
    };
    assert!(ffn.rectifies(0));
    assert!(!ffn.rectifies(1));
}
