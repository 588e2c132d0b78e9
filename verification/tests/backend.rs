use linguaspark::inference::backend::{
    Linear, MatrixView, Scalar, clamp_shifted, finish_product, plan_batch,
};
use linguaspark::model::binary::{Tensor, TensorData};

fn bits(values: &[f32]) -> Vec<u32> {
    values.iter().map(|value| value.to_bits()).collect()
}

fn float(value: f32) -> Scalar {
    Scalar::Float(value.to_bits())
}

fn number(scalar: Scalar) -> f32 {
    match scalar {
        Scalar::Float(bits) => f32::from_bits(bits),
        Scalar::Ratio { value, multiplier } => f32::from(value) / f32::from_bits(multiplier),
    }
}

fn tensor(shape: [usize; 2], values: Vec<i8>, multiplier: f32) -> Tensor {
    Tensor {
        name: "test_weight".into(),
        shape: shape.to_vec(),
        data: TensorData::QuantizedI8 {
            values,
            multiplier: multiplier.to_bits(),
        },
    }
}

fn quantize_marian_shift(value: f32, multiplier: f32) -> u8 {
    let signed = (value * multiplier).round_ties_even().clamp(-127.0, 127.0) as i16;
    (signed + 127) as u8
}

fn apply(linear: &Linear, input: &[f32]) -> Vec<f32> {
    let rows = linear.row_count(input.len()).unwrap();
    let activation = number(linear.activation_multiplier());
    let mut shifted = input
        .iter()
        .map(|&value| quantize_marian_shift(value, activation))
        .collect::<Vec<_>>();
    clamp_shifted(&mut shifted);
    let scale = 1.0 / (activation * f32::from_bits(linear.weight_multiplier()));
    let outputs = linear.shape().1;
    linear
        .apply_int8(&shifted, rows)
        .unwrap()
        .iter()
        .enumerate()
        .map(|(index, &value)| {
            value as f32 * scale + f32::from_bits(linear.bias()[index % outputs])
        })
        .collect()
}

fn assert_close(actual: &[f32], expected: &[f32]) {
    assert_eq!(actual.len(), expected.len());
    for (actual, expected) in actual.iter().zip(expected) {
        assert!((actual - expected).abs() < 1e-5, "{actual} != {expected}");
    }
}

fn refusal(linear: Result<Linear, linguaspark::LoadError>) -> String {
    match linear {
        Ok(_) => panic!("expected a refusal"),
        Err(error) => error.sentence(),
    }
}

#[test]
fn linear_rejects_invalid_rank() {
    let mut tensor = tensor([2, 2], vec![1; 4], 1.0);
    tensor.shape = vec![4];
    assert!(Linear::compile(tensor, None, float(1.0)).is_err());
}

#[test]
fn linear_rejects_invalid_activation_multiplier_and_bias() {
    assert!(Linear::compile(tensor([2, 2], vec![1; 4], 1.0), None, float(0.0)).is_err());
    assert!(
        Linear::compile(
            tensor([2, 2], vec![1; 4], 1.0),
            Some(bits(&[0.0])),
            float(1.0)
        )
        .is_err()
    );
}

#[test]
fn linear_applies_single_row_with_bias() {
    // Marian stores the two output columns physically as [N, K].
    let linear = Linear::compile(
        tensor([2, 2], vec![3, 4, -1, 2], 1.0),
        Some(bits(&[0.5, -0.5])),
        float(1.0),
    )
    .unwrap();
    assert_close(&apply(&linear, &[1.0, 2.0]), &[11.5, 2.5]);
}

#[test]
fn linear_applies_multiple_rows() {
    let linear = Linear::compile(tensor([2, 2], vec![3, 4, -1, 2], 1.0), None, float(1.0)).unwrap();
    assert_close(
        &apply(&linear, &[1.0, 2.0, -2.0, 1.0]),
        &[11.0, 3.0, -2.0, 4.0],
    );
}

#[test]
fn linear_matches_quantized_reference() {
    let weights = [2i8, -3, 4, 1];
    let linear = Linear::compile(tensor([2, 2], weights.to_vec(), 2.0), None, float(4.0)).unwrap();
    let input = [0.5, -0.25];
    let quantized = input.map(|value| i32::from(quantize_marian_shift(value, 4.0)) - 127);
    let expected = [
        (quantized[0] * 2 + quantized[1] * -3) as f32 / 8.0,
        (quantized[0] * 4 + quantized[1]) as f32 / 8.0,
    ];
    assert_close(&apply(&linear, &input), &expected);
}

#[test]
fn products_take_the_shift_back() {
    let linear =
        Linear::from_quantized("w", 3, 2, vec![1, 2, 3, -4, 5, -6], 1.0f32.to_bits(), float(1.0), None)
            .unwrap();
    assert_eq!(linear.shape(), (3, 2));
    assert_eq!(
        linear.apply_int8(&[127, 128, 254, 0, 126, 127], 2).unwrap(),
        [2 + 3 * 127, 5 - 6 * 127, -127 - 2, 4 * 127 - 5]
    );
}

#[test]
fn linear_refusals_say_what_is_wrong() {
    let prefix = "invalid Marian model: linear weight";
    let make = |count: usize, weight: f32, activation: f32, bias| {
        Linear::from_quantized(
            "w",
            2,
            2,
            vec![1; count],
            weight.to_bits(),
            float(activation),
            bias,
        )
    };
    assert_eq!(
        refusal(make(3, 1.0, 1.0, None)),
        format!("{prefix} w has 3 values, expected 4")
    );
    for unusable in [0.0f32, -2.5, f32::NEG_INFINITY, f32::NAN] {
        assert_eq!(
            refusal(make(4, unusable, 1.0, None)),
            format!("{prefix} w has invalid weight multiplier {unusable}")
        );
        assert_eq!(
            refusal(make(4, 1.0, unusable, None)),
            format!("{prefix} w has invalid activation multiplier {unusable}")
        );
    }
    assert_eq!(
        refusal(make(4, 1.0, 1.0, Some(bits(&[0.0; 3])))),
        "invalid Marian model: bias for w has 3 values, expected 2"
    );
    assert_eq!(
        refusal(Linear::from_quantized(
            "w",
            usize::MAX,
            2,
            vec![],
            1.0f32.to_bits(),
            float(1.0),
            None
        )),
        format!("{prefix} w is too large")
    );
    let mut flat = tensor([2, 2], vec![1; 4], 1.0);
    flat.shape = vec![4];
    assert_eq!(
        refusal(Linear::compile(flat, None, float(1.0))),
        format!("{prefix} test_weight has rank 1")
    );
    let mut floats = tensor([2, 2], vec![1; 4], 1.0);
    floats.data = TensorData::F32(bits(&[1.0; 4]));
    assert_eq!(
        refusal(Linear::compile(floats, None, float(1.0))),
        format!("{prefix} test_weight is not intgemm8")
    );
}

#[test]
fn linear_inputs_fill_whole_rows() {
    let linear = Linear::compile(tensor([2, 2], vec![1; 4], 1.0), None, float(1.0)).unwrap();
    assert_eq!(linear.row_count(6).unwrap(), 3);
    assert_eq!(
        linear.row_count(5).unwrap_err().sentence(),
        "translation failed: linear input length 5 is not divisible by 2"
    );
    assert_eq!(bits(&[0.0, 0.0]), *linear.bias());
}

#[test]
fn scale_factors_are_usable_like_their_quotients() {
    for value in [-128i8, -1, 0, 1, 127] {
        for multiplier in [
            0.0f32,
            -0.0,
            1.0,
            -2.5,
            f32::MIN_POSITIVE,
            -f32::MIN_POSITIVE,
            f32::from_bits(1),
            3.0e-37,
            3.8e-37,
            f32::MAX,
            f32::INFINITY,
            f32::NAN,
        ] {
            let scalar = Scalar::Ratio {
                value,
                multiplier: multiplier.to_bits(),
            };
            let quotient = f32::from(value) / multiplier;
            assert_eq!(
                scalar.is_usable(),
                quotient.is_finite() && quotient > 0.0,
                "{value} / {multiplier}"
            );
            assert_eq!(scalar.show(), quotient.to_string());
        }
    }
    assert!(float(0.5).is_usable());
    assert!(!float(-0.5).is_usable());
}

#[test]
fn shifted_inputs_stay_in_the_signed_range() {
    let mut values = vec![0, 127, 254, 255];
    clamp_shifted(&mut values);
    assert_eq!(values, [0, 127, 254, 254]);
}

#[test]
fn failed_products_are_reported() {
    assert_eq!(finish_product(Ok(vec![3])).unwrap(), [3]);
    assert_eq!(
        finish_product(Err("no kernel".into()))
            .unwrap_err()
            .sentence(),
        "translation failed: RTen int8 GEMM failed: no kernel"
    );
}

fn view(offset: usize, rows: usize, cols: usize) -> MatrixView {
    MatrixView {
        offset,
        rows,
        cols,
        row_stride: cols,
        col_stride: 1,
    }
}

#[test]
fn product_plans_count_their_outputs() {
    let plan = plan_batch(
        &[view(0, 2, 3), view(6, 2, 3)],
        12,
        &[view(0, 3, 5), view(15, 3, 5)],
        30,
    )
    .unwrap();
    assert_eq!(plan.output_stride, 10);
    assert_eq!(plan.output_len, 20);
    assert_eq!(plan_batch(&[], 0, &[], 0).unwrap().output_len, 0);
}

#[test]
fn product_plans_refuse_what_does_not_fit() {
    let sentence = |lhs: &[MatrixView], lhs_len, rhs: &[MatrixView], rhs_len| {
        plan_batch(lhs, lhs_len, rhs, rhs_len)
            .unwrap_err()
            .sentence()
    };
    assert_eq!(
        sentence(&[view(0, 1, 1)], 1, &[], 0),
        "translation failed: batched matrix inputs have different lengths"
    );
    assert_eq!(
        sentence(&[view(0, 1, 2)], 2, &[view(0, 3, 1)], 3),
        "translation failed: batched matrix dimensions do not match"
    );
    assert!(
        sentence(&[view(0, 1, 2)], 1, &[view(0, 2, 1)], 2)
            .starts_with("translation failed: invalid lhs matrix view")
    );
    assert!(
        sentence(&[view(0, 1, 2)], 2, &[view(1, 2, 1)], 2)
            .starts_with("translation failed: invalid rhs matrix view")
    );
    assert_eq!(
        sentence(&[view(0, usize::MAX, 0)], 0, &[view(0, 0, 2)], 0),
        "translation failed: matrix output size overflow"
    );
    let wide = view(0, usize::MAX / 2, 0);
    let flat = view(0, 0, 1);
    assert_eq!(
        sentence(&[wide, wide, wide], 0, &[flat, flat, flat], 0),
        "translation failed: batched matrix output size overflow"
    );
}

#[test]
fn pairs_of_products_saturate_all_or_not_at_all() {
    for (inner, cols, rows) in [(1usize, 1usize, 1usize), (2, 1, 1), (5, 3, 2), (2051, 9, 3)] {
        let mut state = 12345u32;
        let mut next = move || {
            state = state.wrapping_mul(1_664_525).wrapping_add(1_013_904_223);
            state >> 24
        };
        let weights: Vec<i8> = (0..inner * cols)
            .map(|_| if next() < 0x80 { 127 } else { next() as u8 as i8 })
            .collect();
        let inputs: Vec<u8> = (0..inner * rows)
            .map(|_| if next() < 0x80 { 254 } else { next() as u8 })
            .collect();
        let product = |saturates: bool| -> Vec<i32> {
            let mut product = Vec::new();
            for row in 0..rows {
                for col in 0..cols {
                    let input = &inputs[row * inner..][..inner];
                    let weight = &weights[col * inner..][..inner];
                    let terms: Vec<i32> = input
                        .iter()
                        .zip(weight)
                        .map(|(&input, &weight)| i32::from(input) * i32::from(weight))
                        .collect();
                    let sum: i32 = terms
                        .chunks(2)
                        .map(|pair| {
                            let sum = pair.iter().sum::<i32>();
                            if saturates {
                                sum.clamp(i32::from(i16::MIN), i32::from(i16::MAX))
                            } else {
                                sum
                            }
                        })
                        .sum();
                    let shift: i32 = weight.iter().map(|&weight| i32::from(weight)).sum();
                    product.push(sum - 127 * shift);
                }
            }
            product
        };
        let linear = Linear::from_quantized(
            "w",
            inner,
            cols,
            weights.clone(),
            1.0f32.to_bits(),
            float(1.0),
            None,
        )
        .unwrap();
        let actual = linear.apply_int8(&inputs, rows).unwrap();
        assert!(
            actual == product(false) || actual == product(true),
            "{inner} {cols} {rows}"
        );
    }
}
