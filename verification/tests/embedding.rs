use std::sync::Arc;

use linguaspark::inference::backend::Scalar;
use linguaspark::inference::embedding::{Embedding, OutputProjection};
use linguaspark::model::binary::{Tensor, TensorData};

fn tensor(shape: [usize; 2], values: Vec<i8>) -> Tensor {
    Tensor {
        name: "embedding".into(),
        shape: shape.to_vec(),
        data: TensorData::QuantizedI8 {
            values,
            multiplier: 1.0f32.to_bits(),
        },
    }
}

fn scaled(embedding: &Embedding, values: Vec<i8>) -> Vec<f32> {
    values
        .into_iter()
        .map(|value| f32::from(value) / f32::from_bits(embedding.multiplier))
        .collect()
}

#[test]
fn compiles_and_looks_up_embedding() {
    let embedding = Embedding::compile(tensor([2, 2], vec![1, 2, 3, 4]), 2, 2).unwrap();
    let values = embedding.lookup(&[1, 0]).unwrap();
    assert_eq!(scaled(&embedding, values), [3.0, 4.0, 1.0, 2.0]);
}

#[test]
fn rejects_embedding_shape_and_type_mismatch() {
    assert!(Embedding::compile(tensor([2, 2], vec![1; 4]), 3, 2).is_err());
    let mut tensor = tensor([2, 2], vec![1; 4]);
    tensor.data = TensorData::F32(vec![1.0f32.to_bits(); 4]);
    assert!(Embedding::compile(tensor, 2, 2).is_err());
}

#[test]
fn lookup_rejects_out_of_range_token() {
    let embedding = Embedding::compile(tensor([2, 2], vec![1; 4]), 2, 2).unwrap();
    assert!(embedding.lookup(&[2]).is_err());
}

#[test]
fn optional_lookup_uses_zero_start_embedding() {
    let embedding = Embedding::compile(tensor([2, 2], vec![1, 2, 3, 4]), 2, 2).unwrap();
    let values = embedding.lookup_optional(&[None, Some(1)]).unwrap();
    assert_eq!(scaled(&embedding, values), [0.0, 0.0, 3.0, 4.0]);
}

#[test]
fn output_projection_shares_weights_and_selects_rows() {
    let embedding = Embedding::compile(tensor([3, 2], vec![1, 2, 3, 4, 5, 6]), 3, 2).unwrap();
    let bias = [0.1f32, 0.2, 0.3].map(f32::to_bits).to_vec();
    let output =
        OutputProjection::new(&embedding, Scalar::Float(1.0f32.to_bits()), bias).unwrap();
    assert!(Arc::ptr_eq(&embedding.values, &output.values));
    let prepared = output.prepare(&[2, 0]).unwrap();
    // The input [1.0, 1.0], quantized with multiplier one and shifted.
    let products = prepared.linear.apply_int8(&[128, 128], 1).unwrap();
    let logits = products
        .iter()
        .zip(prepared.linear.bias())
        .map(|(&product, &bias)| product as f32 + f32::from_bits(bias))
        .collect::<Vec<_>>();
    assert!((logits[0] - 11.3).abs() < 1e-5);
    assert!((logits[1] - 3.1).abs() < 1e-5);
}

#[test]
fn embedding_refusals_say_what_is_wrong() {
    let shape = match Embedding::compile(tensor([2, 2], vec![1; 4]), 3, 2) {
        Ok(_) => panic!("expected a refusal"),
        Err(error) => error.sentence(),
    };
    assert_eq!(
        shape,
        "invalid Marian model: embedding embedding has shape [2, 2], expected [3, 2]"
    );
    let mut floats = tensor([2, 2], vec![1; 4]);
    floats.data = TensorData::F32(vec![0; 4]);
    let kind = match Embedding::compile(floats, 2, 2) {
        Ok(_) => panic!("expected a refusal"),
        Err(error) => error.sentence(),
    };
    assert_eq!(
        kind,
        "invalid Marian model: embedding embedding is not intgemm8"
    );
    let embedding = Embedding::compile(tensor([2, 2], vec![1; 4]), 2, 2).unwrap();
    assert_eq!(
        embedding.lookup(&[2]).unwrap_err().sentence(),
        "translation failed: embedding ID 2 is outside vocabulary 2"
    );
    assert_eq!(
        embedding
            .lookup_optional(&[Some(7)])
            .unwrap_err()
            .sentence(),
        "translation failed: embedding ID 7 is outside vocabulary 2"
    );
    let bias = match OutputProjection::new(&embedding, Scalar::Float(1.0f32.to_bits()), vec![0]) {
        Ok(_) => panic!("expected a refusal"),
        Err(error) => error.sentence(),
    };
    assert_eq!(
        bias,
        "invalid Marian model: output bias has 1 values, expected 2"
    );
    let output =
        OutputProjection::new(&embedding, Scalar::Float(1.0f32.to_bits()), vec![0; 2]).unwrap();
    let range = match output.prepare(&[0, 2]) {
        Ok(_) => panic!("expected a refusal"),
        Err(error) => error.sentence(),
    };
    assert_eq!(
        range,
        "translation failed: target ID 2 exceeds output vocabulary 2"
    );
    let unusable = OutputProjection::new(&embedding, Scalar::Float(0), vec![0; 2]).unwrap();
    let scale = match unusable.prepare(&[0]) {
        Ok(_) => panic!("expected a refusal"),
        Err(error) => error.sentence(),
    };
    assert_eq!(
        scale,
        "translation failed: invalid Marian model: linear weight decoder_output_shortlist has \
         invalid activation multiplier 0"
    );
}

#[test]
fn shared_embeddings_have_one_table() {
    let embedding = Embedding::compile(tensor([2, 2], vec![1, 2, 3, 4]), 2, 2).unwrap();
    let shared = embedding.share();
    assert!(Arc::ptr_eq(&embedding.values, &shared.values));
    assert_eq!(shared.lookup(&[1]).unwrap(), [3, 4]);
}
