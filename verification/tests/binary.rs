use std::io::Write;

use flate2::Compression;
use flate2::write::GzEncoder;
use linguaspark::asset::Asset;
use linguaspark::error::LoadError;
use linguaspark::model::binary::{
    HashingReader, ModelArchive, TYPE_FLOAT32, TYPE_INT8, TYPE_INTGEMM8, TensorData, TensorType,
    checked_elements, copy_to_sink, ensure_payload, read_headers, read_i32, read_names, read_u64,
    trim_nul, usize_from_u64,
};
use linguaspark::model::config::ModelConfig;
use sha2::{Digest, Sha256};
use yaml_serde::Value;

struct Item {
    name: String,
    type_code: u64,
    shape: Vec<i32>,
    payload: Vec<u8>,
}

fn number(value: &Value, key: &str) -> usize {
    value.get(key).and_then(Value::as_u64).unwrap() as usize
}

fn text(value: &Value, key: &str) -> String {
    value
        .get(key)
        .and_then(Value::as_str)
        .unwrap_or("")
        .to_owned()
}

fn parse(yaml: &str) -> Result<ModelConfig, LoadError> {
    let value: Value = yaml_serde::from_str(yaml)
        .map_err(|error| LoadError::InvalidModel(format!("invalid special:model.yml: {error}")))?;
    Ok(ModelConfig {
        model_type: text(&value, "type"),
        dim_emb: number(&value, "dim-emb"),
        dim_vocabs: value
            .get("dim-vocabs")
            .and_then(Value::as_sequence)
            .unwrap()
            .iter()
            .map(|size| size.as_u64().unwrap() as usize)
            .collect(),
        enc_depth: number(&value, "enc-depth"),
        dec_depth: number(&value, "dec-depth"),
        transformer_heads: number(&value, "transformer-heads"),
        transformer_dim_ffn: number(&value, "transformer-dim-ffn"),
        transformer_ffn_depth: number(&value, "transformer-ffn-depth"),
        transformer_ffn_activation: text(&value, "transformer-ffn-activation"),
        transformer_decoder_autoreg: text(&value, "transformer-decoder-autoreg"),
        dec_cell: text(&value, "dec-cell"),
        tied_embeddings: false,
        tied_embeddings_all: false,
        layer_normalization: false,
        transformer_postprocess: text(&value, "transformer-postprocess"),
        transformer_preprocess: String::new(),
        transformer_postprocess_top: String::new(),
        version: text(&value, "version"),
    })
}

fn load(asset: Asset, hash: Option<[u8; 32]>) -> Result<ModelArchive, LoadError> {
    ModelArchive::load(asset, hash, parse)
}

fn refusal(bytes: Vec<u8>) -> String {
    load(Asset::raw(bytes), None).unwrap_err().sentence()
}

fn config_yaml() -> Vec<u8> {
    let mut yaml = br#"
type: transformer
dim-emb: 4
dim-vocabs: [8, 8]
enc-depth: 1
dec-depth: 1
transformer-heads: 2
transformer-dim-ffn: 8
transformer-ffn-depth: 2
transformer-ffn-activation: relu
transformer-decoder-autoreg: rnn
dec-cell: ssru
version: test
"#
    .to_vec();
    yaml.push(0);
    yaml
}

fn build(mut items: Vec<Item>, padding: usize) -> Vec<u8> {
    items.insert(
        0,
        Item {
            name: "special:model.yml".into(),
            type_code: 0x0101,
            shape: vec![1],
            payload: config_yaml(),
        },
    );
    assemble(items, padding)
}

fn assemble(items: Vec<Item>, padding: usize) -> Vec<u8> {
    let mut bytes = Vec::new();
    bytes.extend_from_slice(&1u64.to_le_bytes());
    bytes.extend_from_slice(&(items.len() as u64).to_le_bytes());
    for item in &items {
        bytes.extend_from_slice(&((item.name.len() + 1) as u64).to_le_bytes());
        bytes.extend_from_slice(&item.type_code.to_le_bytes());
        bytes.extend_from_slice(&(item.shape.len() as u64).to_le_bytes());
        bytes.extend_from_slice(&(item.payload.len() as u64).to_le_bytes());
    }
    for item in &items {
        bytes.extend_from_slice(item.name.as_bytes());
        bytes.push(0);
    }
    for item in &items {
        for dim in &item.shape {
            bytes.extend_from_slice(&dim.to_le_bytes());
        }
    }
    bytes.extend_from_slice(&(padding as u64).to_le_bytes());
    bytes.resize(bytes.len() + padding, 0);
    for item in items {
        bytes.extend_from_slice(&item.payload);
    }
    bytes
}

fn item(name: &str, type_code: u64, shape: Vec<i32>, payload: Vec<u8>) -> Item {
    Item {
        name: name.into(),
        type_code,
        shape,
        payload,
    }
}

fn float_item(name: &str, values: &[f32]) -> Item {
    Item {
        name: name.into(),
        type_code: TYPE_FLOAT32,
        shape: vec![values.len() as i32],
        payload: values
            .iter()
            .flat_map(|value| value.to_le_bytes())
            .collect(),
    }
}

#[test]
fn loads_minimal_raw_archive() {
    let archive = load(Asset::raw(build(vec![], 0)), None).unwrap();
    assert_eq!(archive.config.version, "test");
    assert_eq!(archive.tensor_count(), 0);
}

#[test]
fn loads_gzip_archive() {
    let mut encoder = GzEncoder::new(Vec::new(), Compression::default());
    encoder.write_all(&build(vec![], 0)).unwrap();
    let archive = load(Asset::gzip(encoder.finish().unwrap()), None).unwrap();
    assert_eq!(archive.config.dim_emb, 4);
}

#[test]
fn parses_float32_tensor() {
    let archive = load(
        Asset::raw(build(vec![float_item("weight", &[1.5, -2.0])], 0)),
        None,
    )
    .unwrap();
    let TensorData::F32(values) = &archive.tensor("weight").unwrap().data else {
        panic!("expected float tensor")
    };
    let values = values
        .iter()
        .map(|&bits| f32::from_bits(bits))
        .collect::<Vec<_>>();
    assert_eq!(values, &[1.5, -2.0]);
    assert_eq!(
        archive.tensor("weight").unwrap().tensor_type(),
        TensorType::Float32
    );
}

#[test]
fn parses_intgemm8_tensor_and_multiplier() {
    let mut payload = vec![1u8, 255];
    payload.extend_from_slice(&2.5f32.to_le_bytes());
    let archive = load(
        Asset::raw(build(
            vec![Item {
                name: "weight".into(),
                type_code: TYPE_INTGEMM8,
                shape: vec![2],
                payload,
            }],
            0,
        )),
        None,
    )
    .unwrap();
    let TensorData::QuantizedI8 { values, multiplier } = &archive.tensor("weight").unwrap().data
    else {
        panic!("expected intgemm tensor")
    };
    assert_eq!(values, &[1, -1]);
    assert_eq!(f32::from_bits(*multiplier), 2.5);
    assert_eq!(
        archive.tensor("weight").unwrap().tensor_type(),
        TensorType::IntGemm8
    );
}

#[test]
fn accepts_header_and_tensor_payload_padding() {
    let mut item = float_item("weight", &[1.0]);
    item.payload.extend_from_slice(&[0; 12]);
    let archive = load(Asset::raw(build(vec![item], 13)), None).unwrap();
    assert!(archive.tensor("weight").is_some());
}

#[test]
fn rejects_invalid_version_type_and_short_payload() {
    let mut version = build(vec![], 0);
    version[..8].copy_from_slice(&2u64.to_le_bytes());
    assert!(load(Asset::raw(version), None).is_err());

    let invalid_type = Item {
        name: "weight".into(),
        type_code: 99,
        shape: vec![1],
        payload: vec![0],
    };
    assert!(load(Asset::raw(build(vec![invalid_type], 0)), None).is_err());

    let short = Item {
        name: "weight".into(),
        type_code: TYPE_FLOAT32,
        shape: vec![2],
        payload: 1.0f32.to_le_bytes().to_vec(),
    };
    assert!(load(Asset::raw(build(vec![short], 0)), None).is_err());
}

#[test]
fn rejects_duplicate_names_and_trailing_bytes() {
    let duplicate = build(
        vec![float_item("weight", &[1.0]), float_item("weight", &[2.0])],
        0,
    );
    assert!(load(Asset::raw(duplicate), None).is_err());

    let mut trailing = build(vec![], 0);
    trailing.push(0);
    assert!(load(Asset::raw(trailing), None).is_err());
}

#[test]
fn verifies_hash_and_rejects_malformed_name_or_shape() {
    let bytes = build(vec![], 0);
    let hash: [u8; 32] = Sha256::digest(&bytes).into();
    load(Asset::raw(bytes.clone()), Some(hash)).unwrap();
    assert!(load(Asset::raw(bytes.clone()), Some([0; 32])).is_err());

    let mut bad_name = bytes.clone();
    let names_start = 16 + 32;
    let name_end = names_start + "special:model.yml".len();
    bad_name[name_end] = b'x';
    assert!(load(Asset::raw(bad_name), None).is_err());

    let mut bad_shape = bytes;
    let shape_start = names_start + "special:model.yml".len() + 1;
    bad_shape[shape_start..shape_start + 4].copy_from_slice(&0i32.to_le_bytes());
    assert!(load(Asset::raw(bad_shape), None).is_err());
}

#[test]
fn hash_mismatches_name_both_hashes() {
    let bytes = build(vec![], 0);
    let actual = Sha256::digest(&bytes)
        .iter()
        .map(|byte| format!("{byte:02x}"))
        .collect::<String>();
    assert_eq!(
        load(Asset::raw(bytes), Some([0x0a; 32]))
            .unwrap_err()
            .sentence(),
        format!(
            "model hash mismatch: expected {}, got {actual}",
            "0a".repeat(32)
        )
    );
}

#[test]
fn archive_refusals_say_what_is_wrong() {
    let prefix = "invalid Marian model: ";
    let mut version = build(vec![], 0);
    version[..8].copy_from_slice(&2u64.to_le_bytes());
    assert_eq!(
        refusal(version),
        format!("{prefix}unsupported binary version 2")
    );

    for count in [0u64, 100_001] {
        let mut bytes = build(vec![], 0);
        bytes[8..16].copy_from_slice(&count.to_le_bytes());
        assert_eq!(
            refusal(bytes),
            format!("{prefix}implausible item count {count}")
        );
    }

    for len in [0u64, 16 * 1024 + 1] {
        let mut bytes = build(vec![], 0);
        bytes[16..24].copy_from_slice(&len.to_le_bytes());
        assert_eq!(
            refusal(bytes),
            format!("{prefix}invalid tensor name length {len}")
        );
    }

    let mut name = build(vec![], 0);
    let name_end = 48 + "special:model.yml".len();
    name[name_end] = b'x';
    assert_eq!(
        refusal(name),
        format!("{prefix}tensor name is not NUL terminated")
    );

    let mut name = build(vec![], 0);
    name[48] = 0xff;
    assert_eq!(
        refusal(name),
        format!("{prefix}tensor name is not valid UTF-8")
    );

    for rank in [0u64, 9] {
        let mut bytes = build(vec![], 0);
        bytes[32..40].copy_from_slice(&rank.to_le_bytes());
        assert_eq!(
            refusal(bytes),
            format!("{prefix}invalid shape rank {rank}")
        );
    }

    let mut shape = build(vec![], 0);
    shape[name_end + 1..name_end + 5].copy_from_slice(&(-3i32).to_le_bytes());
    assert_eq!(
        refusal(shape),
        format!("{prefix}invalid tensor dimension -3")
    );

    let mut short = build(vec![], 0);
    short.pop();
    assert_eq!(
        refusal(short),
        format!("{prefix}unexpected end of Marian model")
    );

    let mut trailing = build(vec![], 0);
    trailing.push(0);
    assert_eq!(
        refusal(trailing),
        format!("{prefix}trailing bytes after Marian payload")
    );

    assert_eq!(
        refusal(build(
            vec![float_item("weight", &[1.0]), float_item("weight", &[2.0])],
            0
        )),
        format!("{prefix}duplicate tensor weight")
    );

    assert_eq!(
        refusal(assemble(vec![float_item("weight", &[1.0])], 0)),
        format!("{prefix}missing special:model.yml metadata")
    );

    assert_eq!(
        refusal(assemble(
            vec![item("special:model.yml", TYPE_INT8, vec![1], vec![0xff, 0])],
            0
        )),
        format!("{prefix}special:model.yml is not UTF-8")
    );
}

#[test]
fn tensor_refusals_say_what_is_wrong() {
    let prefix = "invalid Marian model: ";
    assert_eq!(
        refusal(build(vec![item("weight", 99, vec![1], vec![0])], 0)),
        format!("{prefix}tensor weight uses unsupported type code 99")
    );
    assert_eq!(
        refusal(build(
            vec![item("weight", TYPE_FLOAT32, vec![2], vec![0; 4])],
            0
        )),
        format!("{prefix}tensor weight payload is 4 bytes, expected at least 8")
    );
    assert_eq!(
        refusal(build(vec![item("weight", TYPE_INT8, vec![2], vec![0])], 0)),
        format!("{prefix}tensor weight payload is 1 bytes, expected at least 2")
    );
    assert_eq!(
        refusal(build(
            vec![item("weight", TYPE_INT8, vec![i32::MAX; 3], vec![0])],
            0
        )),
        format!("{prefix}tensor shape overflows usize")
    );
    for multiplier in [0.0f32, -0.0, -1.0, -0.3, f32::INFINITY, f32::NAN] {
        let mut payload = vec![1u8];
        payload.extend_from_slice(&multiplier.to_le_bytes());
        assert_eq!(
            refusal(build(
                vec![item("weight", TYPE_INTGEMM8, vec![1], payload)],
                0
            )),
            format!("{prefix}tensor weight has invalid quantization multiplier {multiplier}")
        );
    }
}

#[test]
fn configurations_are_parsed_and_checked() {
    let broken = |text: &str| {
        assert!(text.starts_with("\ntype: transformer"));
        assert!(text.ends_with("version: test\n"));
        Err(LoadError::InvalidModel("no configuration".into()))
    };
    assert_eq!(
        ModelArchive::from_bytes(build(vec![], 0), None, broken)
            .unwrap_err()
            .sentence(),
        "invalid Marian model: no configuration"
    );
    let unfit = |text: &str| {
        let mut config = parse(text)?;
        config.enc_depth = 0;
        Ok(config)
    };
    assert!(
        ModelArchive::from_bytes(build(vec![], 0), None, unfit)
            .unwrap_err()
            .sentence()
            .starts_with("invalid Marian model: invalid model dimensions: dim=4")
    );
}

#[test]
fn tensors_leave_the_archive_once() {
    let mut archive = load(
        Asset::raw(build(
            vec![float_item("a", &[1.0]), float_item("b", &[2.0, 3.0])],
            0,
        )),
        None,
    )
    .unwrap();
    assert_eq!(archive.tensor_count(), 2);
    let tensor = archive.take_tensor("b").unwrap();
    assert_eq!(tensor.name, "b");
    assert_eq!(tensor.element_count(), 2);
    assert_eq!(archive.tensor_count(), 1);
    assert!(archive.take_tensor("b").is_none());
    assert!(archive.tensor("a").is_some());
}

#[test]
fn raw_and_compressed_bytes_are_told_apart() {
    let mut encoder = GzEncoder::new(Vec::new(), Compression::default());
    encoder.write_all(b"payload").unwrap();
    let compressed = encoder.finish().unwrap();
    assert_eq!(
        Asset::gzip(compressed.clone()).into_bytes().unwrap(),
        b"payload"
    );
    assert_eq!(
        Asset::raw(compressed.clone()).into_bytes().unwrap(),
        compressed
    );
    assert!(Asset::gzip(b"payload".to_vec()).into_bytes().is_none());
    assert_eq!(
        load(Asset::gzip(b"payload".to_vec()), None)
            .unwrap_err()
            .sentence(),
        "invalid Marian model: invalid gzip stream"
    );
}

fn compressed(bytes: &[u8]) -> Vec<u8> {
    let mut encoder = GzEncoder::new(Vec::new(), Compression::default());
    encoder.write_all(bytes).unwrap();
    encoder.finish().unwrap()
}

fn refusal_of(asset: Asset) -> String {
    load(asset, None).unwrap_err().sentence()
}

#[test]
fn faults_in_front_of_damage_come_first() {
    // The checksum behind the compressed bytes is wrong.
    let damage = |bytes: &[u8]| {
        let mut member = compressed(bytes);
        let at = member.len() - 8;
        member[at] ^= 1;
        member
    };
    let damaged = "invalid Marian model: invalid gzip stream";
    let archive = build(vec![float_item("weight", &[1.0])], 3);
    assert_eq!(refusal_of(Asset::gzip(damage(&archive))), damaged);
    match Asset::gzip(damage(&archive)).open() {
        Ok(_) => panic!("expected damage"),
        Err(start) => assert_eq!(start, archive),
    }

    let mut version = archive.clone();
    version[0] = 9;
    assert_eq!(
        refusal_of(Asset::gzip(damage(&version))),
        "invalid Marian model: unsupported binary version 9"
    );

    let mut longer = archive.clone();
    longer.push(0);
    assert_eq!(
        refusal_of(Asset::gzip(damage(&longer))),
        "invalid Marian model: trailing bytes after Marian payload"
    );

    // Where the bytes end too early, the damage is met.
    let shorter = &archive[..archive.len() - 1];
    assert_eq!(refusal_of(Asset::gzip(damage(shorter))), damaged);
    assert_eq!(
        refusal_of(Asset::gzip(compressed(shorter))),
        "invalid Marian model: unexpected end of Marian model"
    );

    // A member that is cut off.
    let mut cut = compressed(&version);
    cut.truncate(cut.len() - 4);
    assert_eq!(
        refusal_of(Asset::gzip(cut)),
        "invalid Marian model: unsupported binary version 9"
    );

    // What the configuration comes first with.
    let empty = build(vec![], 0);
    let refuse = |_: &str| Err(LoadError::InvalidModel("no configuration".into()));
    assert_eq!(
        ModelArchive::load(Asset::gzip(damage(&empty)), None, refuse)
            .unwrap_err()
            .sentence(),
        "invalid Marian model: no configuration"
    );
    assert_eq!(
        ModelArchive::load(Asset::gzip(damage(&empty)), Some([0; 32]), parse)
            .unwrap_err()
            .sentence(),
        damaged
    );
}

#[test]
fn readers_hash_what_they_hand_out() {
    let mut reader = HashingReader::new(vec![7, 0, 0, 0, 0, 0, 0, 0, 254, 255, 255, 255, 9]);
    assert_eq!(read_u64(&mut reader).unwrap(), 7);
    assert_eq!(read_i32(&mut reader).unwrap(), -2);
    assert_eq!(reader.remaining(), 1);
    assert!(read_i32(&mut reader).is_err());

    let mut reader = HashingReader::new(b"abcdef".to_vec());
    copy_to_sink(&mut reader, 2).unwrap();
    assert_eq!(reader.read_exact(1).unwrap(), b"c");
    let digest: [u8; 32] = Sha256::digest(b"abc").into();
    assert_eq!(reader.finalize(), digest);
}

#[test]
fn headers_are_read_before_names() {
    let mut reader = HashingReader::new(build(vec![], 0));
    assert_eq!(read_u64(&mut reader).unwrap(), 1);
    let headers = read_headers(&mut reader).unwrap();
    assert_eq!(headers.len(), 1);
    assert_eq!(headers[0].type_code, TYPE_INT8);
    assert_eq!(
        read_names(&mut reader, &headers).unwrap(),
        ["special:model.yml"]
    );
}

#[test]
fn small_checks_hold_at_their_edges() {
    assert_eq!(checked_elements(&[2, 3, 4]).unwrap(), 24);
    assert_eq!(checked_elements(&[]).unwrap(), 1);
    assert!(checked_elements(&[usize::MAX, 2]).is_err());
    assert!(ensure_payload("x", 4, 4).is_ok());
    assert!(ensure_payload("x", 3, 4).is_err());
    assert_eq!(trim_nul(b"ab\0\0"), b"ab\0");
    assert_eq!(trim_nul(b"ab"), b"ab");
    assert_eq!(usize_from_u64(5, "count").unwrap(), 5);
}

#[test]
fn archives_load_whole_or_not_at_all() {
    let bytes = build(vec![float_item("weight", &[1.0])], 3);
    load(Asset::raw(bytes.clone()), None).unwrap();
    for len in 0..bytes.len() {
        assert!(load(Asset::raw(bytes[..len].to_vec()), None).is_err());
    }
    for tail in [vec![0], vec![1, 2, 3], bytes.clone()] {
        let mut longer = bytes.clone();
        longer.extend(tail);
        assert!(load(Asset::raw(longer), None).is_err());
    }
}

#[test]
fn only_the_hash_of_all_bytes_is_accepted() {
    let bytes = build(vec![], 0);
    let hash: [u8; 32] = Sha256::digest(&bytes).into();
    load(Asset::raw(bytes.clone()), Some(hash)).unwrap();
    let shorter: [u8; 32] = Sha256::digest(&bytes[..bytes.len() - 1]).into();
    let mut flipped = hash;
    flipped[31] ^= 1;
    for other in [shorter, flipped, [0; 32]] {
        assert!(
            load(Asset::raw(bytes.clone()), Some(other))
                .unwrap_err()
                .sentence()
                .starts_with("model hash mismatch: expected ")
        );
    }
}
