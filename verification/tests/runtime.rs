use linguaspark::decoding::search::DecodedHypothesis;
use linguaspark::model::config::ModelConfig;
use linguaspark::model::shortlist::{BINARY_SHORTLIST_MAGIC, Shortlist, marian_hash_u64};
use linguaspark::runtime::{check_sizes, finish_translation, pad_sources, validate_decode_options};
use linguaspark::{
    DecodeOptions, Executor, LoadError, Model, ModelAssets, StopReason, VocabularyAssets,
};

const TYPE_INT8: u64 = 0x0101;
const TYPE_FLOAT32: u64 = 0x0404;
const TYPE_INTGEMM8: u64 = 0x4101;

struct Item {
    name: String,
    type_code: u64,
    shape: Vec<i32>,
    payload: Vec<u8>,
}

fn archive(items: &[Item]) -> Vec<u8> {
    let mut bytes = 1u64.to_le_bytes().to_vec();
    bytes.extend((items.len() as u64).to_le_bytes());
    for item in items {
        bytes.extend(((item.name.len() + 1) as u64).to_le_bytes());
        bytes.extend(item.type_code.to_le_bytes());
        bytes.extend((item.shape.len() as u64).to_le_bytes());
        bytes.extend((item.payload.len() as u64).to_le_bytes());
    }
    for item in items {
        bytes.extend(item.name.as_bytes());
        bytes.push(0);
    }
    for item in items {
        for dim in &item.shape {
            bytes.extend(dim.to_le_bytes());
        }
    }
    bytes.extend(0u64.to_le_bytes());
    for item in items {
        bytes.extend(&item.payload);
    }
    bytes
}

fn weights(name: &str, rows: usize, cols: usize) -> Item {
    let mut payload = (0..rows * cols)
        .map(|index| (index % 7) as u8)
        .collect::<Vec<_>>();
    payload.extend(2.0f32.to_le_bytes());
    Item {
        name: name.into(),
        type_code: TYPE_INTGEMM8,
        shape: vec![rows as i32, cols as i32],
        payload,
    }
}

fn floats(name: &str, count: usize, value: f32) -> Item {
    Item {
        name: name.into(),
        type_code: TYPE_FLOAT32,
        shape: vec![1, count as i32],
        payload: (0..count).flat_map(|_| value.to_le_bytes()).collect(),
    }
}

fn linear(items: &mut Vec<Item>, name: &str, rows: usize, cols: usize, bias: Option<&str>) {
    items.push(weights(name, rows, cols));
    items.push(floats(&format!("{name}_QuantMultA"), 1, 4.0));
    if let Some(bias) = bias {
        items.push(floats(bias, cols, 0.0));
    }
}

fn norm(items: &mut Vec<Item>, prefix: &str, dim: usize) {
    items.push(floats(&format!("{prefix}_scale"), dim, 1.0));
    items.push(floats(&format!("{prefix}_bias"), dim, 0.0));
}

fn attention(items: &mut Vec<Item>, prefix: &str) {
    for part in ["q", "k", "v", "o"] {
        linear(
            items,
            &format!("{prefix}_W{part}"),
            4,
            4,
            Some(&format!("{prefix}_b{part}")),
        );
    }
    norm(items, &format!("{prefix}_Wo_ln"), 4);
}

fn feed_forward(items: &mut Vec<Item>, prefix: &str) {
    linear(
        items,
        &format!("{prefix}_W1"),
        4,
        8,
        Some(&format!("{prefix}_b1")),
    );
    linear(
        items,
        &format!("{prefix}_W2"),
        8,
        4,
        Some(&format!("{prefix}_b2")),
    );
    norm(items, &format!("{prefix}_ffn_ln"), 4);
}

fn network() -> Vec<Item> {
    let mut items = vec![Item {
        name: "special:model.yml".into(),
        type_code: TYPE_INT8,
        shape: vec![1],
        payload: b"any\0".to_vec(),
    }];
    linear(&mut items, "Wemb", 7, 4, None);
    items.push(floats("decoder_ff_logit_out_b", 7, 0.0));
    attention(&mut items, "encoder_l1_self");
    feed_forward(&mut items, "encoder_l1_ffn");
    linear(&mut items, "decoder_l1_rnn_W", 4, 4, None);
    linear(
        &mut items,
        "decoder_l1_rnn_Wf",
        4,
        4,
        Some("decoder_l1_rnn_bf"),
    );
    norm(&mut items, "decoder_l1_rnn_ffn_ln", 4);
    attention(&mut items, "decoder_l1_context");
    feed_forward(&mut items, "decoder_l1_ffn");
    items
}

fn config(text: &str) -> Result<ModelConfig, LoadError> {
    if text != "any" {
        return Err(LoadError::InvalidModel("unexpected configuration".into()));
    }
    Ok(ModelConfig {
        model_type: "transformer".into(),
        dim_emb: 4,
        dim_vocabs: vec![7, 7],
        enc_depth: 1,
        dec_depth: 1,
        transformer_heads: 2,
        transformer_dim_ffn: 8,
        transformer_ffn_depth: 2,
        transformer_ffn_activation: "relu".into(),
        transformer_decoder_autoreg: "rnn".into(),
        dec_cell: "ssru".into(),
        tied_embeddings: false,
        tied_embeddings_all: true,
        layer_normalization: false,
        transformer_postprocess: "dan".into(),
        transformer_preprocess: String::new(),
        transformer_postprocess_top: String::new(),
        version: "test".into(),
    })
}

fn run(field: u8, content: &[u8]) -> Vec<u8> {
    let mut bytes = vec![field * 8 + 2, content.len() as u8];
    bytes.extend(content);
    bytes
}

fn piece(text: &str, score: f32, kind: u8) -> Vec<u8> {
    let mut content = run(1, text.as_bytes());
    content.push(0x15);
    content.extend(score.to_le_bytes());
    content.extend([0x18, kind]);
    run(1, &content)
}

fn vocabulary() -> Vec<u8> {
    let mut bytes = piece("<unk>", 0.0, 2);
    bytes.extend(piece("<s>", 0.0, 3));
    bytes.extend(piece("</s>", 0.0, 3));
    bytes.extend(piece("\u{2581}", -3.0, 1));
    bytes.extend(piece("a", -2.0, 1));
    bytes.extend(piece("b", -2.0, 1));
    bytes.extend(piece("\u{2581}a", -1.0, 1));
    bytes
}

fn shortlist(sources: usize, target: u32) -> Vec<u8> {
    let mut bytes = BINARY_SHORTLIST_MAGIC.to_le_bytes().to_vec();
    bytes.extend(0u64.to_le_bytes());
    bytes.extend(1u64.to_le_bytes());
    bytes.extend(1u64.to_le_bytes());
    bytes.extend(((sources + 1) as u64).to_le_bytes());
    bytes.extend(1u64.to_le_bytes());
    bytes.extend(0u64.to_le_bytes());
    for _ in 0..sources {
        bytes.extend(1u64.to_le_bytes());
    }
    bytes.extend(target.to_le_bytes());
    let checksum = marian_hash_u64(&bytes[16..]);
    bytes[8..16].copy_from_slice(&checksum.to_le_bytes());
    bytes
}

fn assets() -> ModelAssets {
    ModelAssets {
        model: archive(&network()),
        vocabularies: VocabularyAssets::Shared(vocabulary()),
        shortlist: shortlist(7, 5),
    }
}

fn refusal(assets: ModelAssets) -> String {
    match Model::from_assets(assets, config) {
        Ok(_) => panic!("expected a refusal"),
        Err(error) => error.sentence(),
    }
}

fn without(name: &str) -> ModelAssets {
    let mut items = network();
    items.retain(|item| item.name != name);
    ModelAssets {
        model: archive(&items),
        ..assets()
    }
}

fn replaced(item: Item) -> ModelAssets {
    let mut items = network();
    items.retain(|other| other.name != item.name);
    items.push(item);
    ModelAssets {
        model: archive(&items),
        ..assets()
    }
}

fn assert_send_sync<T: Send + Sync>() {}

#[test]
fn public_runtime_types_have_expected_thread_safety() {
    assert_send_sync::<Model>();
    assert_send_sync::<Executor>();
}

#[test]
fn executor_uses_one_rayon_thread() {
    let executor = Executor::new().unwrap();
    assert_eq!(executor.execute(rayon::current_num_threads), 1);
}

#[test]
fn executors_return_what_the_operation_returns() {
    let executor = Executor::new().unwrap();
    assert_eq!(executor.execute(|| 42), 42);
    assert_eq!(
        executor.execute(|| rayon::current_thread_index()),
        Some(0)
    );
}

#[test]
fn executors_are_made_of_pools() {
    let pool = rayon::ThreadPoolBuilder::new().num_threads(2).build();
    let executor = Executor::from_pool(pool).unwrap();
    assert_eq!(executor.execute(rayon::current_num_threads), 2);
}

#[test]
fn executors_hand_on_why_there_is_no_pool() {
    let pool = rayon::ThreadPoolBuilder::new()
        .num_threads(1)
        .spawn_handler(|_| Err(std::io::Error::other("no threads left")))
        .build();
    let error = match Executor::from_pool(pool) {
        Ok(_) => panic!("expected a failure"),
        Err(error) => error,
    };
    assert_eq!(error.0.to_string(), "no threads left");
}

#[test]
fn accepts_default_decode_options() {
    validate_decode_options(&DecodeOptions::default()).unwrap();
}

#[test]
fn default_options_decode_greedily() {
    let options = DecodeOptions::default();
    assert_eq!(options.beam_size, 1);
    assert_eq!(f32::from_bits(options.max_length_factor), 3.0);
    assert!(!options.allow_unknown);
    assert_eq!(f32::from_bits(options.length_normalization), 0.0);
    assert_eq!(f32::from_bits(options.word_penalty), 0.0);
}

#[test]
fn rejects_invalid_beam_and_length_factor() {
    let mut options = DecodeOptions::default();
    options.beam_size = 0;
    assert!(validate_decode_options(&options).is_err());

    for factor in [0.0, -1.0, f32::INFINITY, f32::NAN] {
        let mut options = DecodeOptions::default();
        options.max_length_factor = factor.to_bits();
        assert!(validate_decode_options(&options).is_err());
    }
}

#[test]
fn rejects_non_finite_score_options() {
    let mut options = DecodeOptions::default();
    options.length_normalization = f32::NAN.to_bits();
    assert!(validate_decode_options(&options).is_err());
    let mut options = DecodeOptions::default();
    options.word_penalty = f32::INFINITY.to_bits();
    assert!(validate_decode_options(&options).is_err());
}

#[test]
fn option_errors_name_the_option() {
    let mut options = DecodeOptions::default();
    options.word_penalty = f32::INFINITY.to_bits();
    assert_eq!(
        validate_decode_options(&options).unwrap_err().sentence(),
        "invalid translation options: decode score options must be finite"
    );
    options.beam_size = 0;
    assert_eq!(
        validate_decode_options(&options).unwrap_err().sentence(),
        "invalid translation options: beam_size must be at least one"
    );
    options.max_length_factor = 0;
    assert_eq!(
        validate_decode_options(&options).unwrap_err().sentence(),
        "invalid translation options: max_length_factor must be positive and finite"
    );
}

#[test]
fn pads_sources_like_marian() {
    let sources = vec![vec![10, 11, 0], vec![20, 0], vec![0]];
    let (tokens, mask, width, empty) = pad_sources(&sources, 0);
    assert_eq!(width, 3);
    assert_eq!(tokens, [10, 20, 0, 11, 0, 0, 0, 0, 0]);
    assert_eq!(
        mask,
        [true, true, true, true, true, false, true, false, false]
    );
    assert_eq!(empty, [false, false, true]);
}

#[test]
fn pads_nothing_for_an_empty_batch() {
    let (tokens, mask, width, empty) = pad_sources(&[], 0);
    assert!(tokens.is_empty());
    assert!(mask.is_empty());
    assert_eq!(width, 0);
    assert!(empty.is_empty());
}

#[test]
fn models_are_made_of_matching_assets() {
    let model = Model::from_assets(assets(), config).unwrap();
    let parts = model.parts();
    assert_eq!(parts.source_eos, 2);
    assert_eq!(parts.target_eos, 2);
    assert!(parts.vocabularies.is_shared());
    assert_eq!(parts.network.spec.dim, 4);
    assert_eq!(parts.network.encoder.len(), 1);
    assert_eq!(parts.network.decoder.len(), 1);
    assert_eq!(parts.network.encoder[0].attention.head_dim, 2);
    assert_eq!(parts.network.decoder[0].ffn.layers[0].shape(), (4, 8));
    assert_eq!(parts.network.source_embedding.lookup(&[1]).unwrap(), [4, 5, 6, 0]);
    let copy = model.clone();
    assert_eq!(copy.parts().shortlist.first_num, 1);
}

#[test]
fn separate_vocabularies_are_kept_apart() {
    let model = Model::from_assets(
        ModelAssets {
            vocabularies: VocabularyAssets::Separate {
                source: vocabulary(),
                target: vocabulary(),
            },
            ..assets()
        },
        config,
    )
    .unwrap();
    assert!(!model.parts().vocabularies.is_shared());
}

#[test]
fn batches_are_encoded_searched_and_decoded() {
    let model = Model::from_assets(assets(), config).unwrap();
    let options = DecodeOptions::default();
    let batch = model
        .prepare_batch(&["a b".to_owned(), String::new()], &options)
        .unwrap();
    assert_eq!(batch.batch_size, 2);
    assert_eq!(batch.width, 4);
    assert_eq!(batch.tokens, [6, 2, 3, 2, 5, 2, 2, 2]);
    assert_eq!(
        batch.mask,
        [true, true, true, false, true, false, true, false]
    );
    assert_eq!(batch.empty_inputs, [false, true]);
    assert_eq!(batch.shortlist, [0, 1, 2, 3, 4, 5, 6]);

    let output = model.prepare_output(&batch).unwrap();
    assert_eq!(output.linear.shape(), (4, 7));

    let mut search = model.start_search(&batch, &options, 3);
    assert_eq!(search.plan.forbidden, Some(0));
    assert_eq!(search.plan.eos, 2);
    let score = |values: &[f32]| values.iter().map(|value| value.to_bits()).collect::<Vec<_>>();
    let mut scores = score(&[-0.1, -9.0, -9.0, -9.0, -9.0, -9.0, -1.0]);
    scores.extend(score(&[-1.0; 7]));
    assert_eq!(search.advance(&scores), Some(vec![0]));
    assert_eq!(
        search.advance(&score(&[-9.0, -9.0, -1.5, -9.0, -9.0, -9.0, -9.0])),
        None
    );
    let normalized = (0..2)
        .map(|original| {
            search
                .candidates(original)
                .into_iter()
                .map(|(score, _)| score)
                .collect::<Vec<_>>()
        })
        .collect::<Vec<_>>();
    let translations = model
        .finish_batch(search.finish(&normalized).unwrap())
        .unwrap();
    assert_eq!(translations.len(), 2);
    assert_eq!(translations[0].text, "a");
    assert_eq!(translations[0].token_ids, [6]);
    assert_eq!(f32::from_bits(translations[0].score), -1.5);
    assert_eq!(translations[0].stop_reason, StopReason::EndOfSentence);
    assert_eq!(translations[1].text, "");
    assert_eq!(translations[1].stop_reason, StopReason::EndOfSentence);
}

#[test]
fn unknown_tokens_are_forbidden_unless_allowed() {
    let model = Model::from_assets(assets(), config).unwrap();
    let mut options = DecodeOptions::default();
    options.allow_unknown = true;
    let batch = model.prepare_batch(&["a".to_owned()], &options).unwrap();
    assert_eq!(model.start_search(&batch, &options, 1).plan.forbidden, None);
}

#[test]
fn batches_refuse_bad_options() {
    let model = Model::from_assets(assets(), config).unwrap();
    let mut options = DecodeOptions::default();
    options.beam_size = 0;
    let error = match model.prepare_batch(&[], &options) {
        Ok(_) => panic!("expected a refusal"),
        Err(error) => error.sentence(),
    };
    assert_eq!(
        error,
        "invalid translation options: beam_size must be at least one"
    );
    assert_eq!(
        model
            .prepare_batch(&[], &DecodeOptions::default())
            .unwrap()
            .batch_size,
        0
    );
}

#[test]
fn asset_refusals_say_what_is_wrong() {
    assert_eq!(
        refusal(ModelAssets {
            shortlist: shortlist(6, 5),
            ..assets()
        }),
        "invalid lexical shortlist: shortlist source vocabulary size 6 does not match source \
         vocabulary 7"
    );
    assert_eq!(
        refusal(ModelAssets {
            shortlist: shortlist(7, 7),
            ..assets()
        }),
        "invalid lexical shortlist: target ID 7 exceeds target vocabulary 7"
    );
    let mut larger = vocabulary();
    larger.extend(piece("c", -2.0, 1));
    assert_eq!(
        refusal(ModelAssets {
            vocabularies: VocabularyAssets::Separate {
                source: larger,
                target: vocabulary(),
            },
            ..assets()
        }),
        "invalid Marian model: vocabulary sizes (8, 7) do not match model dimensions (7, 7)"
    );
    let mut endless = piece("<unk>", 0.0, 2);
    endless.extend(piece("a", -1.0, 1));
    assert_eq!(
        refusal(ModelAssets {
            vocabularies: VocabularyAssets::Shared(endless.clone()),
            ..assets()
        }),
        "invalid vocabulary: source vocabulary has no EOS token"
    );
    assert_eq!(
        refusal(ModelAssets {
            vocabularies: VocabularyAssets::Separate {
                source: vocabulary(),
                target: endless,
            },
            ..assets()
        }),
        "invalid vocabulary: target vocabulary has no EOS token"
    );
}

#[test]
fn network_refusals_say_what_is_wrong() {
    assert_eq!(
        refusal(without("encoder_l1_self_Wk")),
        "invalid Marian model: missing required tensor encoder_l1_self_Wk"
    );
    assert_eq!(
        refusal(replaced(weights("decoder_ff_logit_out_b", 7, 1))),
        "invalid Marian model: tensor decoder_ff_logit_out_b is not float32"
    );
    assert_eq!(
        refusal(replaced(floats("Wemb_QuantMultA", 2, 1.0))),
        "invalid Marian model: tensor Wemb_QuantMultA is not a scalar"
    );
    assert_eq!(
        refusal(replaced(Item {
            name: "Wemb_QuantMultA".into(),
            type_code: TYPE_INT8,
            shape: vec![1],
            payload: vec![1],
        })),
        "invalid Marian model: tensor Wemb_QuantMultA is not a numeric scalar"
    );
    assert_eq!(
        refusal(replaced(weights("encoder_l1_ffn_W2", 4, 4))),
        "invalid Marian model: encoder_l1_ffn layer 2 has shape 4x4, expected 8x4"
    );
    assert_eq!(
        refusal(replaced(floats("decoder_l1_rnn_ffn_ln_scale", 3, 1.0))),
        "invalid Marian model: layer norm decoder_l1_rnn_ffn_ln has dimension (3, 4), expected 4"
    );
}

#[test]
fn quantized_scalars_are_quotients() {
    let model = Model::from_assets(replaced(weights("Wemb_QuantMultA", 1, 1)), config).unwrap();
    let batch = model
        .prepare_batch(&["a".to_owned()], &DecodeOptions::default())
        .unwrap();
    // The value is zero, so that the factor cannot be used.
    assert!(model.prepare_output(&batch).is_err());
}

#[test]
fn size_checks_come_in_order() {
    let shortlist = Shortlist {
        first_num: 1,
        offsets: vec![0, 1],
        target_ids: vec![9],
    };
    check_sizes(1, 10, &vec![1, 10], &shortlist).unwrap();
    assert!(check_sizes(1, 9, &vec![1, 9], &shortlist).is_err());
    assert!(check_sizes(1, 9, &vec![1, 10], &shortlist).is_err());
    assert!(check_sizes(2, 10, &vec![2, 10], &shortlist).is_err());
}

#[test]
fn unfinished_outputs_hit_the_length_limit() {
    let output = DecodedHypothesis {
        tokens: vec![6],
        score: 7,
        finished: false,
    };
    let translation = finish_translation(output, "a".to_owned());
    assert_eq!(translation.text, "a");
    assert_eq!(translation.token_ids, [6]);
    assert_eq!(translation.score, 7);
    assert_eq!(translation.stop_reason, StopReason::LengthLimit);
}
