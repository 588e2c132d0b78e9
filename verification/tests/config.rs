use linguaspark::inference::network::NetworkSpec;
use linguaspark::model::config::{ModelConfig, bracketed};

fn model_config() -> ModelConfig {
    ModelConfig {
        model_type: "transformer".into(),
        dim_emb: 384,
        dim_vocabs: vec![32000, 32000],
        enc_depth: 6,
        dec_depth: 4,
        transformer_heads: 8,
        transformer_dim_ffn: 1536,
        transformer_ffn_depth: 2,
        transformer_ffn_activation: "relu".into(),
        transformer_decoder_autoreg: "rnn".into(),
        dec_cell: "ssru".into(),
        tied_embeddings: false,
        tied_embeddings_all: false,
        layer_normalization: false,
        transformer_postprocess: String::new(),
        transformer_preprocess: String::new(),
        transformer_postprocess_top: String::new(),
        version: "test".into(),
    }
}

fn config(dim: usize, dec_depth: usize, ffn_dim: usize, tying: &str) -> ModelConfig {
    let mut config = model_config();
    config.dim_emb = dim;
    config.dec_depth = dec_depth;
    config.transformer_dim_ffn = ffn_dim;
    config.transformer_postprocess = "dan".into();
    config.tied_embeddings = tying == "tied-embeddings";
    config.tied_embeddings_all = tying == "tied-embeddings-all";
    config
}

#[test]
fn accepts_a_well_formed_configuration() {
    model_config().validate_well_formed().unwrap();
}

#[test]
fn rejects_invalid_embedding_dimensions() {
    for dim in [0, 2, 383] {
        let mut config = model_config();
        config.dim_emb = dim;
        assert!(config.validate_well_formed().is_err());
    }
}

#[test]
fn rejects_invalid_vocabulary_dimensions() {
    for vocabs in [vec![], vec![32000], vec![32000, 0]] {
        let mut config = model_config();
        config.dim_vocabs = vocabs;
        assert!(config.validate_well_formed().is_err());
    }
}

#[test]
fn rejects_zero_depths() {
    for field in ["enc-depth", "dec-depth", "transformer-ffn-depth"] {
        let mut config = model_config();
        match field {
            "enc-depth" => config.enc_depth = 0,
            "dec-depth" => config.dec_depth = 0,
            _ => config.transformer_ffn_depth = 0,
        }
        assert!(config.validate_well_formed().is_err());
    }
}

#[test]
fn rejects_zero_attention_heads() {
    let mut config = model_config();
    config.transformer_heads = 0;
    assert!(config.validate_well_formed().is_err());
}

#[test]
fn rejects_incompatible_head_dimension() {
    let mut config = model_config();
    config.transformer_heads = 7;
    assert!(config.validate_well_formed().is_err());
}

#[test]
fn dimension_errors_list_the_dimensions() {
    let mut config = model_config();
    config.transformer_heads = 7;
    assert_eq!(
        config.validate_well_formed().unwrap_err().sentence(),
        "invalid Marian model: invalid model dimensions: dim=384, vocabs=[32000, 32000], \
         enc-depth=6, dec-depth=4, heads=7, ffn-dim=1536, ffn-depth=2"
    );
}

#[test]
fn lists_are_bracketed() {
    assert_eq!(bracketed(&[]), "[]");
    assert_eq!(bracketed(&[5]), "[5]");
    assert_eq!(bracketed(&[5, 0, 12]), "[5, 0, 12]");
}

#[test]
fn accepts_supported_mozilla_capabilities() {
    for config in [
        config(256, 2, 1536, "tied-embeddings-all"),
        config(384, 4, 1536, "tied-embeddings"),
        config(512, 2, 2048, "tied-embeddings-all"),
    ] {
        NetworkSpec::from_config(&config).unwrap();
    }
}

#[test]
fn rejects_unsupported_model_features() {
    let base = || config(384, 4, 1536, "tied-embeddings");
    let mut variants = Vec::new();
    let mut config = base();
    config.model_type = "rnn".into();
    variants.push(config);
    let mut config = base();
    config.dec_cell = "gru".into();
    variants.push(config);
    let mut config = base();
    config.transformer_ffn_activation = "gelu".into();
    variants.push(config);
    assert!(
        variants
            .iter()
            .all(|config| NetworkSpec::from_config(config).is_err())
    );
}

#[test]
fn validates_embedding_tying_modes() {
    let mut neither = config(384, 4, 1536, "tied-embeddings");
    neither.tied_embeddings = false;
    assert!(NetworkSpec::from_config(&neither).is_err());

    let mut both = config(384, 4, 1536, "tied-embeddings");
    both.tied_embeddings_all = true;
    NetworkSpec::from_config(&both).unwrap();

    let mut unequal = config(384, 4, 1536, "tied-embeddings-all");
    unequal.dim_vocabs[1] += 1;
    assert!(NetworkSpec::from_config(&unequal).is_err());
}

#[test]
fn specifications_take_over_the_dimensions() {
    let spec = NetworkSpec::from_config(&config(256, 2, 1536, "tied-embeddings-all")).unwrap();
    assert_eq!(spec.dim, 256);
    assert_eq!(spec.heads, 8);
    assert_eq!(spec.encoder_layers, 6);
    assert_eq!(spec.decoder_layers, 2);
    assert_eq!(spec.ffn_dim, 1536);
    assert_eq!(spec.ffn_depth, 2);
    assert_eq!(spec.source_vocab, 32000);
    assert_eq!(spec.target_vocab, 32000);
}

#[test]
fn architecture_errors_quote_the_configuration() {
    let mut config = config(384, 4, 1536, "tied-embeddings");
    config.transformer_preprocess = "d\"n\n".into();
    assert_eq!(
        NetworkSpec::from_config(&config).unwrap_err().sentence(),
        "unsupported model architecture: version=test, type=transformer, autoreg=rnn, cell=ssru, \
         activation=relu, preprocess=\"d\\\"n\\n\", postprocess=\"dan\", postprocess-top=\"\", \
         layer-normalization=false, tied=true, tied-all=false"
    );
}
