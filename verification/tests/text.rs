use linguaspark::rules::{check_part, check_tangles, check_text, find_part};
use linguaspark::text::{Vocabulary, check_size, finish_encoding, to_pieces, to_tokens};
use linguaspark::wire::{
    DENORMALIZER, NORMALIZER, UNUSED, USER_DEFINED, check_merging, check_rules, find_number,
    find_pieces, find_run, find_table,
};

fn number(mut value: u64) -> Vec<u8> {
    let mut bytes = Vec::new();
    while value >= 0x80 {
        bytes.push((value % 0x80) as u8 | 0x80);
        value /= 0x80;
    }
    bytes.push(value as u8);
    bytes
}

fn run(field: u64, content: &[u8]) -> Vec<u8> {
    let mut bytes = number(field * 8 + 2);
    bytes.extend(number(content.len() as u64));
    bytes.extend_from_slice(content);
    bytes
}

fn piece(text: &str, score: f32, kind: u8) -> Vec<u8> {
    let mut content = run(1, text.as_bytes());
    content.push(0x15);
    content.extend_from_slice(&score.to_le_bytes());
    content.extend_from_slice(&[0x18, kind]);
    run(1, &content)
}

fn model() -> Vec<u8> {
    let mut bytes = piece("<unk>", 0.0, 2);
    bytes.extend(piece("<s>", 0.0, 3));
    bytes.extend(piece("</s>", 0.0, 3));
    bytes.extend(piece("\u{2581}", -3.0, 1));
    bytes.extend(piece("a", -2.0, 1));
    bytes.extend(piece("b", -2.0, 1));
    bytes.extend(piece("\u{2581}a", -1.0, 1));
    bytes
}

fn rules(size: u32, len: usize) -> Vec<u8> {
    let mut table = size.to_le_bytes().to_vec();
    table.resize(len, 0);
    run(2, &table)
}

fn refusal(bytes: Vec<u8>) -> String {
    match Vocabulary::load(bytes) {
        Ok(_) => panic!("expected a refusal"),
        Err(error) => error.sentence(),
    }
}

#[test]
fn rejects_invalid_sentencepiece_model() {
    assert!(Vocabulary::load(b"not sentencepiece".to_vec()).is_err());
}

#[test]
fn vocabularies_know_their_special_tokens() {
    let vocabulary = Vocabulary::load(model()).unwrap();
    assert_eq!(vocabulary.len(), 7);
    assert_eq!(vocabulary.eos_id(), Some(2));
    assert_eq!(vocabulary.unk_id(), 0);

    let mut without_eos = piece("x", -1.0, 1);
    without_eos.extend(piece("<unk>", 0.0, 2));
    let vocabulary = Vocabulary::load(without_eos).unwrap();
    assert_eq!(vocabulary.len(), 2);
    assert_eq!(vocabulary.eos_id(), None);
    assert_eq!(vocabulary.unk_id(), 1);
    assert_eq!(
        vocabulary.encode("x", true).unwrap_err().sentence(),
        "translation failed: source vocabulary has no EOS token"
    );
    vocabulary.encode("x", false).unwrap();
}

#[test]
fn texts_become_tokens_and_come_back() {
    let vocabulary = Vocabulary::load(model()).unwrap();
    assert_eq!(vocabulary.encode("a b", false).unwrap(), [6, 3, 5]);
    assert_eq!(vocabulary.encode("a b", true).unwrap(), [6, 3, 5, 2]);
    assert_eq!(vocabulary.encode("", true).unwrap(), [2]);
    assert_eq!(vocabulary.decode(&[6, 3, 5]).unwrap(), "a b");
    assert!(
        vocabulary
            .decode(&[99])
            .unwrap_err()
            .sentence()
            .starts_with("translation failed: ")
    );
}

#[test]
fn refusals_carry_the_reason() {
    assert_eq!(
        refusal(piece("a", 0.0, 1)),
        "invalid vocabulary: model parse error: unk is not defined"
    );
}

#[test]
fn rules_that_break_off_are_refused() {
    for (size, len, broken) in [
        (1024u32, 1024usize, false),
        (1024, 1025, true),
        (1024, 1027, true),
        (1024, 1028, false),
        (1000, 1001, false),
        (0, 2, false),
    ] {
        for number in [NORMALIZER, DENORMALIZER] {
            let mut bytes = model();
            bytes.extend(run(u64::from(number), &rules(size, len)));
            assert_eq!(check_rules(&bytes, number), broken, "{size} {len}");
            if broken {
                assert_eq!(
                    refusal(bytes),
                    "invalid vocabulary: normalization rules break off"
                );
            } else {
                assert!(refusal(bytes).starts_with("invalid vocabulary: model parse error: "));
            }
        }
    }
    assert!(!check_rules(&model(), NORMALIZER));
}

#[test]
fn the_last_run_of_a_field_counts() {
    let mut bytes = run(3, b"first");
    bytes.extend_from_slice(&[0x08, 0x96, 0x01]);
    bytes.extend_from_slice(&[0x11, 1, 2, 3, 4, 5, 6, 7, 8]);
    bytes.extend_from_slice(&[0x1d, 1, 2, 3, 4]);
    bytes.extend(run(3, b"last"));
    let (start, end) = find_run(&bytes, 3).unwrap();
    assert_eq!(&bytes[start..end], b"last");
    assert_eq!(find_run(&bytes, 4), None);
    bytes.push(0x1a);
    assert_eq!(find_run(&bytes, 3), None);
    assert_eq!(find_run(&[0x00, 0x00], 3), None);
    assert_eq!(find_run(&[0xff; 12], 3), None);
    assert_eq!(find_run(&[0x1b], 3), None);
}

#[test]
fn piece_positions_and_tokens_agree() {
    assert_eq!(to_tokens(&[0, 7, 4_294_967_295]), [0, 7, u32::MAX]);
    assert_eq!(to_pieces(&[0, 7]), [0, 7]);
}

#[test]
fn encodings_end_where_they_are_asked_to() {
    assert_eq!(finish_encoding(Ok(vec![4, 5]), Some(2), false).unwrap(), [4, 5]);
    assert_eq!(
        finish_encoding(Ok(vec![4, 5]), Some(2), true).unwrap(),
        [4, 5, 2]
    );
    assert_eq!(
        finish_encoding(Ok(vec![4]), None, true)
            .unwrap_err()
            .sentence(),
        "translation failed: source vocabulary has no EOS token"
    );
    assert_eq!(
        finish_encoding(Err("bad text".into()), Some(2), true)
            .unwrap_err()
            .sentence(),
        "translation failed: bad text"
    );
}

#[test]
fn vocabularies_fit_token_ids() {
    check_size(0xffff_ffff).unwrap();
    assert_eq!(
        check_size(0x1_0000_0000).unwrap_err().sentence(),
        "invalid vocabulary: vocabulary is too large for 32-bit token IDs"
    );
}

/// A table of rules that replace each key with `b`, given the units of its
/// trie. The children of the first unit stand at their bytes; those of a unit
/// with `STEP` stand at its own position, one bit flipped, and their bytes.
fn table(units: &[(usize, u32)]) -> Vec<u8> {
    let mut trie = vec![0u32; 256];
    for &(at, unit) in units {
        trie[at] = unit;
    }
    let mut bytes = 1024u32.to_le_bytes().to_vec();
    bytes.extend(trie.iter().flat_map(|unit| unit.to_le_bytes()));
    bytes.extend_from_slice(b"b\0");
    bytes
}

const STEP: u32 = 1 << 10;
const KEY_END: u32 = 1 << 8;

fn with_rules(number: u32, table: &[u8]) -> Vec<u8> {
    let mut bytes = model();
    bytes.extend(run(u64::from(number), &run(2, table)));
    bytes
}

#[test]
fn rules_for_whole_characters_apply() {
    let letter = table(&[(0x61, STEP + KEY_END + 0x61)]);
    assert!(!check_text(&letter, &vec![], b"abca"));
    let vocabulary = Vocabulary::load(with_rules(NORMALIZER, &letter)).unwrap();
    assert_eq!(
        vocabulary.encode("a", false).unwrap(),
        Vocabulary::load(model()).unwrap().encode("b", false).unwrap()
    );
    let vocabulary = Vocabulary::load(with_rules(DENORMALIZER, &letter)).unwrap();
    assert!(vocabulary.decode(&[4]).unwrap().ends_with('b'));

    // The two bytes of an accented letter.
    let accented = table(&[(0xc3, STEP + 0xc3), (0x6b, STEP + KEY_END + 0xa9)]);
    assert!(!check_text(&accented, &vec![], "a\u{e9}\u{e8}".as_bytes()));
    let vocabulary = Vocabulary::load(with_rules(NORMALIZER, &accented)).unwrap();
    assert_eq!(
        vocabulary.encode("\u{e9}", false).unwrap(),
        vocabulary.encode("b", false).unwrap()
    );
}

fn unusable(vocabulary: &Vocabulary, text: &str) -> String {
    vocabulary.encode(text, false).unwrap_err().sentence()
}

#[test]
fn rules_for_parts_of_characters_refuse_the_texts_they_meet() {
    let first_byte = table(&[(0xc3, STEP + KEY_END + 0xc3)]);
    let plain = Vocabulary::load(model()).unwrap();
    let vocabulary = Vocabulary::load(with_rules(NORMALIZER, &first_byte)).unwrap();
    for text in ["", "a", "a b", "b\u{100}a", "\u{1f600}"] {
        assert_eq!(
            vocabulary.encode(text, true).unwrap(),
            plain.encode(text, true).unwrap(),
            "{text}"
        );
    }
    for text in ["\u{e9}", "a \u{e9}", "\u{1f600}\u{ff}b"] {
        assert_eq!(
            unusable(&vocabulary, text),
            "translation failed: normalization rules tear a character apart"
        );
    }
    assert_eq!(vocabulary.decode(&[6, 3, 5]).unwrap(), "a b");

    // A letter, and then the first byte of another one.
    let behind = table(&[(0x61, STEP + 0x61), (0xa3, STEP + KEY_END + 0xc3)]);
    let vocabulary = Vocabulary::load(with_rules(NORMALIZER, &behind)).unwrap();
    vocabulary.encode("\u{e9}a", false).unwrap();
    unusable(&vocabulary, "a\u{e9}");

    // Where a whole letter has a longer rule, the shorter one does not apply.
    let both = table(&[
        (0xc3, STEP + KEY_END + 0xc3),
        (0x6b, STEP + KEY_END + 0xa9),
    ]);
    let vocabulary = Vocabulary::load(with_rules(NORMALIZER, &both)).unwrap();
    assert_eq!(
        vocabulary.encode("\u{e9}", false).unwrap(),
        plain.encode("b", false).unwrap()
    );
    unusable(&vocabulary, "\u{e8}");

    // A rule without a replacement does not apply.
    let empty = table(&[(0xc3, STEP + KEY_END + 0xc3), (0xc2, 5)]);
    let vocabulary = Vocabulary::load(with_rules(NORMALIZER, &empty)).unwrap();
    vocabulary.encode("\u{e9}", false).unwrap();

    // No text begins with a byte that continues a character.
    let stray = table(&[(0xa9, STEP + KEY_END + 0xa9)]);
    let vocabulary = Vocabulary::load(with_rules(NORMALIZER, &stray)).unwrap();
    vocabulary.encode("\u{e9}", false).unwrap();
}

#[test]
fn symbols_of_a_user_come_before_rules() {
    let first_byte = table(&[(0xc3, STEP + KEY_END + 0xc3)]);
    let mut bytes = with_rules(NORMALIZER, &first_byte);
    bytes.extend(piece("\u{e9}", 0.0, 4));
    assert_eq!(
        find_pieces(&bytes, USER_DEFINED),
        ["\u{e9}".as_bytes().to_vec()]
    );
    let vocabulary = Vocabulary::load(bytes).unwrap();
    assert!(vocabulary.encode("\u{e9}", false).unwrap().contains(&7));
    unusable(&vocabulary, "\u{e8}");
}

#[test]
fn denormalization_rules_refuse_the_texts_they_meet() {
    let first_byte = table(&[(0xc3, STEP + KEY_END + 0xc3)]);
    let mut bytes = with_rules(DENORMALIZER, &first_byte);
    bytes.extend(piece("\u{e9}", -1.0, 1));
    assert_eq!(find_table(&bytes, DENORMALIZER).unwrap(), first_byte);
    let vocabulary = Vocabulary::load(bytes).unwrap();
    assert_eq!(vocabulary.encode("\u{e9}", false).unwrap(), [3, 7]);
    assert!(vocabulary.decode(&[4]).unwrap().ends_with('a'));
    assert_eq!(
        vocabulary.decode(&[4, 7]).unwrap_err().sentence(),
        "translation failed: denormalization rules tear a character apart"
    );
    assert!(
        vocabulary
            .decode(&[7, 99])
            .unwrap_err()
            .sentence()
            .starts_with("translation failed: ")
    );
}

#[test]
fn texts_are_gone_through_from_their_start() {
    let first_byte = table(&[(0xc3, STEP + KEY_END + 0xc3)]);
    let symbol = vec!["x\u{e9}".as_bytes().to_vec(), b"x".to_vec()];
    assert!(check_text(&first_byte, &vec![], "x\u{e9}".as_bytes()));
    assert!(!check_text(&first_byte, &symbol, "x\u{e9}".as_bytes()));
    assert!(check_text(&first_byte, &symbol, "xx\u{e8}".as_bytes()));
    assert!(!check_text(&[], &vec![], "\u{e9}".as_bytes()));
    assert!(!check_text(&[8, 0, 0, 0, 1], &vec![], "\u{e9}".as_bytes()));
}

#[test]
fn merging_models_may_have_unused_pieces() {
    let trainer = run(2, &[0x18, 2]);
    let mut merging = model();
    merging.extend(&trainer);
    assert!(check_merging(&merging));
    assert!(!check_merging(&model()));
    let vocabulary = Vocabulary::load(merging.clone()).unwrap();
    assert_eq!(vocabulary.encode("a", false).unwrap(), [6]);

    // An unused piece is merged, and taken apart again.
    merging.extend(piece("ab", 0.0, 5));
    assert_eq!(find_pieces(&merging, UNUSED), [b"ab".to_vec()]);
    let vocabulary = Vocabulary::load(merging.clone()).unwrap();
    assert_eq!(vocabulary.encode("ab", false).unwrap(), [3, 4, 5]);

    // Another unused piece begins with it.
    merging.extend(piece("aba", 0.0, 5));
    let vocabulary = Vocabulary::load(merging).unwrap();
    assert_eq!(vocabulary.encode("ab", false).unwrap(), [3, 4, 5]);
    assert_eq!(
        unusable(&vocabulary, "aba"),
        "translation failed: unused pieces cannot be merged"
    );

    // Where pairs are not merged, nothing is taken apart.
    let mut unmerged = model();
    unmerged.extend(piece("ab", -1.0, 5));
    unmerged.extend(piece("aba", -1.0, 5));
    Vocabulary::load(unmerged)
        .unwrap()
        .encode("aba", false)
        .unwrap();
}

#[test]
fn pieces_tangle_at_their_edges() {
    let pieces = |texts: &[&str]| -> Vec<Vec<u8>> {
        texts.iter().map(|text| text.as_bytes().to_vec()).collect()
    };
    assert!(check_tangles(&pieces(&["ab", "abc"]), b"xabcx"));
    assert!(check_tangles(&pieces(&["abc", "bc"]), b"abc"));
    assert!(!check_tangles(&pieces(&["ab", "abc"]), b"xabx"));
    assert!(!check_tangles(&pieces(&["abcd", "bc"]), b"abcd"));
    assert!(!check_tangles(&pieces(&["a", "abc"]), b"abc"));
    assert!(!check_tangles(&pieces(&["\u{e9}", "\u{e9}a"]), "\u{e9}a".as_bytes()));
    assert!(!check_tangles(&pieces(&["abc"]), b"abcabc"));
    assert!(find_part(b"abc", b"bc"));
    assert!(!find_part(b"abc", b"cb"));
    assert!(find_part(b"", b""));
    assert!(check_part(b"abc", 1, b"bc"));
    assert!(!check_part(b"abc", 2, b"bc"));
}

#[test]
fn the_last_number_of_a_field_counts() {
    let mut bytes = vec![0x18, 7, 0x18, 0x85, 0x80, 0x80, 0x80, 0x10];
    assert_eq!(find_number(&bytes, 3), Some(5));
    assert_eq!(find_number(&bytes, 4), None);
    bytes.push(0x18);
    assert_eq!(find_number(&bytes, 3), None);
}
