use linguaspark::error::LoadError;
use linguaspark::model::shortlist::{
    BINARY_SHORTLIST_MAGIC, Shortlist, marian_hash_u64, u32_at, u64_at, usize_value,
};

fn binary(first_num: u64, best_num: u64, offsets: &[u64], ids: &[u32]) -> Vec<u8> {
    let mut bytes = Vec::new();
    bytes.extend_from_slice(&BINARY_SHORTLIST_MAGIC.to_le_bytes());
    bytes.extend_from_slice(&0u64.to_le_bytes());
    bytes.extend_from_slice(&first_num.to_le_bytes());
    bytes.extend_from_slice(&best_num.to_le_bytes());
    bytes.extend_from_slice(&(offsets.len() as u64).to_le_bytes());
    bytes.extend_from_slice(&(ids.len() as u64).to_le_bytes());
    for offset in offsets {
        bytes.extend_from_slice(&offset.to_le_bytes());
    }
    for id in ids {
        bytes.extend_from_slice(&id.to_le_bytes());
    }
    seal(&mut bytes);
    bytes
}

fn seal(bytes: &mut [u8]) {
    let checksum = marian_hash_u64(&bytes[16..]);
    bytes[8..16].copy_from_slice(&checksum.to_le_bytes());
}

fn load(bytes: Vec<u8>) -> Result<Shortlist, LoadError> {
    Shortlist::load(bytes)
}

fn refusal(bytes: Vec<u8>) -> String {
    match load(bytes) {
        Ok(_) => panic!("expected a refusal"),
        Err(error) => error.sentence(),
    }
}

#[test]
fn loads_valid_shortlist() {
    let shortlist = load(binary(2, 3, &[0, 2, 3], &[4, 5, 6])).unwrap();
    assert_eq!(shortlist.first_num, 2);
    assert_eq!(shortlist.source_vocab_size(), 2);
    assert_eq!(shortlist.candidates(0), Some([4, 5].as_slice()));
    assert_eq!(shortlist.candidates(1), Some([6].as_slice()));
}

#[test]
fn rejects_invalid_magic() {
    let mut bytes = binary(1, 1, &[0, 0], &[]);
    bytes[0] ^= 1;
    assert!(load(bytes).is_err());
}

#[test]
fn rejects_checksum_mismatch() {
    let mut bytes = binary(1, 1, &[0, 1], &[2]);
    bytes[16] ^= 1;
    assert!(load(bytes).is_err());
}

#[test]
fn accepts_odd_target_count_checksum() {
    let shortlist = load(binary(1, 1, &[0, 1], &[7])).unwrap();
    assert_eq!(shortlist.candidates(0), Some([7].as_slice()));
}

#[test]
fn rejects_invalid_offsets() {
    assert!(load(binary(1, 1, &[0, 2, 1], &[4])).is_err());
    assert!(load(binary(1, 1, &[0, 0], &[4])).is_err());
}

#[test]
fn rejects_target_ids_outside_vocabulary() {
    let shortlist = load(binary(1, 1, &[0, 1], &[8])).unwrap();
    assert!(shortlist.validate_target_vocab(8).is_err());
    shortlist.validate_target_vocab(9).unwrap();
}

#[test]
fn generates_frequent_and_lexical_candidates() {
    let shortlist = Shortlist {
        first_num: 2,
        offsets: vec![0, 1, 2],
        target_ids: vec![10, 12],
    };
    let generated = shortlist.generate_shared(&[0, 1], 16, false);
    assert!(generated.starts_with(&[0, 1]));
    assert!(generated.contains(&10));
    assert!(generated.contains(&12));
    assert_eq!(generated.len() % 8, 0);
}

#[test]
fn shared_generation_copies_deduplicates_and_sorts() {
    let shortlist = Shortlist {
        first_num: 1,
        offsets: vec![0; 17],
        target_ids: Vec::new(),
    };
    assert_eq!(
        shortlist.generate_shared(&[9, 9], 16, true),
        [0, 1, 2, 3, 4, 5, 6, 9]
    );
}

#[test]
fn shortlist_refusals_say_what_is_wrong() {
    assert_eq!(
        refusal(vec![0; 47]),
        "invalid lexical shortlist: invalid byte length 47"
    );
    let mut magic = binary(1, 1, &[0, 0], &[]);
    magic[..8].copy_from_slice(&0xabu64.to_le_bytes());
    assert_eq!(refusal(magic), "invalid lexical shortlist: bad magic 0xab");

    let mut long = binary(1, 1, &[0, 0], &[]);
    long.push(0);
    assert_eq!(
        refusal(long),
        "invalid lexical shortlist: header expects 64 bytes, got 65"
    );

    let mut offsets = binary(1, 1, &[0, 0], &[]);
    offsets[32..40].copy_from_slice(&u64::MAX.to_le_bytes());
    assert_eq!(
        refusal(offsets),
        "invalid lexical shortlist: offset table length overflow"
    );

    let mut targets = binary(1, 1, &[0, 0], &[]);
    targets[40..48].copy_from_slice(&u64::MAX.to_le_bytes());
    assert_eq!(
        refusal(targets),
        "invalid lexical shortlist: shortlist length overflow"
    );

    let mut checksum = binary(0, 0, &[0], &[]);
    let actual = marian_hash_u64(&checksum[16..]);
    checksum[8..16].copy_from_slice(&1u64.to_le_bytes());
    assert_eq!(
        refusal(checksum),
        format!("invalid lexical shortlist: checksum mismatch: expected 0x1, got {actual:#x}")
    );

    assert_eq!(
        refusal(binary(1, 1, &[0, 0], &[4])),
        "invalid lexical shortlist: last offset does not equal target ID count"
    );
    assert_eq!(
        refusal(binary(1, 1, &[0, 2, 1], &[4])),
        "invalid lexical shortlist: offset table is not monotonic"
    );
    let shortlist = load(binary(1, 1, &[0, 1], &[8])).unwrap();
    assert_eq!(
        shortlist.validate_target_vocab(8).unwrap_err().sentence(),
        "invalid lexical shortlist: target ID 8 exceeds target vocabulary 8"
    );
}

#[test]
fn shortlist_without_offsets_is_refused() {
    assert_eq!(
        refusal(binary(1, 1, &[], &[])),
        "invalid lexical shortlist: last offset does not equal target ID count"
    );
}

#[test]
fn checksum_of_one_word_is_exact() {
    assert_eq!(marian_hash_u64(&[]), 0);
    assert_eq!(marian_hash_u64(&5u64.to_le_bytes()), 0x9e37_79be);
}

#[test]
fn checksum_leaves_out_an_incomplete_word() {
    let mut bytes = 5u64.to_le_bytes().to_vec();
    bytes.extend_from_slice(&[1, 2, 3, 4]);
    assert_eq!(marian_hash_u64(&bytes), 0x9e37_79be);
}

#[test]
fn fields_are_little_endian_and_bounded() {
    let bytes = [1, 0, 0, 0, 2, 0, 0, 0];
    assert_eq!(u64_at(&bytes, 0).unwrap(), 0x2_0000_0001);
    assert_eq!(u32_at(&bytes, 4).unwrap(), 2);
    assert_eq!(
        u64_at(&bytes, 1).unwrap_err().sentence(),
        "invalid lexical shortlist: unexpected end of shortlist header"
    );
    assert_eq!(
        u32_at(&bytes, 5).unwrap_err().sentence(),
        "invalid lexical shortlist: unexpected end of target IDs"
    );
    assert_eq!(usize_value(9).unwrap(), 9);
}

#[test]
fn candidates_end_at_the_source_vocabulary() {
    let shortlist = load(binary(2, 3, &[0, 2, 3], &[4, 5, 6])).unwrap();
    assert_eq!(shortlist.candidates(2), None);
    assert_eq!(shortlist.candidates(usize::MAX), None);
}

#[test]
fn generated_shortlists_do_not_depend_on_order() {
    let shortlist = load(binary(1, 1, &[0, 2, 3, 3], &[4, 15, 9])).unwrap();
    let forward = shortlist.generate_shared(&[0, 1, 2], 20, true);
    let backward = shortlist.generate_shared(&[2, 1, 0, 1], 20, true);
    assert_eq!(forward, backward);
    assert_eq!(forward, [0, 1, 2, 3, 4, 5, 9, 15]);
}

#[test]
fn generated_shortlists_stop_at_the_vocabulary() {
    let shortlist = Shortlist {
        first_num: 1,
        offsets: vec![0, 1],
        target_ids: vec![3],
    };
    assert_eq!(shortlist.generate_shared(&[0, 7], 5, false), [0, 1, 2, 3, 4]);
    assert_eq!(shortlist.generate_impl(&[0], 0, true), Vec::<u32>::new());
}
