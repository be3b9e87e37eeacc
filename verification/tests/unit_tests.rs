use ngram_index::accum::Accumulator;
use ngram_index::catalog::{CagraIndex, CagraIndexMetaData, CagraIndexStatistics};
use ngram_index::posting::{insert_id, intersect_ids, union_ids};
use ngram_index::tokenizer::{contains_chars, tokenize};

fn chars(s: &str) -> Vec<char> {
    s.chars().collect()
}

#[test]
fn tokenize_long_text_yields_windows() {
    let toks = tokenize(&chars("abcd"), 2);
    assert_eq!(toks, vec![chars("ab"), chars("bc"), chars("cd")]);
}

#[test]
fn tokenize_short_text_yields_whole_text() {
    let toks = tokenize(&chars("ab"), 3);
    assert_eq!(toks, vec![chars("ab")]);
}

#[test]
fn tokenize_empty_text_yields_nothing() {
    let toks = tokenize(&chars(""), 3);
    assert!(toks.is_empty());
}

#[test]
fn contains_chars_matches_substrings() {
    assert!(contains_chars(&chars("hello world"), &chars("lo w")));
    assert!(!contains_chars(&chars("hello world"), &chars("low")));
    assert!(contains_chars(&chars("aaa"), &chars("aaa")));
    assert!(!contains_chars(&chars("aa"), &chars("aaa")));
}

#[test]
fn union_keeps_ids_sorted_and_unique() {
    let a = vec![1u64, 3, 5];
    let b = vec![2u64, 3, 6];
    assert_eq!(union_ids(&a, &b), vec![1, 2, 3, 5, 6]);
}

#[test]
fn intersect_keeps_common_ids() {
    let a = vec![1u64, 3, 5, 9];
    let b = vec![2u64, 3, 9, 10];
    assert_eq!(intersect_ids(&a, &b), vec![3, 9]);
}

#[test]
fn insert_is_idempotent() {
    let ids = vec![2u64, 7];
    let once = insert_id(&ids, 5);
    assert_eq!(once, vec![2, 5, 7]);
    let twice = insert_id(&once, 5);
    assert_eq!(twice, vec![2, 5, 7]);
}

#[test]
fn accumulator_memory_estimate_is_monotone_and_resets() {
    let mut acc = Accumulator::new();
    assert_eq!(acc.mem_estimate(), 0);
    acc.add(&chars("abc"), 1);
    let m1 = acc.mem_estimate();
    assert!(m1 > 0);
    acc.add(&chars("abc"), 1);
    let m2 = acc.mem_estimate();
    assert!(m2 >= m1);
    acc.add(&chars("abd"), 2);
    let m3 = acc.mem_estimate();
    assert!(m3 > m2);
    let drained = acc.drain();
    assert_eq!(drained.len(), 2);
    assert_eq!(acc.mem_estimate(), 0);
    assert_eq!(acc.key_count(), 0);
}

#[test]
fn accumulator_drains_sorted_keys_and_rows() {
    let mut acc = Accumulator::new();
    acc.add(&chars("bbb"), 9);
    acc.add(&chars("aaa"), 4);
    acc.add(&chars("bbb"), 2);
    let drained = acc.drain();
    assert_eq!(drained.len(), 2);
    assert_eq!(drained[0].key, chars("aaa"));
    assert_eq!(drained[0].ids, vec![4]);
    assert_eq!(drained[1].key, chars("bbb"));
    assert_eq!(drained[1].ids, vec![2, 9]);
}

#[test]
fn catalog_records_keep_their_fields() {
    let h = CagraIndex::new("uuid-1".to_string(), "artifact".to_string());
    assert_eq!(h.uuid, "uuid-1");
    assert_eq!(h.index, "artifact");

    let md = CagraIndexMetaData::new(
        "idx".to_string(),
        "text_col".to_string(),
        12,
        "sqeuclidean".to_string(),
        "ivf_pq".to_string(),
        128,
    );
    assert_eq!(md.name, "idx");
    assert_eq!(md.column, "text_col");
    assert_eq!(md.dataset_version, 12);
    assert_eq!(md.metric, "sqeuclidean");
    assert_eq!(md.algo, "ivf_pq");
    assert_eq!(md.dimension, 128);

    let st = CagraIndexStatistics { index_type: "CAGRA".to_string() };
    assert_eq!(st.index_type, "CAGRA");
}
