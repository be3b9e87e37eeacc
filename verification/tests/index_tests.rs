use ngram_index::builder::{BuildConfig, Builder};
use ngram_index::errors::IndexError;
use ngram_index::query::search;
use ngram_index::reader::load;

fn chars(s: &str) -> Vec<char> {
    s.chars().collect()
}

fn config(n: usize, budget: usize) -> BuildConfig {
    BuildConfig { ngram_len: n, memory_budget: budget, block_target: 4096 }
}

fn build(rows: &[(u64, Option<&str>)], n: usize, budget: usize) -> (Vec<u8>, usize) {
    let mut b = Builder::new(config(n, budget)).unwrap();
    let ids: Vec<u64> = rows.iter().map(|r| r.0).collect();
    let texts: Vec<Option<Vec<char>>> = rows.iter().map(|r| r.1.map(chars)).collect();
    b.push_batch(&ids, &texts).unwrap();
    let spills = b.spill_count();
    (b.finish(), spills)
}

fn build_batched(rows: &[(u64, Option<&str>)], n: usize, budget: usize, chunk: usize) -> Vec<u8> {
    let mut b = Builder::new(config(n, budget)).unwrap();
    for part in rows.chunks(chunk) {
        let ids: Vec<u64> = part.iter().map(|r| r.0).collect();
        let texts: Vec<Option<Vec<char>>> = part.iter().map(|r| r.1.map(chars)).collect();
        b.push_batch(&ids, &texts).unwrap();
    }
    b.finish()
}

fn run_search(blob: &[u8], needle: &str) -> Vec<u64> {
    let mut rd = load(blob.to_vec()).unwrap();
    search(&mut rd, &chars(needle)).unwrap()
}

#[test]
fn scenario_two_rows() {
    let rows = [(0u64, Some("hello world")), (1u64, Some("goodbye world"))];
    let (blob, _) = build(&rows, 3, 1 << 20);
    assert_eq!(run_search(&blob, "wor"), vec![0, 1]);
    assert_eq!(run_search(&blob, "hello"), vec![0]);
    assert_eq!(run_search(&blob, "xyz"), Vec::<u64>::new());
}

#[test]
fn empty_needle_returns_every_indexed_row() {
    let rows = [
        (3u64, Some("alpha")),
        (7u64, Some("beta")),
        (9u64, Some("gamma")),
    ];
    let (blob, _) = build(&rows, 3, 1 << 20);
    assert_eq!(run_search(&blob, ""), vec![3, 7, 9]);
}

#[test]
fn empty_text_is_indexed_under_no_keys() {
    let rows = [(1u64, Some("abc")), (2u64, Some(""))];
    let (blob, _) = build(&rows, 3, 1 << 20);
    // The empty-text row appears under no key, so not even the empty
    // needle can return it.
    assert_eq!(run_search(&blob, ""), vec![1]);
    assert_eq!(run_search(&blob, "abc"), vec![1]);
}

#[test]
fn null_texts_are_skipped() {
    let rows = [(1u64, Some("abc")), (2u64, None), (3u64, Some("abd"))];
    let (blob, _) = build(&rows, 3, 1 << 20);
    assert_eq!(run_search(&blob, "ab"), vec![1, 3]);
    assert_eq!(run_search(&blob, ""), vec![1, 3]);
}

#[test]
fn short_needle_matches_by_substring() {
    let rows = [
        (0u64, Some("hello world")),
        (1u64, Some("goodbye world")),
        (2u64, Some("wo")),
        (3u64, Some("nothing here")),
    ];
    let (blob, _) = build(&rows, 3, 1 << 20);
    // "wo" is shorter than the n-gram length; rows 0 and 1 hold it
    // inside full windows, row 2 as a whole short text.
    assert_eq!(run_search(&blob, "wo"), vec![0, 1, 2]);
}

#[test]
fn short_text_found_by_short_needle() {
    let rows = [(5u64, Some("ab"))];
    let (blob, _) = build(&rows, 3, 1 << 20);
    assert_eq!(run_search(&blob, "a"), vec![5]);
    assert_eq!(run_search(&blob, "ab"), vec![5]);
}

#[test]
fn batching_independence_bytes_identical() {
    let rows = [
        (0u64, Some("the quick brown fox")),
        (1u64, Some("jumps over")),
        (2u64, Some("the lazy dog")),
        (3u64, None),
        (4u64, Some("quick quick quick")),
    ];
    let whole = build_batched(&rows, 3, 1 << 20, 5);
    let pairs = build_batched(&rows, 3, 1 << 20, 2);
    let singles = build_batched(&rows, 3, 1 << 20, 1);
    assert_eq!(whole, pairs);
    assert_eq!(whole, singles);
}

#[test]
fn spill_independence_bytes_identical() {
    let rows = [
        (0u64, Some("spill me often")),
        (1u64, Some("spill me more")),
        (2u64, Some("and keep the content")),
        (3u64, Some("identical anyway")),
    ];
    let tiny = build_batched(&rows, 3, 0, 1);
    let roomy = build_batched(&rows, 3, 1 << 30, 1);
    assert_eq!(tiny, roomy);

    let mut b = Builder::new(config(3, 0)).unwrap();
    for part in rows.chunks(1) {
        let ids: Vec<u64> = part.iter().map(|r| r.0).collect();
        let texts: Vec<Option<Vec<char>>> = part.iter().map(|r| r.1.map(chars)).collect();
        b.push_batch(&ids, &texts).unwrap();
    }
    assert!(b.spill_count() > 0);
}

#[test]
fn repeated_ngram_contributes_row_once() {
    let rows = [(42u64, Some("aaaa"))];
    let (blob, _) = build(&rows, 3, 1 << 20);
    // "aaaa" holds the trigram "aaa" twice; the posting list carries
    // row 42 exactly once.
    assert_eq!(run_search(&blob, "aaa"), vec![42]);
    let rd = load(blob).unwrap();
    let mut found = false;
    for e in 0..rd.entry_count() {
        if rd.key_at(e) == &chars("aaa") {
            assert_eq!(rd.posting_count(e), 1);
            found = true;
        }
    }
    assert!(found);
}

#[test]
fn no_false_negatives_on_generated_corpus() {
    let texts = [
        "columnar data store",
        "substring search index",
        "posting lists under a budget",
        "merge sorted runs",
        "tiny",
        "a",
        "",
    ];
    let rows: Vec<(u64, Option<&str>)> =
        texts.iter().enumerate().map(|(i, t)| (i as u64 * 10, Some(*t))).collect();
    let blob = build_batched(&rows, 3, 64, 2);
    let mut rd = load(blob).unwrap();
    for (i, t) in texts.iter().enumerate() {
        let cs: Vec<char> = t.chars().collect();
        for start in 0..cs.len() {
            for end in (start + 1)..=cs.len() {
                let needle: Vec<char> = cs[start..end].to_vec();
                let result = search(&mut rd, &needle).unwrap();
                assert!(
                    result.contains(&(i as u64 * 10)),
                    "row {} should be a candidate for a needle it contains",
                    i
                );
            }
        }
    }
}

#[test]
fn unicode_texts_round_trip() {
    let rows = [(1u64, Some("grüße aus köln")), (2u64, Some("日本語のテキスト"))];
    let (blob, _) = build(&rows, 2, 1 << 20);
    assert_eq!(run_search(&blob, "üß"), vec![1]);
    assert_eq!(run_search(&blob, "本語"), vec![2]);
    assert_eq!(run_search(&blob, "köl"), vec![1]);
}

#[test]
fn zero_ngram_length_is_a_config_error() {
    match Builder::new(config(0, 1 << 20)) {
        Err(e) => assert_eq!(e, IndexError::InvalidConfig),
        Ok(_) => panic!("an n-gram length of zero must be rejected"),
    }
}

#[test]
fn mismatched_batch_columns_are_malformed() {
    let mut b = Builder::new(config(3, 1 << 20)).unwrap();
    let ids = vec![1u64, 2u64];
    let texts = vec![Some(chars("only one"))];
    match b.push_batch(&ids, &texts) {
        Err(e) => assert_eq!(e, IndexError::MalformedBatch),
        Ok(_) => panic!("mismatched column lengths must be rejected"),
    }
}

#[test]
fn garbage_blob_is_corrupt() {
    match load(vec![0u8; 10]) {
        Err(e) => assert_eq!(e, IndexError::CorruptIndex),
        Ok(_) => panic!("ten zero bytes are not a valid index"),
    }
}

#[test]
fn truncated_blob_is_corrupt() {
    let rows = [(0u64, Some("hello world"))];
    let (mut blob, _) = build(&rows, 3, 1 << 20);
    blob.pop();
    assert!(load(blob).is_err());
}

#[test]
fn tampered_header_is_corrupt() {
    let rows = [(0u64, Some("hello world"))];
    let (mut blob, _) = build(&rows, 3, 1 << 20);
    blob[0] = blob[0].wrapping_add(1);
    assert!(load(blob).is_err());
}

#[test]
fn largest_row_id_is_indexed() {
    let rows = [(u64::MAX, Some("edge of the range"))];
    let (blob, _) = build(&rows, 3, 1 << 20);
    assert_eq!(run_search(&blob, "range"), vec![u64::MAX]);
    assert_eq!(run_search(&blob, ""), vec![u64::MAX]);
}

#[test]
fn row_seen_across_batches_and_spills_contributes_once() {
    let mut b = Builder::new(config(3, 0)).unwrap();
    b.push_batch(&vec![5u64], &vec![Some(chars("abc"))]).unwrap();
    b.push_batch(&vec![5u64], &vec![Some(chars("abcd"))]).unwrap();
    assert!(b.spill_count() > 0);
    let blob = b.finish();
    let rd = load(blob.clone()).unwrap();
    let mut found = false;
    for e in 0..rd.entry_count() {
        if rd.key_at(e) == &chars("abc") {
            assert_eq!(rd.posting_count(e), 1);
            found = true;
        }
    }
    assert!(found);
    assert_eq!(run_search(&blob, "abc"), vec![5]);
}
