use std::collections::HashSet;

use bloom_search::bloom_filter_collector::{
    BloomFilterCollector, BloomFilterSegmentCollector, CollectorError,
};
use bloomfilter::Bloom;

fn filter(bitmap_size: usize, seed: u8, items: &[&str]) -> Bloom<Vec<u8>> {
    let mut filter = Bloom::new_with_seed(bitmap_size, 10, &[seed; 32]).unwrap();
    for item in items {
        filter.set(&item.as_bytes().to_vec());
    }
    filter
}

fn has(filter: &Bloom<Vec<u8>>, item: &str) -> bool {
    filter.check(&item.as_bytes().to_vec())
}

fn collector(bitmap_size: usize) -> BloomFilterCollector {
    BloomFilterCollector {
        field_name: "trace_id".to_string(),
        expected_items: 10,
        bitmap_size,
    }
}

fn encoding(bitmap: &[u8], hash_count: u8) -> Vec<u8> {
    let mut bytes = vec![1];
    bytes.extend((bitmap.len() as u64).to_le_bytes());
    bytes.extend([hash_count, 0, 0, 0]);
    bytes.extend([5u8; 32]);
    bytes.extend(bitmap);
    bytes
}

#[test]
fn fast_fields_are_the_collected_one() {
    assert_eq!(
        collector(8).fast_field_names(),
        HashSet::from(["trace_id".to_string()])
    );
}

#[test]
fn created_filters_are_blank_and_sized() {
    let created = collector(20).create_bloom_filter().unwrap();
    let bytes = created.to_bytes();
    assert_eq!(bytes.len(), 45 + 20);
    assert_eq!(bytes[..9], [1, 20, 0, 0, 0, 0, 0, 0, 0]);
    assert!(created.number_of_hash_functions() >= 1);
    assert!(bytes[45..].iter().all(|byte| *byte == 0));
    assert!(!has(&created, "a"));
}

#[test]
fn size_for_a_rate_gives_the_filter_for_that_rate() {
    let bitmap_size = Bloom::<Vec<u8>>::compute_bitmap_size(100, 0.001);
    let by_rate = Bloom::<Vec<u8>>::new_for_fp_rate(100, 0.001).unwrap();
    let created = BloomFilterCollector {
        field_name: "f".to_string(),
        expected_items: 100,
        bitmap_size,
    }
    .create_bloom_filter()
    .unwrap();
    assert_eq!(bitmap_size, 180);
    assert_eq!(created.to_bytes().len(), 225);
    assert_eq!(created.number_of_hash_functions(), 10);
    assert_eq!(created.to_bytes()[..13], by_rate.to_bytes()[..13]);
}

#[test]
fn segment_without_column_is_an_error() {
    match collector(8).for_segment::<u8>(None) {
        Err(CollectorError::InternalError(message)) => {
            assert_eq!(message, "failed to find column `trace_id`")
        }
        _ => panic!("expected an internal error"),
    }
}

#[test]
fn segment_with_column_starts_blank() {
    let segment = collector(8).for_segment(Some("column")).unwrap();
    assert_eq!(segment.column, "column");
    assert!(!has(&segment.bloom, "a"));
}

#[test]
fn filter_that_cannot_be_created_is_an_error() {
    let failed: Result<BloomFilterSegmentCollector<u8>, CollectorError> =
        BloomFilterCollector::segment_collector(
            1,
            Err(CollectorError::FilterCreation("no seed")),
        );
    assert!(matches!(failed, Err(CollectorError::FilterCreation("no seed"))));
    let made = BloomFilterCollector::segment_collector(1, Ok(filter(8, 1, &["a"]))).unwrap();
    assert_eq!(made.column, 1);
    assert!(has(&made.bloom, "a"));
}

#[test]
fn scores_are_not_needed() {
    assert!(!collector(8).requires_scoring());
}

#[test]
fn documents_without_term_count_as_the_first_term() {
    assert_eq!(BloomFilterSegmentCollector::<u8>::term_ord(Some(4)), 4);
    assert_eq!(BloomFilterSegmentCollector::<u8>::term_ord(None), 0);
}

#[test]
fn collected_terms_stay_in_the_filter() {
    let mut segment = BloomFilterSegmentCollector { column: (), bloom: filter(30, 3, &[]) };
    let before = segment.bloom.to_bytes();
    for term in ["a", "b", "c"] {
        assert!(!has(&segment.bloom, term));
        segment.collect(&term.as_bytes().to_vec());
        assert!(has(&segment.bloom, term));
    }
    let fruit = segment.harvest();
    assert!(has(&fruit, "a") && has(&fruit, "b") && has(&fruit, "c"));
    assert_eq!(fruit.to_bytes()[..45], before[..45]);
    assert_eq!(fruit.to_bytes(), filter(30, 3, &["c", "a", "b"]).to_bytes());
}

#[test]
fn merge_assign_keeps_both() {
    let mut a = filter(30, 3, &["a"]);
    BloomFilterCollector::merge_assign(&mut a, &filter(30, 3, &["b"]));
    assert!(has(&a, "a") && has(&a, "b"));
    assert_eq!(a.to_bytes(), filter(30, 3, &["a", "b"]).to_bytes());
}

#[test]
fn merge_is_idempotent_and_commutative() {
    let (a, b) = (filter(30, 3, &["a"]), filter(30, 3, &["b"]));
    let mut aa = filter(30, 3, &["a"]);
    BloomFilterCollector::merge_assign(&mut aa, &a);
    assert_eq!(aa.to_bytes(), a.to_bytes());
    let mut ab = filter(30, 3, &["a"]);
    BloomFilterCollector::merge_assign(&mut ab, &b);
    let mut ba = filter(30, 3, &["b"]);
    BloomFilterCollector::merge_assign(&mut ba, &a);
    assert_eq!(ab.to_bytes(), ba.to_bytes());
}

#[test]
fn merge_ors_headers_too() {
    let mut a = filter(3, 1, &[]);
    BloomFilterCollector::merge_assign(&mut a, &filter(1, 2, &[]));
    let bytes = a.to_bytes();
    assert_eq!(bytes.len(), 45 + 3);
    assert_eq!(bytes[1], 3);
    assert_eq!(bytes[13..45], [3; 32]);
}

#[test]
fn merging_with_a_shorter_bitmap_keeps_the_tail() {
    let merged = BloomFilterCollector::merge_many(&[
        Bloom::from_bytes(encoding(&[1, 0x80, 4], 2)).unwrap(),
        Bloom::from_bytes(encoding(&[2], 1)).unwrap(),
        Bloom::from_bytes(encoding(&[4, 1], 4)).unwrap(),
    ])
    .unwrap();
    assert_eq!(merged.to_bytes(), encoding(&[7, 0x81, 4], 7));
}

#[test]
fn merge_with_bytes_reads_the_encoding() {
    let mut a = filter(30, 3, &["a"]);
    BloomFilterCollector::merge_with_bytes(&mut a, filter(30, 3, &["b"]).to_bytes());
    assert_eq!(a.to_bytes(), filter(30, 3, &["a", "b"]).to_bytes());
}

#[test]
fn merge_with_no_bytes_changes_nothing() {
    let mut a = filter(30, 3, &["a"]);
    BloomFilterCollector::merge_with_bytes(&mut a, Vec::new());
    assert_eq!(a.to_bytes(), filter(30, 3, &["a"]).to_bytes());
}

#[test]
fn merge_many_holds_all() {
    let merged = BloomFilterCollector::merge_many(&[
        filter(30, 3, &["a"]),
        filter(30, 3, &["b"]),
        filter(30, 3, &["c"]),
    ])
    .unwrap();
    assert_eq!(merged.to_bytes(), filter(30, 3, &["c", "b", "a"]).to_bytes());
    assert!(BloomFilterCollector::merge_many(&[]).is_none());
    let single = BloomFilterCollector::merge_many(&[filter(30, 3, &["a"])]).unwrap();
    assert_eq!(single.to_bytes(), filter(30, 3, &["a"]).to_bytes());
}

#[test]
fn merge_many_does_not_depend_on_order_or_repetition() {
    let (a, b) = (filter(30, 3, &["a"]), filter(30, 3, &["b"]));
    let ab = BloomFilterCollector::merge_many(&[a.clone(), b.clone()]).unwrap();
    let baab =
        BloomFilterCollector::merge_many(&[b.clone(), a.clone(), a.clone(), b.clone()]).unwrap();
    assert_eq!(ab.to_bytes(), baab.to_bytes());
}

#[test]
fn merge_many_bytes_skips_what_is_no_encoding() {
    let (a, b) = (filter(30, 3, &["a"]).to_bytes(), filter(30, 3, &["b"]).to_bytes());
    let mut other_version = a.clone();
    other_version[0] = 2;
    let mut no_hashes = a.clone();
    no_hashes[9..13].copy_from_slice(&[0; 4]);
    let mut too_long = a.clone();
    too_long.push(0);
    let mut too_big = a.clone();
    too_big[8] = 0xff;
    let parts = [
        &[][..],
        &a[..44],
        &other_version,
        &a,
        &no_hashes,
        &too_long,
        &too_big,
        &b,
    ];
    let merged = BloomFilterCollector::merge_many_bytes(parts.into_iter()).unwrap();
    assert_eq!(merged.to_bytes(), filter(30, 3, &["a", "b"]).to_bytes());
    assert!(BloomFilterCollector::merge_many_bytes([&a[..44]].into_iter()).is_none());
    assert!(BloomFilterCollector::merge_many_bytes(std::iter::empty()).is_none());
}

#[test]
fn merging_encodings_is_merging_filters() {
    let filters = [filter(30, 3, &["a"]), filter(30, 3, &["b", "c"])];
    let by_bytes =
        BloomFilterCollector::merge_many_bytes(filters.iter().map(|f| f.as_slice())).unwrap();
    let by_filter = BloomFilterCollector::merge_many(&filters).unwrap();
    assert_eq!(by_bytes.to_bytes(), by_filter.to_bytes());
}

#[test]
fn fruits_of_segments_are_merged() {
    let merged = collector(30)
        .merge_fruits(vec![filter(30, 3, &["a"]), filter(30, 3, &["b"])])
        .unwrap();
    assert!(has(&merged, "a") && has(&merged, "b"));
    match collector(30).merge_fruits(Vec::new()) {
        Err(CollectorError::InternalError(message)) => {
            assert_eq!(message, "segment_fruits is empty")
        }
        _ => panic!("expected an internal error"),
    }
}

#[test]
fn filters_merge_where_the_size_adds_no_bit() {
    let (three, one, two, four) =
        (filter(3, 1, &[]), filter(1, 1, &[]), filter(2, 1, &[]), filter(4, 1, &[]));
    assert!(BloomFilterCollector::can_merge(&three, &three));
    assert!(BloomFilterCollector::can_merge(&three, &one));
    assert!(BloomFilterCollector::can_merge(&three, &two));
    assert!(!BloomFilterCollector::can_merge(&one, &two));
    assert!(!BloomFilterCollector::can_merge(&three, &four));
    assert!(BloomFilterCollector::can_merge_many(&[three.clone(), one.clone(), two.clone()]));
    assert!(!BloomFilterCollector::can_merge_many(&[two.clone(), one.clone()]));
    assert!(BloomFilterCollector::can_merge_many(&[]));
    assert!(BloomFilterCollector::can_merge_with_bytes(&three, &one.to_bytes()));
    assert!(BloomFilterCollector::can_merge_with_bytes(&three, &[]));
    assert!(!BloomFilterCollector::can_merge_with_bytes(&three, &four.to_bytes()));
    assert!(!BloomFilterCollector::can_merge_with_bytes(&three, &[1]));
    let (a, b, c) = (three.to_bytes(), two.to_bytes(), four.to_bytes());
    assert!(BloomFilterCollector::can_merge_many_bytes(&[&a[..3], &a, &b[1..], &b]));
    assert!(!BloomFilterCollector::can_merge_many_bytes(&[&a, &b, &c]));
    assert!(BloomFilterCollector::can_merge_many_bytes(&[]));
}

#[test]
fn merging_filters_with_the_same_header_is_algebraic() {
    let (a, b, c) = (filter(30, 3, &["a"]), filter(30, 3, &["b"]), filter(30, 3, &["c"]));
    let blank = filter(30, 3, &[]);
    let merge = BloomFilterCollector::merge_blooms;
    assert_eq!(merge(&a, &b).to_bytes(), merge(&b, &a).to_bytes());
    assert_eq!(merge(&a, &b).to_bytes(), filter(30, 3, &["a", "b"]).to_bytes());
    assert_eq!(merge(&merge(&a, &b), &c).to_bytes(), merge(&a, &merge(&b, &c)).to_bytes());
    assert_eq!(merge(&a, &a).to_bytes(), a.to_bytes());
    assert_eq!(merge(&a, &blank).to_bytes(), a.to_bytes());
    assert_eq!(merge(&blank, &a).to_bytes(), a.to_bytes());
}
