use dbrecon::diff::diff;
use dbrecon::diff::reconcile;
use dbrecon::diff::verdict;
use dbrecon::diff::SourceMap;
use dbrecon::row::AggregateRow;
use dbrecon::row::Checksum;
use dbrecon::row::DiffStatus;
use dbrecon::row::Verdict;

fn whole(v: i128) -> Checksum {
    Checksum { mantissa: v, scale: 0 }
}

fn row(key: u32, count: i64, ca: i128, cb: i128) -> AggregateRow {
    AggregateRow { bucket_key: key, row_count: count, checksum_a: whole(ca), checksum_b: whole(cb) }
}

fn source(rows: &[AggregateRow]) -> SourceMap {
    let mut m = SourceMap::new();
    for r in rows {
        m.insert(*r);
    }
    m
}

#[test]
fn matched_single_key_passes() {
    let a = source(&[row(20240101, 10, 5, 100)]);
    let b = source(&[row(20240101, 10, 5, 100)]);
    let (out, v) = reconcile(&a, &b);
    assert_eq!(out.len(), 1);
    assert_eq!(out[0].bucket_key, 20240101);
    assert_eq!(out[0].status, DiffStatus::Matched);
    assert_eq!(out[0].row_a, Some(row(20240101, 10, 5, 100)));
    assert_eq!(out[0].row_b, Some(row(20240101, 10, 5, 100)));
    assert_eq!(v, Verdict::Pass);
}

#[test]
fn mismatched_count_fails() {
    let a = source(&[row(20240101, 10, 5, 100)]);
    let b = source(&[row(20240101, 11, 5, 100)]);
    let (out, v) = reconcile(&a, &b);
    assert_eq!(out.len(), 1);
    assert_eq!(out[0].status, DiffStatus::Mismatched);
    assert_eq!(v, Verdict::Fail);
}

#[test]
fn key_only_in_first_source_fails() {
    let a = source(&[row(20240101, 10, 5, 100), row(20240102, 3, 1, 9)]);
    let b = source(&[row(20240101, 10, 5, 100)]);
    let (out, v) = reconcile(&a, &b);
    assert_eq!(out.len(), 2);
    assert_eq!(out[0].bucket_key, 20240101);
    assert_eq!(out[0].status, DiffStatus::Matched);
    assert_eq!(out[1].bucket_key, 20240102);
    assert_eq!(out[1].status, DiffStatus::MissingInB);
    assert_eq!(out[1].row_a, Some(row(20240102, 3, 1, 9)));
    assert_eq!(out[1].row_b, None);
    assert_eq!(v, Verdict::Fail);
}

#[test]
fn empty_sources_pass() {
    let a = SourceMap::new();
    let b = SourceMap::new();
    let (out, v) = reconcile(&a, &b);
    assert!(out.is_empty());
    assert_eq!(v, Verdict::Pass);
}

#[test]
fn equal_sources_all_matched() {
    let rows = [row(20240101, 1, 2, 3), row(20240105, 4, 5, 6), row(20240212, 7, 8, 9)];
    let a = source(&rows);
    let b = source(&rows);
    let (out, v) = reconcile(&a, &b);
    assert_eq!(out.len(), 3);
    assert!(out.iter().all(|o| o.status == DiffStatus::Matched));
    assert_eq!(v, Verdict::Pass);
}

#[test]
fn one_sided_keys_are_labeled_by_side() {
    let a = source(&[row(20240101, 1, 1, 1), row(20240102, 2, 2, 2)]);
    let b = source(&[row(20240102, 2, 2, 2), row(20240103, 3, 3, 3)]);
    let (out, v) = reconcile(&a, &b);
    assert_eq!(out.len(), 3);
    assert_eq!(out[0].bucket_key, 20240101);
    assert_eq!(out[0].status, DiffStatus::MissingInB);
    assert_eq!(out[1].status, DiffStatus::Matched);
    assert_eq!(out[2].bucket_key, 20240103);
    assert_eq!(out[2].status, DiffStatus::MissingInA);
    assert_eq!(v, Verdict::Fail);
}

#[test]
fn swapping_sources_swaps_missing_labels_only() {
    let a = source(&[row(20240101, 1, 1, 1), row(20240102, 2, 2, 2)]);
    let b = source(&[row(20240102, 2, 2, 9), row(20240103, 3, 3, 3)]);
    let ab = diff(&a, &b);
    let ba = diff(&b, &a);
    assert_eq!(ab.len(), ba.len());
    for (x, y) in ab.iter().zip(ba.iter()) {
        assert_eq!(x.bucket_key, y.bucket_key);
        let swapped = match x.status {
            DiffStatus::MissingInA => DiffStatus::MissingInB,
            DiffStatus::MissingInB => DiffStatus::MissingInA,
            other => other,
        };
        assert_eq!(y.status, swapped);
    }
}

#[test]
fn diff_twice_gives_identical_output() {
    let a = source(&[row(20240101, 1, 1, 1), row(20240301, 2, 2, 2)]);
    let b = source(&[row(20240101, 1, 1, 1), row(20240201, 5, 5, 5)]);
    let first = diff(&a, &b);
    let second = diff(&a, &b);
    assert_eq!(first, second);
}

#[test]
fn insertion_order_does_not_change_output() {
    let forward = source(&[row(20240101, 1, 1, 1), row(20240102, 2, 2, 2), row(20240103, 3, 3, 3)]);
    let backward = source(&[row(20240103, 3, 3, 3), row(20240101, 1, 1, 1), row(20240102, 2, 2, 2)]);
    let b = source(&[row(20240102, 2, 2, 2)]);
    let out_forward = diff(&forward, &b);
    let out_backward = diff(&backward, &b);
    assert_eq!(out_forward, out_backward);
    for w in out_forward.windows(2) {
        assert!(w[0].bucket_key < w[1].bucket_key);
    }
}

#[test]
fn insert_replaces_existing_key() {
    let mut m = SourceMap::new();
    m.insert(row(20240101, 1, 1, 1));
    m.insert(row(20240101, 9, 9, 9));
    assert_eq!(m.len(), 1);
    let other = SourceMap::new();
    let out = diff(&m, &other);
    assert_eq!(out[0].row_a, Some(row(20240101, 9, 9, 9)));
}

#[test]
fn checksum_scale_participates_in_matching() {
    let ca = Checksum { mantissa: 100, scale: 1 };
    let cb = Checksum { mantissa: 100, scale: 0 };
    let a = source(&[AggregateRow { bucket_key: 20240101, row_count: 1, checksum_a: ca, checksum_b: ca }]);
    let b = source(&[AggregateRow { bucket_key: 20240101, row_count: 1, checksum_a: cb, checksum_b: cb }]);
    let (out, v) = reconcile(&a, &b);
    assert_eq!(out[0].status, DiffStatus::Mismatched);
    assert_eq!(v, Verdict::Fail);
}

#[test]
fn verdict_needs_equal_key_counts() {
    let matched = dbrecon::row::DiffOutcome {
        bucket_key: 20240101,
        status: DiffStatus::Matched,
        row_a: Some(row(20240101, 1, 1, 1)),
        row_b: Some(row(20240101, 1, 1, 1)),
    };
    let outcomes = vec![matched];
    assert_eq!(verdict(&outcomes, 1, 1), Verdict::Pass);
    assert_eq!(verdict(&outcomes, 1, 2), Verdict::Fail);
    let empty: Vec<dbrecon::row::DiffOutcome> = Vec::new();
    assert_eq!(verdict(&empty, 0, 0), Verdict::Pass);
}
