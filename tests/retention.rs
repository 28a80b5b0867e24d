use waa::{
    partition, ActionType, Candidate, DataLimit, FileIndex, FileInfo, FilePredicate, FileQuery, FileScore,
    IndexType, RelPath, Timestamp,
};

fn path(text: &str) -> RelPath {
    RelPath::new(text.split('/').map(|s| s.to_string()).collect()).expect("valid path")
}

fn cand(p: &str, size: u64, protected: bool, score: i128) -> Candidate {
    Candidate { path: path(p), size, protected, score }
}

fn sorted(mut v: Vec<RelPath>) -> Vec<RelPath> {
    v.sort_by(|a, b| a.parts().cmp(b.parts()));
    v
}

const DAY: i64 = 86_400;
const NOW: i64 = 1_700_000_000;

#[test]
fn quota_partition_example() {
    let cands = vec![cand("Media/A", 100, false, 1), cand("Media/B", 200, false, 2), cand("Media/C", 50, false, 3)];
    let (delete, retain) = partition(cands, DataLimit::from_bytes(180));
    assert_eq!(sorted(delete), sorted(vec![path("Media/B"), path("Media/C")]));
    assert_eq!(retain, vec![path("Media/A")]);
}

#[test]
fn no_limit_retains_everything() {
    let cands = vec![cand("Media/A", 100, false, 3), cand("Media/B", 200, false, 2)];
    let (delete, retain) = partition(cands, DataLimit::Infinite);
    assert!(delete.is_empty());
    assert_eq!(retain, vec![path("Media/B"), path("Media/A")]);
}

#[test]
fn limit_above_usage_deletes_nothing() {
    let cands = vec![cand("Media/A", 100, false, 1), cand("Media/B", 200, false, 2)];
    let (delete, retain) = partition(cands, DataLimit::Bytes(1000));
    assert!(delete.is_empty());
    assert_eq!(retain.len(), 2);
}

#[test]
fn zero_limit_keeps_the_most_worth_keeping_file() {
    let cands = vec![cand("Media/A", 100, false, 1), cand("Media/B", 200, false, 2), cand("Media/C", 50, false, 3)];
    let (delete, retain) = partition(cands, DataLimit::Bytes(0));
    assert_eq!(delete.len(), 2);
    assert_eq!(retain, vec![path("Media/A")]);
    let (delete, retain) = partition(vec![cand("Media/A", 100, false, 1)], DataLimit::Bytes(0));
    assert!(delete.is_empty());
    assert_eq!(retain, vec![path("Media/A")]);
    let (delete, retain) = partition(vec![], DataLimit::Bytes(0));
    assert!(delete.is_empty() && retain.is_empty());
}

#[test]
fn limit_reached_exactly_stops_the_walk() {
    let cands = vec![cand("Media/A", 100, false, 1), cand("Media/B", 200, false, 2), cand("Media/C", 50, false, 3)];
    let (delete, retain) = partition(cands, DataLimit::Bytes(300));
    assert_eq!(delete, vec![path("Media/C")]);
    assert_eq!(retain, vec![path("Media/A"), path("Media/B")]);
}

#[test]
fn protected_files_rank_before_better_scores() {
    let cands = vec![cand("Media/small", 1, false, 1), cand("Media/big", 1000, true, 1000)];
    let (delete, retain) = partition(cands, DataLimit::Bytes(1000));
    assert_eq!(delete, vec![path("Media/small")]);
    assert_eq!(retain, vec![path("Media/big")]);
}

fn media_index() -> FileIndex {
    let mut idx = FileIndex::new(IndexType::Original, "/wa".to_string(), ActionType::Real);
    // A large file from yesterday and a small one from a month ago.
    idx.insert_record(path("Media/big.mp4"), FileInfo::new("big.mp4", Timestamp { secs: NOW - DAY, nanos: 0 }, 1000));
    idx.insert_record(path("Media/small.jpg"), FileInfo::new("small.jpg", Timestamp { secs: NOW - 30 * DAY, nanos: 0 }, 10));
    idx.insert_record(path("Databases/msgstore.db.crypt14"), FileInfo::new("msgstore.db.crypt14", Timestamp { secs: NOW, nanos: 0 }, 5000));
    idx
}

#[test]
fn recent_file_kept_over_smaller_old_file() {
    let idx = media_index();
    let mut query = FileQuery::default();
    query.set_order(FileScore::Smaller);
    query.set_limit(DataLimit::Bytes(1000));
    query.set_priority(FilePredicate::age_less_than(7 * DAY as u64, 0));
    let now = Timestamp { secs: NOW, nanos: 0 };
    let (delete, retain) = idx.get_delete_retain_candidates(&query, now, &vec![]);
    assert_eq!(delete, vec![path("Media/small.jpg")]);
    assert_eq!(retain, vec![path("Media/big.mp4")]);
    // Without the predicate the smaller file wins.
    query.set_priority(FilePredicate::none());
    let (delete, retain) = idx.get_delete_retain_candidates(&query, now, &vec![]);
    assert_eq!(delete, vec![path("Media/big.mp4")]);
    assert_eq!(retain, vec![path("Media/small.jpg")]);
    assert_eq!(idx.get_delete_candidates(&query, now, &vec![]), vec![path("Media/big.mp4")]);
    assert_eq!(idx.get_retain_candidates(&query, now, &vec![]), vec![path("Media/small.jpg")]);
}

#[test]
fn newer_order_keeps_newer_files() {
    let idx = media_index();
    let mut query = FileQuery::default();
    query.set_limit(DataLimit::Bytes(1000));
    let now = Timestamp { secs: NOW, nanos: 0 };
    let (delete, retain) = idx.get_delete_retain_candidates(&query, now, &vec![]);
    assert_eq!(delete, vec![path("Media/small.jpg")]);
    assert_eq!(retain, vec![path("Media/big.mp4")]);
}

#[test]
fn decayed_keys_order_the_size_and_age_score() {
    let idx = media_index();
    let media = idx.media_files();
    assert_eq!(media.len(), 2);
    assert_eq!(media[0].0, path("Media/big.mp4"));
    let mut query = FileQuery::default();
    query.set_order(FileScore::SmallerNewer);
    query.set_limit(DataLimit::Bytes(10));
    let now = Timestamp { secs: NOW, nanos: 0 };
    let (delete, retain) = idx.get_delete_retain_candidates(&query, now, &vec![7, 3]);
    assert_eq!(delete, vec![path("Media/big.mp4")]);
    assert_eq!(retain, vec![path("Media/small.jpg")]);
}

#[test]
fn scores_are_exact() {
    let f = FileInfo::new("a.jpg", Timestamp { secs: 1_000, nanos: 999_999_999 }, 77);
    assert_eq!(FileScore::Smaller.evaluate(&f, 5), 77);
    assert_eq!(FileScore::Newer.evaluate(&f, 5), -1_000_999);
    assert_eq!(FileScore::SmallerNewer.evaluate(&f, 5), 5);
}

#[test]
fn age_predicate_counts_nanoseconds() {
    let f = FileInfo::new("a.jpg", Timestamp { secs: 100, nanos: 0 }, 1);
    let pred = FilePredicate::age_less_than(10, 0);
    assert!(pred.matches(&f, Timestamp { secs: 110, nanos: 0 }));
    assert!(!pred.matches(&f, Timestamp { secs: 110, nanos: 1 }));
    assert!(FilePredicate::all().matches(&f, Timestamp { secs: 0, nanos: 0 }));
    assert!(!FilePredicate::none().matches(&f, Timestamp { secs: 0, nanos: 0 }));
}

#[test]
fn data_limit_maps_only_byte_counts() {
    assert_eq!(DataLimit::from_bytes(10).map(|b| b.saturating_sub(3)), DataLimit::Bytes(7));
    assert_eq!(DataLimit::Infinite.map(|b| b + 1), DataLimit::Infinite);
}
