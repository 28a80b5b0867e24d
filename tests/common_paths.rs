use waa::{FileInfo, RelPath, Timestamp};

fn path(text: &str) -> RelPath {
    RelPath::new(text.split('/').map(|s| s.to_string()).collect()).expect("valid path")
}

fn at(secs: i64) -> Timestamp {
    Timestamp { secs, nanos: 0 }
}

#[test]
fn rel_path_rejects_invalid_components() {
    assert!(RelPath::new(vec![]).is_none());
    assert!(RelPath::new(vec!["".to_string()]).is_none());
    assert!(RelPath::new(vec![".".to_string()]).is_none());
    assert!(RelPath::new(vec!["a".to_string(), "..".to_string()]).is_none());
    assert!(RelPath::new(vec!["a/b".to_string()]).is_none());
    let p = path("Media/a.jpg");
    assert_eq!(p.len(), 2);
    assert_eq!(p.first(), "Media");
    assert_eq!(p.file_name(), "a.jpg");
    assert_eq!(p.clone(), p);
    assert!(p != path("Media/b.jpg"));
}

#[test]
fn creation_date_from_name_ignores_modification_time() {
    let a = FileInfo::new("IMG-20230615-WA0007.jpg", at(1_700_000_000), 10);
    let b = FileInfo::new("IMG-20230615-WA0007.jpg", at(5), 10);
    // 2023-06-15T00:00:00Z
    assert_eq!(a.estimate_creation_date(), at(1_686_787_200));
    assert_eq!(b.estimate_creation_date(), at(1_686_787_200));
    assert_eq!(a.get_modification_time(), at(1_700_000_000));
    assert_eq!(a.get_size(), 10);
}

#[test]
fn creation_date_falls_back_to_modification_time() {
    let t = Timestamp { secs: 1_600_000_000, nanos: 123 };
    let a = FileInfo::new("holiday.jpg", t, 3);
    assert_eq!(a.estimate_creation_date(), t);
}

#[test]
fn creation_date_with_invalid_date_falls_back() {
    let t = at(42);
    // February 30th is no date.
    let a = FileInfo::new("IMG-20230230-WA0001.jpg", t, 1);
    assert_eq!(a.estimate_creation_date(), t);
}

#[test]
fn creation_date_needs_the_full_stamp() {
    let t = at(42);
    // No character after the dot.
    assert_eq!(FileInfo::new("IMG-20230615-WA0007.", t, 1).estimate_creation_date(), t);
    // Too few digits after WA.
    assert_eq!(FileInfo::new("IMG-20230615-WA007.jpg", t, 1).estimate_creation_date(), t);
    // A line break anywhere rules the stamp out.
    assert_eq!(FileInfo::new("IMG-20230615-WA0007.jpg\n", t, 1).estimate_creation_date(), t);
}

#[test]
fn creation_date_takes_the_last_stamp() {
    let a = FileInfo::new("x-20200101-WA0001.a-20230615-WA0007.jpg", at(0), 1);
    assert_eq!(a.estimate_creation_date(), at(1_686_787_200));
}

#[test]
fn records_compare_structurally() {
    let a = FileInfo::new("a", at(1), 5);
    let b = FileInfo::new("a", at(1), 5);
    let c = FileInfo::new("a", at(1), 6);
    assert!(a.matches(&b));
    assert!(!a.matches(&c));
    assert_eq!(a, b);
}
