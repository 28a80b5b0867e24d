use waa::{
    is_media_path, ActionType, Error, FileIndex, FileInfo, IndexType, RelPath, Timestamp, TransferOutcome,
};

fn path(text: &str) -> RelPath {
    RelPath::new(text.split('/').map(|s| s.to_string()).collect()).expect("valid path")
}

fn info(name: &str, secs: i64, size: u64) -> FileInfo {
    FileInfo::new(name, Timestamp { secs, nanos: 0 }, size)
}

fn index(mode: ActionType, files: &[(&str, i64, u64)]) -> FileIndex {
    let mut idx = FileIndex::new(IndexType::Archive, "/archive".to_string(), mode);
    for (p, secs, size) in files {
        let rel = path(p);
        let name = rel.file_name().clone();
        idx.insert_record(rel, info(&name, *secs, *size));
    }
    idx
}

fn copy_all(dest: &mut FileIndex, plan: &[(RelPath, FileInfo)]) {
    for (p, expected) in plan {
        let verdict = dest.import_file_with_metadata(p, expected, TransferOutcome::Written(*expected));
        assert!(verdict.result.is_ok());
        assert!(!verdict.discard_destination);
    }
}

#[test]
fn sizes_split_media_from_the_rest() {
    let idx = index(
        ActionType::Real,
        &[("Media/a.jpg", 1, 100), ("Media/.nomedia", 1, 7), ("Databases/msgstore.db.crypt14", 1, 1000), ("Media", 1, 3)],
    );
    assert_eq!(idx.size_bytes(), 1110);
    assert_eq!(idx.media_size_bytes(), 103);
    assert_eq!(idx.non_media_size_bytes(), 1007);
    assert!(is_media_path(&path("Media/x/y.mp4")));
    assert!(!is_media_path(&path("Media/.nomedia")));
    assert!(!is_media_path(&path("Backups/Media")));
}

#[test]
fn sizes_saturate_at_the_largest_count() {
    let idx = index(ActionType::Real, &[("Media/a", 1, u64::MAX), ("Media/b", 1, 5)]);
    assert_eq!(idx.size_bytes(), u64::MAX);
    assert_eq!(idx.media_size_bytes(), u64::MAX);
    assert_eq!(idx.non_media_size_bytes(), 0);
}

#[test]
fn insert_replaces_and_lookup_finds() {
    let mut idx = index(ActionType::Real, &[("a", 1, 1)]);
    idx.insert_record(path("a"), info("a", 2, 2));
    assert_eq!(idx.len(), 1);
    assert_eq!(idx.get(&path("a")), Some(info("a", 2, 2)));
    assert_eq!(idx.get(&path("b")), None);
    assert!(idx.contains(&path("a")));
    assert_eq!(idx.get_all_paths(), vec![path("a")]);
}

#[test]
fn filter_existing_and_missing_keep_order() {
    let idx = index(ActionType::Real, &[("a", 1, 1), ("c", 1, 1)]);
    let list = vec![path("c"), path("b"), path("a"), path("d")];
    assert_eq!(idx.filter_existing(&list), vec![path("c"), path("a")]);
    assert_eq!(idx.filter_missing(&list), vec![path("b"), path("d")]);
}

#[test]
fn remove_file_reports_missing_path() {
    let mut idx = index(ActionType::Real, &[("a", 1, 1)]);
    assert!(idx.remove_file(&path("a")).is_ok());
    assert!(!idx.contains(&path("a")));
    match idx.remove_file(&path("a")) {
        Err(Error::FileMissing(p)) => assert_eq!(p, path("a")),
        other => panic!("unexpected: {:?}", other),
    }
}

#[test]
fn remove_files_stops_at_first_missing() {
    let mut idx = index(ActionType::Real, &[("a", 1, 1), ("b", 1, 1), ("c", 1, 1)]);
    let r = idx.remove_files(&vec![path("a"), path("x"), path("b")]);
    assert!(matches!(r, Err(Error::FileMissing(_))));
    assert!(!idx.contains(&path("a")));
    assert!(idx.contains(&path("b")));
    assert!(idx.remove_files(&vec![path("b"), path("c")]).is_ok());
    assert_eq!(idx.len(), 0);
}

#[test]
fn mirror_plans_changed_files_before_missing_ones() {
    let src = index(ActionType::Real, &[("new", 5, 50), ("same", 1, 10), ("changed", 2, 20)]);
    let dest = index(ActionType::Real, &[("same", 1, 10), ("changed", 1, 20), ("extra", 1, 1)]);
    let plan = dest.mirror_all(&src);
    let paths: Vec<RelPath> = plan.iter().map(|(p, _)| p.clone()).collect();
    assert_eq!(paths, vec![path("changed"), path("new")]);
    assert_eq!(plan[0].1, info("changed", 2, 20));
    assert_eq!(plan[1].1, info("new", 5, 50));
}

#[test]
fn mirroring_twice_copies_nothing_the_second_time() {
    let src = index(ActionType::Real, &[("Media/a.jpg", 5, 50), ("Media/b.jpg", 1, 10), ("x", 2, 20)]);
    let mut dest = index(ActionType::Real, &[("x", 1, 20), ("only_here", 1, 1)]);
    let plan = dest.mirror_all(&src);
    assert_eq!(plan.len(), 3);
    copy_all(&mut dest, &plan);
    assert!(dest.mirror_all(&src).is_empty());
    for p in src.get_all_paths() {
        assert_eq!(dest.get(&p), src.get(&p));
    }
    assert!(dest.contains(&path("only_here")));
}

#[test]
fn mirror_specified_rejects_paths_the_source_lacks() {
    let src = index(ActionType::Real, &[("a", 1, 1)]);
    let dest = index(ActionType::Real, &[]);
    let r = dest.mirror_specified(&src, &vec![path("a"), path("b")]);
    assert!(matches!(r, Err(Error::IndexEntryMissing)));
    let plan = dest.mirror_specified(&src, &vec![path("a"), path("a")]).expect("plan");
    assert_eq!(plan.len(), 1);
}

#[test]
fn failed_transfer_leaves_no_entry() {
    let mut dest = index(ActionType::Real, &[("a", 1, 1)]);
    let expected = info("a", 2, 2);
    let verdict = dest.import_file_with_metadata(
        &path("a"),
        &expected,
        TransferOutcome::Failed(Error::Cp("disk full".to_string(), "/src/a".to_string(), "/dst/a.1.tmp".to_string())),
    );
    assert!(matches!(verdict.result, Err(Error::Cp(..))));
    assert!(verdict.discard_destination);
    assert!(!dest.contains(&path("a")));
}

#[test]
fn failed_transfer_in_dry_mode_changes_nothing() {
    let mut dest = index(ActionType::Dry, &[("a", 1, 1)]);
    let verdict = dest.import_file(&path("a"), TransferOutcome::Failed(Error::Io("gone".to_string(), "/src/a".to_string())));
    assert!(matches!(verdict.result, Err(Error::Io(..))));
    assert!(!verdict.discard_destination);
    assert_eq!(dest.get(&path("a")), Some(info("a", 1, 1)));
}

#[test]
fn size_mismatch_after_copy_is_rejected() {
    let mut dest = index(ActionType::Real, &[]);
    let expected = info("a", 2, 200);
    let actual = info("a", 2, 199);
    let verdict = dest.import_file_with_metadata(&path("a"), &expected, TransferOutcome::Written(actual));
    match verdict.result {
        Err(Error::FileMismatch(p)) => assert_eq!(p, path("a")),
        other => panic!("unexpected: {:?}", other),
    }
    assert!(verdict.discard_destination);
    assert!(!dest.contains(&path("a")));
}

#[test]
fn imported_record_equals_the_record_read_back() {
    let mut dest = index(ActionType::Real, &[]);
    let expected = info("IMG-20230615-WA0007.jpg", 1_700_000_000, 10);
    let reread = FileInfo::new("IMG-20230615-WA0007.jpg", Timestamp { secs: 1_700_000_000, nanos: 0 }, 10);
    let verdict = dest.import_file_with_metadata(&path("Media/IMG-20230615-WA0007.jpg"), &expected, TransferOutcome::Written(reread));
    assert!(verdict.result.is_ok());
    assert_eq!(dest.get(&path("Media/IMG-20230615-WA0007.jpg")), Some(reread));
}

#[test]
fn dry_mode_records_the_source_without_comparing() {
    let mut dest = index(ActionType::Dry, &[]);
    let expected = info("a", 2, 200);
    let source = info("a", 3, 7);
    let verdict = dest.import_file_with_metadata(&path("a"), &expected, TransferOutcome::Written(source));
    assert!(verdict.result.is_ok());
    assert_eq!(dest.get(&path("a")), Some(source));
}

#[test]
fn import_without_metadata_records_what_was_written() {
    let mut dest = index(ActionType::Real, &[]);
    let written = info("a", 9, 9);
    let verdict = dest.import_file(&path("a"), TransferOutcome::Written(written));
    assert!(verdict.result.is_ok());
    assert_eq!(dest.get(&path("a")), Some(written));
}
