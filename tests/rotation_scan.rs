use waa::{
    plan_setup, ActionType, DirEntry, EntryKind, Error, FileIndex, FileInfo, IndexType, RelPath, SetupPlan,
    Timestamp, TreeProbe,
};

fn path(text: &str) -> RelPath {
    RelPath::new(text.split('/').map(|s| s.to_string()).collect()).expect("valid path")
}

fn index(files: &[(&str, i64)]) -> FileIndex {
    let mut idx = FileIndex::new(IndexType::Archive, "/archive".to_string(), ActionType::Real);
    for (p, secs) in files {
        let rel = path(p);
        let name = rel.file_name().clone();
        idx.insert_record(rel, FileInfo::new(&name, Timestamp { secs: *secs, nanos: 0 }, 1));
    }
    idx
}

fn sorted(mut v: Vec<RelPath>) -> Vec<RelPath> {
    v.sort_by(|a, b| a.parts().cmp(b.parts()));
    v
}

#[test]
fn rotation_deletes_only_the_oldest_of_one_more_day() {
    let idx = index(&[
        ("Databases/msgstore-2023-01-01.1.db.crypt14", 1),
        ("Databases/msgstore-increment-3-2023-01-01.1.db.crypt14", 1),
        ("Databases/msgstore-2023-01-02.1.db.crypt14", 2),
        ("Databases/msgstore-2023-01-03.1.db.crypt14", 3),
        ("Databases/msgstore.db.crypt14", 4),
    ]);
    let stale = idx.previous_dbs(2);
    assert_eq!(
        sorted(stale),
        sorted(vec![
            path("Databases/msgstore-2023-01-01.1.db.crypt14"),
            path("Databases/msgstore-increment-3-2023-01-01.1.db.crypt14"),
        ])
    );
    assert!(idx.previous_dbs(3).is_empty());
    assert!(idx.previous_dbs(4).is_empty());
    assert_eq!(idx.previous_dbs(0).len(), 4);
}

#[test]
fn rotation_ignores_names_without_a_valid_date() {
    let idx = index(&[
        ("Databases/msgstore-2023-02-30.1.db.crypt14", 1),
        ("Databases/msgstore-2023-01-02.1.db.crypt14", 2),
        ("Media/msgstore-2020-01-01.1.db.crypt14", 2),
        ("Databases/notes-2020-01-01.txt", 2),
    ]);
    assert!(idx.previous_dbs(0) == vec![path("Databases/msgstore-2023-01-02.1.db.crypt14")]);
}

#[test]
fn current_backup_supersedes_old_incrementals_and_other_formats() {
    let idx = index(&[
        ("Databases/msgstore.db.crypt15", 100),
        ("Databases/msgstore.db.crypt14", 50),
        ("Databases/msgstore-increment-1.db.crypt15", 90),
        ("Databases/msgstore-increment-2.db.crypt15", 110),
        ("Databases/other.db.crypt15", 10),
    ]);
    let stale = idx.superseded_dbs().expect("a full backup exists");
    assert_eq!(
        sorted(stale),
        sorted(vec![path("Databases/msgstore.db.crypt14"), path("Databases/msgstore-increment-1.db.crypt15")])
    );
}

#[test]
fn no_full_backup_is_reported() {
    let mut idx = index(&[("Databases/msgstore-increment-1.db.crypt15", 90)]);
    assert!(idx.superseded_dbs().is_none());
    assert!(matches!(idx.clean_old_dbs(10), Err(Error::NoCurrentDatabase)));
}

#[test]
fn clean_old_dbs_applies_both_steps() {
    let mut idx = index(&[
        ("Databases/msgstore-2023-01-01.1.db.crypt14", 1),
        ("Databases/msgstore-2023-01-02.1.db.crypt14", 2),
        ("Databases/msgstore.db.crypt15", 100),
        ("Databases/msgstore.db.crypt14", 50),
    ]);
    assert!(idx.clean_old_dbs(1).is_ok());
    assert_eq!(
        sorted(idx.get_all_paths()),
        sorted(vec![path("Databases/msgstore-2023-01-02.1.db.crypt14"), path("Databases/msgstore.db.crypt15")])
    );
}

#[test]
fn backups_keep_the_latest_of_each_prefix() {
    let mut idx = index(&[
        ("Backups/chatsettings.db.crypt14", 10),
        ("Backups/chatsettings.db.crypt15", 20),
        ("Backups/wallpapers.backup", 5),
        ("Backups/.hidden.a", 1),
        ("Backups/.hidden.b", 2),
        ("Backups/sub/chatsettings.db.old", 1),
    ]);
    assert_eq!(idx.old_backups(), vec![path("Backups/chatsettings.db.crypt14")]);
    assert!(idx.clean_old_backups().is_ok());
    assert!(!idx.contains(&path("Backups/chatsettings.db.crypt14")));
    assert_eq!(idx.len(), 5);
}

#[test]
fn live_folder_needs_a_database_and_no_marker() {
    let root = "/wa".to_string();
    let good = TreeProbe { exists: true, has_marker: false, is_empty: false, has_database: true };
    assert_eq!(
        plan_setup(IndexType::Original, ActionType::Real, &root, good).expect("valid"),
        SetupPlan { create_root: false, write_marker: false, scan: true }
    );
    let marked = TreeProbe { has_marker: true, ..good };
    assert!(matches!(plan_setup(IndexType::Original, ActionType::Real, &root, marked), Err(Error::NotWhatsAppFolder(p)) if p == root));
    let no_db = TreeProbe { has_database: false, ..good };
    assert!(matches!(plan_setup(IndexType::Original, ActionType::Dry, &root, no_db), Err(Error::NotWhatsAppFolder(_))));
}

#[test]
fn archive_must_be_marked_or_empty() {
    let root = "/archive".to_string();
    let absent = TreeProbe { exists: false, has_marker: false, is_empty: true, has_database: false };
    assert_eq!(
        plan_setup(IndexType::Archive, ActionType::Real, &root, absent).expect("valid"),
        SetupPlan { create_root: true, write_marker: true, scan: true }
    );
    assert_eq!(
        plan_setup(IndexType::Archive, ActionType::Dry, &root, absent).expect("valid"),
        SetupPlan { create_root: false, write_marker: false, scan: false }
    );
    let foreign = TreeProbe { exists: true, has_marker: false, is_empty: false, has_database: false };
    assert!(matches!(plan_setup(IndexType::Archive, ActionType::Real, &root, foreign), Err(Error::NewArchiveFolderNotEmpty(p)) if p == root));
    let marked = TreeProbe { exists: true, has_marker: true, is_empty: false, has_database: false };
    assert_eq!(
        plan_setup(IndexType::Archive, ActionType::Real, &root, marked).expect("valid"),
        SetupPlan { create_root: false, write_marker: false, scan: true }
    );
}

#[test]
fn scan_walks_breadth_first_and_skips_the_root_marker() {
    let mut idx = FileIndex::new(IndexType::Archive, "/archive".to_string(), ActionType::Real);
    idx.insert_record(path("stale"), FileInfo::new("stale", Timestamp { secs: 0, nanos: 0 }, 1));
    let mut scan = idx.begin_scan();
    assert_eq!(idx.len(), 0);
    let root = scan.next_dir().expect("root first");
    assert!(root.is_empty());
    let t = Timestamp { secs: 7, nanos: 0 };
    scan.accept(
        &mut idx,
        &root,
        vec![
            DirEntry { name: ".waa".to_string(), kind: EntryKind::File { modification_time: t, size: 0 } },
            DirEntry { name: "Media".to_string(), kind: EntryKind::Directory },
            DirEntry { name: "link".to_string(), kind: EntryKind::Other },
            DirEntry { name: "top.txt".to_string(), kind: EntryKind::File { modification_time: t, size: 3 } },
        ],
    );
    let media = scan.next_dir().expect("Media next");
    assert_eq!(media, vec!["Media".to_string()]);
    scan.accept(
        &mut idx,
        &media,
        vec![
            DirEntry { name: ".waa".to_string(), kind: EntryKind::File { modification_time: t, size: 1 } },
            DirEntry { name: "IMG-20230615-WA0007.jpg".to_string(), kind: EntryKind::File { modification_time: t, size: 9 } },
        ],
    );
    assert!(scan.next_dir().is_none());
    assert!(scan.is_done());
    assert_eq!(scan.warnings(), &vec![vec!["link".to_string()]]);
    assert_eq!(
        sorted(idx.get_all_paths()),
        sorted(vec![path("top.txt"), path("Media/.waa"), path("Media/IMG-20230615-WA0007.jpg")])
    );
    let img = idx.get(&path("Media/IMG-20230615-WA0007.jpg")).expect("indexed");
    assert_eq!(img.estimate_creation_date(), Timestamp { secs: 1_686_787_200, nanos: 0 });
    assert_eq!(img.get_size(), 9);
}
