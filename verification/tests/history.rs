use wd::history::{DBContent, Stored, DB};

fn open_empty(location: &str) -> DB {
    DB::open(location.to_string(), Stored::Missing).unwrap().db
}

fn texts(db: &DB) -> Vec<&str> {
    db.paths().iter().map(|p| p.as_str()).collect()
}

#[test]
fn test_db_open_missing_file() {
    let opened = DB::open("nonexistent.db".to_string(), Stored::Missing).unwrap();
    assert_eq!(opened.db.paths().len(), 0);
    assert!(!opened.corrupted);
    assert_eq!(opened.db.file_path, "nonexistent.db");
}

#[test]
fn test_db_open_corrupted_file() {
    let opened = DB::open("corrupted.db".to_string(), Stored::Corrupted).unwrap();
    assert_eq!(opened.db.paths().len(), 0);
    assert!(opened.corrupted);
}

#[test]
fn open_hands_on_other_failures() {
    let failed = DB::open("locked.db".to_string(), Stored::Failed("permission denied".to_string()));
    assert_eq!(failed.unwrap_err().cause, "permission denied");
}

#[test]
fn new_content_is_empty() {
    assert!(DBContent::new().paths.is_empty());
}

#[test]
fn test_db_write_and_read() {
    let mut db = open_empty("test.db");
    db.bump("/test/path1");
    db.bump("/test/path2");
    let written = db.content.clone();

    let db2 = DB::open("test.db".to_string(), Stored::Record(written)).unwrap().db;
    assert_eq!(db2.paths().len(), 2);
    assert_eq!(db2.paths()[0], "/test/path2");
    assert_eq!(db2.paths()[1], "/test/path1");
}

#[test]
fn record_is_taken_as_it_is() {
    let record = DBContent { paths: vec!["/b".to_string(), "/a".to_string(), "/b".to_string()] };
    let opened = DB::open("test.db".to_string(), Stored::Record(record)).unwrap();
    assert!(!opened.corrupted);
    assert_eq!(texts(&opened.db), vec!["/b", "/a", "/b"]);
}

#[test]
fn test_bump_reorders_paths() {
    let mut db = open_empty("test.db");
    db.bump("/path1");
    db.bump("/path2");
    db.bump("/path3");

    // Bump path1 again, should move to front
    db.bump("/path1");

    assert_eq!(db.paths()[0], "/path1");
    assert_eq!(db.paths()[1], "/path3");
    assert_eq!(db.paths()[2], "/path2");
}

#[test]
fn test_forget_removes_path() {
    let mut db = open_empty("test.db");
    db.bump("/path1");
    db.bump("/path2");
    db.bump("/path3");

    db.forget("/path2");

    assert_eq!(db.paths().len(), 2);
    assert_eq!(db.paths()[0], "/path3");
    assert_eq!(db.paths()[1], "/path1");
}

#[test]
fn bump_twice_is_bump_once() {
    let mut once = open_empty("test.db");
    once.bump("/a").bump("/b").bump("/c");
    let mut twice = once.clone();
    once.bump("/a");
    twice.bump("/a").bump("/a");
    assert_eq!(texts(&once), vec!["/a", "/c", "/b"]);
    assert_eq!(texts(&twice), texts(&once));
}

#[test]
fn bump_returns_to_front() {
    let mut db = open_empty("test.db");
    db.bump("/r2").bump("/r1");
    db.bump("/x").bump("/y").bump("/x");
    assert_eq!(texts(&db), vec!["/x", "/y", "/r1", "/r2"]);
}

#[test]
fn bump_removes_every_earlier_occurrence() {
    let record = DBContent { paths: vec!["/b".to_string(), "/a".to_string(), "/b".to_string()] };
    let mut db = DB::open("test.db".to_string(), Stored::Record(record)).unwrap().db;
    db.bump("/b");
    assert_eq!(texts(&db), vec!["/b", "/a"]);
}

#[test]
fn forget_between_neighbours() {
    let record = DBContent { paths: vec!["/A".to_string(), "/X".to_string(), "/B".to_string()] };
    let mut db = DB::open("test.db".to_string(), Stored::Record(record)).unwrap().db;
    db.forget("/X");
    assert_eq!(texts(&db), vec!["/A", "/B"]);
}

#[test]
fn forget_absent_changes_nothing() {
    let mut db = open_empty("test.db");
    db.bump("/a").bump("/b");
    db.forget("/c");
    assert_eq!(texts(&db), vec!["/b", "/a"]);
    assert_eq!(db.file_path, "test.db");
    let mut empty = open_empty("test.db");
    empty.forget("/c");
    assert_eq!(empty.paths().len(), 0);
}

#[test]
fn test_default_db_path() {
    let path = DB::default_db_path(Some("/home/user/.local/share".to_string()));
    assert!(path.contains("wd/wddb"));
    assert_eq!(path, "/home/user/.local/share/wd/wddb");
}

#[test]
fn default_db_path_without_data_dir() {
    assert_eq!(DB::default_db_path(None), "/tmp/wd/wddb");
}

#[test]
fn default_db_path_adds_no_second_separator() {
    assert_eq!(DB::default_db_path(Some("/data/".to_string())), "/data/wd/wddb");
    assert_eq!(DB::default_db_path(Some(String::new())), "wd/wddb");
}
