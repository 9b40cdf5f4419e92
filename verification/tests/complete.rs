use wd::complete::{complete, confidence, forget_target, score_all, search, CompleteResult};
use wd::fixed::SCALE;
use wd::history::{DBContent, Stored, DB};
use wd::ranking::rank;
use wd::shell::{init, ShellType, DEFAULT_CONFIDENCE, FISH_FUNCTIONS, POSIX_FUNCTIONS};

fn history(paths: &[&str]) -> DB {
    let record = DBContent { paths: paths.iter().map(|p| p.to_string()).collect() };
    DB::open("test.db".to_string(), Stored::Record(record)).unwrap().db
}

fn texts(db: &DB) -> Vec<&str> {
    db.paths().iter().map(|p| p.as_str()).collect()
}

#[test]
fn test_complete_with_existing_directory() {
    let mut db = history(&[]);
    let completion =
        complete(&mut db, "test_dir", Some("/tmp/x/test_dir".to_string()), DEFAULT_CONFIDENCE, None);
    let results = completion.matches;
    assert_eq!(results.len(), 1);
    assert_eq!(results[0].confidence, SCALE);
    assert_eq!(results[0].path, "/tmp/x/test_dir");
    assert!(completion.persist);
    assert_eq!(texts(&db), vec!["/tmp/x/test_dir"]);
}

#[test]
fn existing_directory_moves_to_front() {
    let mut db = history(&["/a", "/tmp/x", "/b"]);
    let completion = complete(&mut db, "x", Some("/tmp/x".to_string()), DEFAULT_CONFIDENCE, Some(3));
    assert_eq!(completion.matches.len(), 1);
    assert_eq!(completion.matches[0].confidence, SCALE);
    assert!(completion.persist);
    assert_eq!(texts(&db), vec!["/tmp/x", "/a", "/b"]);
}

#[test]
fn test_complete_with_pattern_matching() {
    let mut db = history(&[]);
    db.bump("/home/user/projects/rust-app");
    db.bump("/home/user/projects/python-app");
    db.bump("/home/user/documents/notes");

    let completion = complete(&mut db, "rust", None, DEFAULT_CONFIDENCE, Some(2));
    let results = completion.matches;
    assert!(!results.is_empty());
    assert!(results[0].path.contains("rust"));
    assert_eq!(results.len(), 1);
    assert_eq!(results[0].confidence, 453_788_284_273_999_024);
    // a list was asked for: nothing moves
    assert!(!completion.persist);
    assert_eq!(
        texts(&db),
        vec![
            "/home/user/documents/notes",
            "/home/user/projects/python-app",
            "/home/user/projects/rust-app"
        ]
    );
}

#[test]
fn best_match_moves_to_front() {
    let mut db = history(&["/a/notes", "/a/python-app", "/a/rust-app"]);
    let completion = complete(&mut db, "rust", None, DEFAULT_CONFIDENCE, None);
    assert_eq!(completion.matches.len(), 1);
    assert_eq!(completion.matches[0].path, "/a/rust-app");
    assert!(completion.persist);
    assert_eq!(texts(&db), vec!["/a/rust-app", "/a/notes", "/a/python-app"]);
}

#[test]
fn top_result_for_rust_names_rust() {
    let mut db = history(&["/a/rust-app", "/a/python-app", "/a/notes"]);
    let completion = complete(&mut db, "rust", None, DEFAULT_CONFIDENCE, Some(3));
    assert!(completion.matches[0].path.contains("rust"));
    assert_eq!(completion.matches[0].confidence, 500_000_000_000_000_000);
}

#[test]
fn empty_history_gives_nothing() {
    let mut db = history(&[]);
    let completion = complete(&mut db, "anything", None, DEFAULT_CONFIDENCE, None);
    assert!(completion.matches.is_empty());
    assert!(!completion.persist);
    assert_eq!(db.paths().len(), 0);
    let listed = complete(&mut db, "anything", None, 0, Some(5));
    assert!(listed.matches.is_empty());
    assert!(!listed.persist);
}

#[test]
fn nothing_above_threshold_changes_nothing() {
    let mut db = history(&["/a/notes", "/a/rust-app"]);
    let completion = complete(&mut db, "zzzzzzzz", None, DEFAULT_CONFIDENCE, None);
    assert!(completion.matches.is_empty());
    assert!(!completion.persist);
    assert_eq!(texts(&db), vec!["/a/notes", "/a/rust-app"]);
}

#[test]
fn list_of_none_changes_nothing() {
    let mut db = history(&["/a/notes", "/a/rust-app"]);
    let completion = complete(&mut db, "rust-app", None, DEFAULT_CONFIDENCE, Some(0));
    assert!(completion.matches.is_empty());
    assert!(!completion.persist);
    assert_eq!(texts(&db), vec!["/a/notes", "/a/rust-app"]);
}

#[test]
fn threshold_is_strict() {
    let paths = vec!["/a/rust-app".to_string()];
    assert_eq!(score_all(&paths, "rust"), vec![500_000_000_000_000_000]);
    assert_eq!(search(&paths, "rust", 500_000_000_000_000_000, 1).len(), 0);
    assert_eq!(search(&paths, "rust", 499_999_999_999_999_999, 1).len(), 1);
}

#[test]
fn recency_breaks_a_tie_in_similarity() {
    let paths = vec!["/x/abcd".to_string(), "/y/abcd".to_string(), "/z/abcd".to_string()];
    let found = search(&paths, "abcd", DEFAULT_CONFIDENCE, 5);
    let listed: Vec<(u64, &str)> = found.iter().map(|m| (m.confidence, m.path.as_str())).collect();
    assert_eq!(
        listed,
        vec![
            (1_000_000_000_000_000_000, "/x/abcd"),
            (951_016_267_519_258_175, "/y/abcd"),
            (907_576_568_547_998_049, "/z/abcd")
        ]
    );
}

#[test]
fn a_strong_match_beats_recency() {
    let paths = vec!["/x/abcx".to_string(), "/y/abcd".to_string()];
    let found = search(&paths, "abcd", DEFAULT_CONFIDENCE, 5);
    let listed: Vec<(u64, &str)> = found.iter().map(|m| (m.confidence, m.path.as_str())).collect();
    assert_eq!(
        listed,
        vec![(951_016_267_519_258_175, "/y/abcd"), (750_000_000_000_000_000, "/x/abcx")]
    );
    assert_eq!(search(&paths, "abcd", DEFAULT_CONFIDENCE, 1).len(), 1);
}

#[test]
fn rank_orders_by_score_then_place() {
    assert_eq!(rank(&vec![5, 9, 5, 1, 9], 1), vec![1, 4, 0, 2]);
    assert_eq!(rank(&vec![5, 9, 5, 1, 9], 5), vec![1, 4]);
    assert_eq!(rank(&vec![5, 9, 5, 1, 9], 9), Vec::<usize>::new());
    assert_eq!(rank(&vec![], 0), Vec::<usize>::new());
    assert_eq!(rank(&vec![0, 0, 1], 0), vec![2]);
    assert_eq!(rank(&vec![1, 2, 3, 4], 0), vec![3, 2, 1, 0]);
    assert_eq!(rank(&vec![7, 7, 7], 0), vec![0, 1, 2]);
}

#[test]
fn entries_far_back_keep_their_order() {
    // the same last component a hundred times: behind the horizon the
    // weights are equal, and the more recently used entry still comes first
    let paths: Vec<String> = (0..100).map(|i| format!("/d{i:03}/abcd")).collect();
    let found = search(&paths, "abcd", DEFAULT_CONFIDENCE, 100);
    let listed: Vec<&str> = found.iter().map(|m| m.path.as_str()).collect();
    let expected: Vec<&str> = paths.iter().map(|p| p.as_str()).collect();
    assert_eq!(listed, expected);
    assert!(found[80].confidence > found[81].confidence);
    assert!(found[81].confidence > found[82].confidence);
    assert_eq!(found[82].confidence, found[99].confidence);
}

#[test]
fn confidence_values() {
    assert_eq!(confidence(SCALE, SCALE), SCALE);
    assert_eq!(confidence(500_000_000_000_000_000, 907_576_568_547_998_049), 453_788_284_273_999_024);
    assert_eq!(confidence(0, SCALE), 0);
    assert_eq!(confidence(3, 333_333_333_333_333_333), 0);
    assert_eq!(confidence(3, 333_333_333_333_333_334), 1);
    assert_eq!(confidence(u64::MAX, SCALE), u64::MAX);
}

#[test]
fn complete_result_holds_what_it_was_given() {
    let result = CompleteResult::new(42, "/a".to_string());
    assert_eq!(result.confidence, 42);
    assert_eq!(result.path, "/a");
}

#[test]
fn forget_target_defaults_to_current_directory() {
    assert_eq!(forget_target(None), ".");
    assert_eq!(forget_target(Some("/a/b")), "/a/b");
}

#[test]
fn shells_get_their_functions() {
    assert_eq!(init(&ShellType::Bash), POSIX_FUNCTIONS);
    assert_eq!(init(&ShellType::Zsh), POSIX_FUNCTIONS);
    assert_eq!(init(&ShellType::Fish), FISH_FUNCTIONS);
    assert!(POSIX_FUNCTIONS.starts_with("function wd () {\n  local target\n"));
    assert!(POSIX_FUNCTIONS.contains("target=$(\"${WDBIN:-\"wdbin\"}\" complete \"$@\")"));
    assert!(POSIX_FUNCTIONS.ends_with("    wd \"$@\"\n  fi\n}"));
    assert!(FISH_FUNCTIONS.contains("set target (wdbin complete $argv)"));
    assert!(FISH_FUNCTIONS.ends_with("return $cd_status\nend"));
}
