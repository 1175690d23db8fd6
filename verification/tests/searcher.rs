use fsearch::cli::SearchMethod;
use fsearch::config::Config;
use fsearch::error::FsearchError;
use fsearch::pattern::{is_excluded_dir, matches_include, name_matches};
use fsearch::searcher::{
    cap, classify_entry, parse_patterns, search_in_content, search_lines, validate, EntryAction,
    EntryKind, RootStatus, SearchMatch, SearchOptions,
};

fn strings(v: &[&str]) -> Vec<String> {
    v.iter().map(|s| s.to_string()).collect()
}

#[test]
fn parse_patterns_trims_and_lowercases() {
    assert_eq!(parse_patterns(" *.PY , ,*.rs,", true), strings(&["*.py", "*.rs"]));
    assert_eq!(parse_patterns("*.PY,*.Rs", false), strings(&["*.PY", "*.Rs"]));
    assert!(parse_patterns("", true).is_empty());
}

#[test]
fn name_matching_wildcards_and_substrings() {
    assert!(name_matches("main.rs", "*.rs", false));
    assert!(!name_matches("main.rs", "*.py", false));
    assert!(name_matches("README.md", "readme", true));
    assert!(!name_matches("README.md", "readme", false));
    assert!(name_matches("Cargo.toml", "c?rgo*", true));
    assert!(name_matches("anything", "", false));
}

#[test]
fn include_filter() {
    assert!(matches_include("x.txt", &vec![], false));
    assert!(matches_include("X.TXT", &strings(&["*.txt"]), true));
    assert!(!matches_include("X.TXT", &strings(&["*.txt"]), false));
    assert!(!matches_include("x.txt", &strings(&["[unclosed"]), false));
    // ignoring case folds the patterns too
    assert!(matches_include("Main.RS", &strings(&["*.RS"]), true));
    assert!(!matches_include("Main.RS", &strings(&["*.rs"]), false));
}

#[test]
fn excluded_directories() {
    let ex = strings(&[".git", "node_*", "[bad"]);
    assert!(is_excluded_dir(".git", &ex));
    assert!(is_excluded_dir("node_modules", &ex));
    // an entry that is not a valid pattern still excludes its exact name
    assert!(is_excluded_dir("[bad", &ex));
    assert!(!is_excluded_dir("src", &ex));
}

#[test]
fn content_lines_are_numbered_from_one() {
    let text = b"first line\nTODO: second\r\nthird\nlast todo";
    let hits = search_lines(text, "todo", true, 10_000);
    assert_eq!(hits, vec![(2, "TODO: second".to_string()), (4, "last todo".to_string())]);
    let hits = search_lines(text, "todo", false, 10_000);
    assert_eq!(hits, vec![(4, "last todo".to_string())]);
}

#[test]
fn long_and_invalid_lines_are_skipped() {
    let mut text = b"match one\n".to_vec();
    text.extend_from_slice(&[0xff, 0xfe, b'm', b'a', b't', b'c', b'h', b'\n']);
    text.extend_from_slice(b"a much longer match line\n");
    let hits = search_lines(&text, "match", false, 10);
    assert_eq!(hits, vec![(1, "match one".to_string())]);
    assert!(search_lines(b"", "x", false, 10).is_empty());
    assert_eq!(search_lines(b"\n\nx\n", "", false, 10).len(), 3);
}

#[test]
fn binary_content_is_not_searched() {
    let opts = SearchOptions::builder("abc".to_string()).search_in_files(true).build();
    assert!(search_in_content(b"abc\0abc", &opts).is_empty());
    assert_eq!(search_in_content(b"xx abc\n", &opts), vec![(1, "xx abc".to_string())]);
}

#[test]
fn entry_decisions() {
    let opts = SearchOptions::builder("*.rs".to_string()).max_depth(2).build();
    let d = classify_entry(&opts, "main.rs", EntryKind::File, SearchMethod::Walkdir, 0);
    assert_eq!(d.action, EntryAction::Report);
    assert!(!d.descend);
    let d = classify_entry(&opts, "target", EntryKind::Dir, SearchMethod::Walkdir, 0);
    assert_eq!(d.action, EntryAction::Skip);
    assert!(!d.descend);
    let d = classify_entry(&opts, "src", EntryKind::Dir, SearchMethod::Recursive, 1);
    assert!(d.descend);
    let d = classify_entry(&opts, "src", EntryKind::Dir, SearchMethod::Recursive, 2);
    assert!(!d.descend);
    let d = classify_entry(&opts, "link.rs", EntryKind::Other, SearchMethod::Recursive, 0);
    assert_eq!(d.action, EntryAction::Skip);
    let d = classify_entry(&opts, "link.rs", EntryKind::Other, SearchMethod::Walkdir, 0);
    assert_eq!(d.action, EntryAction::Report);
    let content = SearchOptions::builder("x".to_string()).search_in_files(true).build();
    let d = classify_entry(&content, "notes.txt", EntryKind::File, SearchMethod::Walkdir, 0);
    assert_eq!(d.action, EntryAction::ScanContent);
    let d = classify_entry(&content, "xdir", EntryKind::Dir, SearchMethod::Walkdir, 0);
    assert_eq!(d.action, EntryAction::Skip);
}

#[test]
fn results_are_capped() {
    let v = vec![
        SearchMatch::Path("a".to_string()),
        SearchMatch::Path("b".to_string()),
        SearchMatch::Content { path: "c".to_string(), lines: vec![(1, "x".to_string())] },
    ];
    let v = cap(v, 2);
    assert_eq!(v.len(), 2);
    assert_eq!(v[1].path(), "b");
    let v = cap(v, 0);
    assert_eq!(v.len(), 2);
    let c = SearchMatch::Content { path: "c".to_string(), lines: vec![] };
    assert!(c.is_content());
    assert!(!SearchMatch::Path("p".to_string()).is_content());
}

#[test]
fn options_from_config() {
    let mut cfg = Config::default();
    cfg.default_include = "*.rs, *.toml".to_string();
    let o = SearchOptions::from_config(&cfg, "src".to_string(), "fn".to_string());
    assert_eq!(o.base_dirs, strings(&["src"]));
    assert_eq!(o.include_patterns, strings(&["*.rs", "*.toml"]));
    assert_eq!(o.exclude_dirs.len(), 7);
    assert_eq!(o.max_depth, 1);
    assert!(!o.search_in_files);
}

#[test]
fn builder_sets_fields() {
    let o = SearchOptions::builder("p".to_string())
        .base_dirs(strings(&["a", "b"]))
        .case_insensitive(false)
        .include_dirs(false)
        .include_patterns(strings(&["*.md"]))
        .exclude_dirs(vec![])
        .max_results(5)
        .build();
    assert_eq!(o.base_dirs, strings(&["a", "b"]));
    assert!(!o.case_insensitive);
    assert!(!o.include_dirs);
    assert_eq!(o.max_results, 5);
    assert!(o.exclude_dirs.is_empty());
    let o = SearchOptions::builder("p".to_string()).base_dir("x".to_string()).build();
    assert_eq!(o.base_dirs, strings(&["x"]));
    assert_eq!(o.binary_check_bytes, 1024);
    assert_eq!(o.max_line_length, 10_000);
}

#[test]
fn missing_base_directory_is_reported() {
    let roots = vec![
        RootStatus { path: "a".to_string(), exists: true, is_dir: true },
        RootStatus { path: "missing".to_string(), exists: false, is_dir: false },
    ];
    match validate(&roots) {
        Err(FsearchError::DirectoryNotFound(p)) => assert_eq!(p, "missing"),
        _ => panic!("expected an error"),
    }
    let fine = vec![RootStatus { path: "a".to_string(), exists: true, is_dir: true }];
    assert!(validate(&fine).is_ok());
}
