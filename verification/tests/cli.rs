use fsearch::cli::{
    DupAlgo, DupArgs, DupMode, FindArgs, SearchMethod,
};
use fsearch::config::Config;
use fsearch::duplicates::{DuplicateMode, HashAlgorithm};

fn strings(v: &[&str]) -> Vec<String> {
    v.iter().map(|s| s.to_string()).collect()
}

fn find_args(paths: &[&str], flags: &[&str]) -> FindArgs {
    FindArgs {
        pattern: "TODO".to_string(),
        paths: strings(paths),
        path_flags: strings(flags),
        method: SearchMethod::Walkdir,
        case_insensitive: false,
        case_sensitive: false,
        depth: 3,
        no_dir: true,
        search_in_files: true,
        include_globs: String::new(),
        exclude: String::new(),
        max_results: 0,
        verbose: false,
    }
}

fn dup_args(paths: &[&str], flags: &[&str]) -> DupArgs {
    DupArgs {
        paths: strings(paths),
        path_flags: strings(flags),
        mode: DupMode::Name,
        algo: DupAlgo::Md5,
        depth: 10,
        include_globs: "*.jpg, *.png".to_string(),
        exclude: "dist".to_string(),
        min_size: 1,
        max_size: 0,
        skip_binary: true,
        max_results: 20,
        verbose: false,
    }
}

#[test]
fn resolved_paths_merge_without_repeats() {
    let a = find_args(&["./src", "./tests", "./src"], &["./tests", "./lib"]);
    assert_eq!(a.resolved_paths(), strings(&["./src", "./tests", "./lib"]));
    let d = dup_args(&[], &["/a", "/b", "/a"]);
    assert_eq!(d.resolved_paths(), strings(&["/a", "/b"]));
}

#[test]
fn resolved_paths_default_to_current_dir() {
    assert_eq!(find_args(&[], &[]).resolved_paths(), strings(&["."]));
    assert_eq!(dup_args(&[], &[]).resolved_paths(), strings(&["."]));
}

#[test]
fn find_arguments_make_search_options() {
    let cfg = Config::default();
    let mut a = find_args(&["src"], &[]);
    a.include_globs = "*.PY,*.Rs".to_string();
    a.exclude = "dist, build".to_string();
    let o = a.search_options(&cfg);
    // case-insensitive comes from the configuration here
    assert!(o.case_insensitive);
    assert_eq!(o.include_patterns, strings(&["*.py", "*.rs"]));
    assert_eq!(o.exclude_dirs.len(), 9);
    assert_eq!(o.exclude_dirs[7], "dist");
    assert!(!o.include_dirs);
    assert_eq!(o.max_depth, 3);
    a.case_sensitive = true;
    a.case_insensitive = true;
    let o = a.search_options(&cfg);
    assert!(!o.case_insensitive);
    assert_eq!(o.include_patterns, strings(&["*.PY", "*.Rs"]));
    a.max_results = 4;
    assert_eq!(a.search_options(&cfg).max_results, 4);
}

#[test]
fn dup_arguments_make_duplicate_options() {
    let cfg = Config::default();
    let o = dup_args(&["a"], &["b"]).duplicate_options(&cfg);
    assert_eq!(o.base_dirs, strings(&["a", "b"]));
    assert_eq!(o.mode, DuplicateMode::Name);
    assert_eq!(o.algorithm, HashAlgorithm::Md5);
    assert_eq!(o.include_patterns, strings(&["*.jpg", "*.png"]));
    assert_eq!(o.exclude_dirs.last().unwrap(), "dist");
    assert_eq!(o.buffer_size, 65_536);
    assert!(o.skip_binary);
    assert_eq!(o.max_results, 20);
}
