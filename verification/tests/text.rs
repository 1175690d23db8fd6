use fsearch::config::{annotate_default, split_csv, Config};
use fsearch::text::{str_concat, str_contains, trimmed, u64_decimal};

#[test]
fn split_csv_drops_empty_items() {
    assert_eq!(split_csv(" a , b,,c ,"), vec!["a".to_string(), "b".to_string(), "c".to_string()]);
    assert!(split_csv("").is_empty());
    assert!(split_csv(" , ,").is_empty());
    assert_eq!(split_csv("\u{3000}x\t"), vec!["x".to_string()]);
}

#[test]
fn excluded_dirs_from_config() {
    let cfg = Config::default();
    assert_eq!(
        cfg.excluded_dirs(),
        vec![".git", "node_modules", ".svn", "__pycache__", ".hg", "target", ".cache"]
            .into_iter()
            .map(String::from)
            .collect::<Vec<_>>()
    );
}

#[test]
fn config_defaults() {
    let cfg = Config::default();
    assert_eq!(cfg.default_depth, 1);
    assert_eq!(cfg.default_method, 1);
    assert!(cfg.case_insensitive);
    assert_eq!(cfg.binary_check_bytes, 1024);
    assert_eq!(cfg.hash_algorithm, "sha256");
    assert_eq!(cfg.hash_buffer_size, 65_536);
    assert_eq!(cfg.dup_min_size, 1);
    assert_eq!(cfg.color_index, "#FF88FF");
    assert_eq!(cfg.default_include, "");
}

#[test]
fn annotated_default_config() {
    let raw = "a = 1\n\n[section]\nb = \"x\"\n";
    let out = annotate_default(raw, "/home/u/.config/fsearch/config.toml");
    assert_eq!(
        out,
        "# fsearch configuration  (/home/u/.config/fsearch/config.toml)\n\
         # All values are defaults. Remove the leading '#' to override.\n\n\
         # a = 1\n\n[section]\n# b = \"x\""
    );
}

#[test]
fn small_string_helpers() {
    assert_eq!(trimmed("  x y \n"), "x y");
    assert_eq!(str_concat("ab", "cd"), "abcd");
    assert!(str_contains("haystack", "st"));
    assert!(!str_contains("hay", "haystack"));
    assert_eq!(u64_decimal(0), "0");
    assert_eq!(u64_decimal(18446744073709551615), "18446744073709551615");
}

#[test]
fn csv_items_round_trip() {
    let items = split_csv(" *.rs , ,docs/*.md,, a b ");
    assert_eq!(items, vec!["*.rs".to_string(), "docs/*.md".to_string(), "a b".to_string()]);
    assert!(items.iter().all(|x| !x.is_empty() && x.trim() == x && !x.contains(',')));
    assert_eq!(split_csv(&items.join(",")), items);
    assert!(split_csv("").is_empty());
}
