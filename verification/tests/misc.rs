use fsearch::binary::looks_binary;
use fsearch::colors::{hex_to_color, Color};
use fsearch::config::Config;
use fsearch::duplicates::DuplicateOptions;
use fsearch::error::FsearchError;
use fsearch::output::{entry_number, hash_preview, Printer};
use fsearch::pathorder::{path_le_str, sort_paths};

#[test]
fn binary_probe() {
    assert!(looks_binary(b"abc\0def"));
    assert!(looks_binary(&[0xff, 0xfe]));
    assert!(!looks_binary(b"plain text\n"));
    assert!(!looks_binary("héllo".as_bytes()));
    assert!(!looks_binary(b""));
}

#[test]
fn hex_colors() {
    assert_eq!(hex_to_color("#FF88FF"), Color::TrueColor { r: 255, g: 136, b: 255 });
    assert_eq!(hex_to_color("00ff88"), Color::TrueColor { r: 0, g: 255, b: 136 });
    assert_eq!(hex_to_color("##0a0B0c"), Color::TrueColor { r: 10, g: 11, b: 12 });
    // exactly six hex digits: a sign is no digit
    assert_eq!(hex_to_color("#+f+f+f"), Color::White);
    assert_eq!(hex_to_color("+F+F+F"), Color::White);
    assert_eq!(hex_to_color("#FFF"), Color::White);
    assert_eq!(hex_to_color("#GG0000"), Color::White);
    assert_eq!(hex_to_color(""), Color::White);
    // six bytes that are not six hex digits: white, whatever they encode
    assert_eq!(hex_to_color("#€abc"), Color::White);
}

#[test]
fn error_messages() {
    assert_eq!(
        FsearchError::DirectoryNotFound("/x".to_string()).message(),
        "🚫 Directory does not exist: /x"
    );
    assert_eq!(FsearchError::InvalidDepth(-3).message(), "❌ Invalid depth: must be >= 0, got -3");
    assert_eq!(
        FsearchError::UnsupportedHashAlgorithm("crc".to_string()).message(),
        "🔍 Hash algorithm 'crc' is not supported (use 'md5' or 'sha256')"
    );
    assert_eq!(FsearchError::Interrupted.message(), "🛑 Operation interrupted by user");
    assert_eq!(
        FsearchError::Io { path: "p".to_string(), source: "denied".to_string() }.message(),
        "📁 IO error on 'p': denied"
    );
}

#[test]
fn listing_numbers_and_previews() {
    assert_eq!(entry_number(7, 120), "007");
    assert_eq!(entry_number(120, 120), "120");
    assert_eq!(entry_number(3, 5), "3");
    assert_eq!(hash_preview("0123456789abcdef0123"), "0123456789abcdef");
    assert_eq!(hash_preview("size:10"), "size:10");
    // characters, not bytes
    assert_eq!(hash_preview("name:ééééééé.txt.bak"), "name:ééééééé.txt");
}

#[test]
fn printer_keeps_its_config() {
    let cfg = Config::default();
    let p = Printer::new(&cfg);
    assert_eq!(p.cfg.color_path, "#FFFF00");
}

#[test]
fn path_order_by_components() {
    assert!(path_le_str("a/b", "a.b"));
    assert!(path_le_str("a/b", "ab/c"));
    assert!(path_le_str("a", "a/b"));
    assert!(!path_le_str("b", "a"));
    // repeated separators, `.` pieces and a trailing `/` change no component
    assert!(path_le_str("a//b", "a/b") && path_le_str("a/b", "a//b"));
    assert!(path_le_str("a/./b/", "a/b") && path_le_str("a/b", "a/./b/"));
    // the root first, then a leading `.`, then `..`, then names
    assert!(path_le_str("/z", "./a"));
    assert!(path_le_str("./z", "../a"));
    assert!(path_le_str("../z", "-a"));
    assert!(!path_le_str("-a", "../z"));
    let v = sort_paths(vec!["a.b".to_string(), "a/b".to_string(), "a".to_string(), "a-b/c".to_string()]);
    assert_eq!(v, vec!["a".to_string(), "a/b".to_string(), "a-b/c".to_string(), "a.b".to_string()]);
}

#[test]
fn duplicate_options_from_config() {
    let mut cfg = Config::default();
    let o = DuplicateOptions::from_config(&cfg, vec!["d".to_string()]).ok().unwrap();
    assert_eq!(o.base_dirs, vec!["d".to_string()]);
    assert_eq!(o.min_size, 1);
    cfg.hash_algorithm = "blake3".to_string();
    assert!(matches!(
        DuplicateOptions::from_config(&cfg, vec![]),
        Err(FsearchError::UnsupportedHashAlgorithm(_))
    ));
}
