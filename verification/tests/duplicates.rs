use fsearch::digest::ContentHasher;
use fsearch::duplicates::{
    admits_file, content_candidates, keyed_by_content, dedup_by_path, name_wastes_fit, finish_scan, group_by_name,
    group_by_size, human_bytes, size_wastes_fit, keyed_wastes_fit, scan_by_content, scan_by_name, scan_by_size,
    validate_roots, DuplicateGroup, DuplicateMode, DuplicateOptions, FileEntry, HashAlgorithm,
    KeyedFile,
};
use fsearch::error::FsearchError;
use fsearch::searcher::RootStatus;

fn entry(path: &str, name: &str, size: u64) -> FileEntry {
    FileEntry { path: path.to_string(), name: name.to_string(), size }
}

fn keyed(key: &str, size: u64, path: &str) -> KeyedFile {
    KeyedFile { key: key.to_string(), size, path: path.to_string() }
}

fn digest_hex(algo: HashAlgorithm, data: &[u8]) -> String {
    let mut h = ContentHasher::new(algo);
    h.update(data);
    h.finish()
}

#[test]
fn human_bytes_formatting() {
    assert_eq!(human_bytes(0), "0 B");
    assert_eq!(human_bytes(512), "512 B");
    assert_eq!(human_bytes(1024), "1.0 KiB");
    assert_eq!(human_bytes(1024 * 1024), "1.0 MiB");
}

#[test]
fn human_bytes_units_and_rounding() {
    assert_eq!(human_bytes(1), "1 B");
    assert_eq!(human_bytes(1023), "1023 B");
    assert_eq!(human_bytes(1536), "1.5 KiB");
    // 1280 / 1024 = 1.25 exactly: ties go to the even digit
    assert_eq!(human_bytes(1280), "1.2 KiB");
    assert_eq!(human_bytes(1048575), "1024.0 KiB");
    assert_eq!(human_bytes(1024 * 1024 * 1024), "1.0 GiB");
    assert_eq!(human_bytes(1024u64.pow(4)), "1.0 TiB");
    assert_eq!(human_bytes(1024u64.pow(5)), "1024.0 TiB");
    assert_eq!(human_bytes(4404019), "4.2 MiB");
}

#[test]
fn hash_file_md5_and_sha256() {
    let md5 = digest_hex(HashAlgorithm::Md5, b"test content");
    let sha256 = digest_hex(HashAlgorithm::Sha256, b"test content");
    assert_eq!(md5.len(), 32);
    assert_eq!(sha256.len(), 64);
}

#[test]
fn digests_of_known_inputs() {
    assert_eq!(digest_hex(HashAlgorithm::Md5, b""), "d41d8cd98f00b204e9800998ecf8427e");
    assert_eq!(
        digest_hex(HashAlgorithm::Sha256, b""),
        "e3b0c44298fc1c149afbf4c8996fb92427ae41e4649b934ca495991b7852b855"
    );
    assert_eq!(digest_hex(HashAlgorithm::Md5, b"abc"), "900150983cd24fb0d6963f7d28e17f72");
}

#[test]
fn digest_does_not_depend_on_chunking() {
    let mut h = ContentHasher::new(HashAlgorithm::Sha256);
    h.update(b"hello ");
    h.update(b"");
    h.update(b"world");
    assert_eq!(h.finish(), digest_hex(HashAlgorithm::Sha256, b"hello world"));
}

#[test]
fn hash_algorithm_names() {
    assert_eq!(HashAlgorithm::default(), HashAlgorithm::Sha256);
    assert_eq!(DuplicateMode::default(), DuplicateMode::Content);
    assert_eq!(HashAlgorithm::Md5.as_str(), "md5");
    assert_eq!(HashAlgorithm::Sha256.as_str(), "sha256");
    assert!(matches!(HashAlgorithm::parse("MD5"), Ok(HashAlgorithm::Md5)));
    for a in [HashAlgorithm::Md5, HashAlgorithm::Sha256] {
        assert!(matches!(HashAlgorithm::parse(a.as_str()), Ok(b) if b == a));
    }
    assert!(matches!("Sha256".parse::<HashAlgorithm>(), Ok(HashAlgorithm::Sha256)));
    match HashAlgorithm::parse("CRC32") {
        Err(FsearchError::UnsupportedHashAlgorithm(n)) => assert_eq!(n, "crc32"),
        _ => panic!("expected an unsupported algorithm"),
    }
}

#[test]
fn detects_identical_files_single_dir() {
    // a.txt and b.txt share content, c.txt differs
    let hashed = vec![
        keyed(&digest_hex(HashAlgorithm::Sha256, b"hello world"), 11, "d/a.txt"),
        keyed(&digest_hex(HashAlgorithm::Sha256, b"hello world"), 11, "d/b.txt"),
    ];
    assert!(keyed_wastes_fit(&hashed));
    let (groups, summary) = scan_by_content(&hashed, 3, 1, 0);
    assert_eq!(groups.len(), 1);
    assert_eq!(groups[0].paths, vec!["d/a.txt".to_string(), "d/b.txt".to_string()]);
    assert_eq!(groups[0].wasted_bytes, 11);
    assert_eq!(summary.duplicate_files, 1);
    assert_eq!(summary.dirs_scanned, 1);
    assert_eq!(summary.files_scanned, 3);
    assert_eq!(summary.groups_found, 1);
    assert_eq!(summary.wasted_bytes, 11);
}

#[test]
fn no_false_positives_across_dirs() {
    let hashed = vec![
        keyed(&digest_hex(HashAlgorithm::Md5, b"aaa"), 3, "x/a.txt"),
        keyed(&digest_hex(HashAlgorithm::Md5, b"bbb"), 3, "y/b.txt"),
    ];
    let (groups, summary) = scan_by_content(&hashed, 2, 2, 0);
    assert!(groups.is_empty());
    assert_eq!(summary.duplicate_files, 0);
    assert_eq!(summary.wasted_bytes, 0);
}

#[test]
fn detects_duplicates_across_multiple_dirs() {
    let files = vec![
        entry("d1/x.txt", "x.txt", 14),
        entry("d1/unique.txt", "unique.txt", 9),
        entry("d2/y.txt", "y.txt", 14),
    ];
    let contents: Vec<&[u8]> = vec![b"shared content", b"only here", b"shared content"];
    let candidates = content_candidates(&files);
    assert_eq!(candidates.len(), 2);
    let hashed: Vec<KeyedFile> = candidates
        .iter()
        .map(|f| {
            let i = files.iter().position(|g| g.path == f.path).unwrap();
            keyed(&digest_hex(HashAlgorithm::Sha256, contents[i]), f.size, &f.path)
        })
        .collect();
    let (groups, summary) = scan_by_content(&hashed, files.len(), 2, 0);
    assert_eq!(groups.len(), 1, "cross-dir duplicates should be detected");
    assert_eq!(summary.dirs_scanned, 2);
}

#[test]
fn candidates_need_a_shared_size() {
    let files = vec![
        entry("x/a.txt", "a.txt", 11),
        entry("x/unique.txt", "unique.txt", 9),
        entry("y/b.txt", "b.txt", 11),
    ];
    let c = content_candidates(&files);
    let paths: Vec<&str> = c.iter().map(|f| f.path.as_str()).collect();
    assert_eq!(paths, vec!["x/a.txt", "y/b.txt"]);
}

#[test]
fn overlapping_dirs_no_self_duplicates() {
    let files = vec![
        entry("r/top.txt", "top.txt", 11),
        entry("r/sub/sub.txt", "sub.txt", 11),
        entry("r/sub/sub.txt", "sub.txt", 11),
    ];
    let files = dedup_by_path(files);
    assert_eq!(files.len(), 2);
    // both files hold "hello world"
    let hashed: Vec<KeyedFile> = content_candidates(&files)
        .iter()
        .map(|f| {
            let mut h = ContentHasher::new(HashAlgorithm::Sha256);
            h.update(b"hello world");
            keyed_by_content(f, h)
        })
        .collect();
    assert!(keyed_wastes_fit(&hashed));
    let (groups, _) = scan_by_content(&hashed, files.len(), 2, 0);
    assert_eq!(groups.len(), 1);
    assert_eq!(groups[0].paths.len(), 2);
    assert_eq!(groups[0].hash, digest_hex(HashAlgorithm::Sha256, b"hello world"));
}

#[test]
fn name_mode_across_dirs() {
    let files = vec![
        entry("d2/readme.txt", "readme.txt", 2),
        entry("d1/readme.txt", "readme.txt", 3),
        entry("d1/other.txt", "other.txt", 3),
    ];
    assert!(name_wastes_fit(&files));
    let groups = group_by_name(&files);
    assert_eq!(groups.len(), 1);
    assert_eq!(groups[0].hash, "name:readme.txt");
    // paths in path order; size of the first file met
    assert_eq!(groups[0].paths, vec!["d1/readme.txt".to_string(), "d2/readme.txt".to_string()]);
    assert_eq!(groups[0].size, 2);
    assert_eq!(groups[0].wasted_bytes, 2);
    let (shown, summary) = scan_by_name(&files, 2, 0);
    assert_eq!(shown.len(), 1);
    assert_eq!(summary.files_scanned, 3);
}

#[test]
fn size_mode_groups_equal_sizes() {
    let files = vec![
        entry("a", "a", 10),
        entry("b", "b", 20),
        entry("c", "c", 10),
        entry("d", "d", 20),
        entry("e", "e", 20),
    ];
    let groups = group_by_size(&files);
    assert_eq!(groups.len(), 2);
    assert_eq!(groups[0].hash, "size:10");
    assert_eq!(groups[1].hash, "size:20");
    assert_eq!(groups[1].paths.len(), 3);
    assert_eq!(groups[1].wasted_bytes, 40);
    // reported order: most wasted first
    let (shown, summary) = scan_by_size(&files, 1, 0);
    assert_eq!(shown[0].hash, "size:20");
    assert_eq!(shown[1].hash, "size:10");
    assert_eq!(summary.duplicate_files, 3);
    assert_eq!(summary.wasted_bytes, 50);
}

#[test]
fn limit_keeps_the_most_wasteful_groups() {
    let files = vec![
        entry("a", "a", 10),
        entry("b", "b", 20),
        entry("c", "c", 10),
        entry("d", "d", 20),
    ];
    let (shown, summary) = scan_by_size(&files, 1, 1);
    assert_eq!(shown.len(), 1);
    assert_eq!(shown[0].hash, "size:20");
    assert_eq!(summary.groups_found, 1);
    assert_eq!(summary.wasted_bytes, 20);
}

#[test]
fn finishing_sorts_by_waste() {
    let g = |h: &str, size: u64, n: usize| DuplicateGroup {
        hash: h.to_string(),
        size,
        paths: (0..n).map(|i| format!("p{i}")).collect(),
        wasted_bytes: size * (n as u64 - 1),
    };
    let (shown, summary) = finish_scan(vec![g("a", 1, 2), g("b", 5, 3), g("c", 3, 2)], 0, 7, 1);
    let order: Vec<&str> = shown.iter().map(|x| x.hash.as_str()).collect();
    assert_eq!(order, vec!["b", "c", "a"]);
    assert_eq!(summary.duplicate_files, 4);
    assert_eq!(summary.wasted_bytes, 14);
    assert_eq!(summary.files_scanned, 7);
}

#[test]
fn size_filter_excludes_small_files() {
    let opts = DuplicateOptions::builder("dir").min_size(1000).build();
    assert!(!admits_file(&opts, "s1.txt", 2));
    assert!(admits_file(&opts, "big.txt", 1000));
    let opts = DuplicateOptions::builder("dir").min_size(0).max_size(10).build();
    assert!(admits_file(&opts, "empty", 0));
    assert!(!admits_file(&opts, "large", 11));
}

#[test]
fn include_patterns_filter_duplicates() {
    let opts = DuplicateOptions::builder("dir")
        .include_patterns(vec!["*.jpg".to_string(), "*.png".to_string()])
        .build();
    assert!(admits_file(&opts, "photo.jpg", 5));
    assert!(!admits_file(&opts, "photo.JPG", 5));
    assert!(!admits_file(&opts, "notes.txt", 5));
}

#[test]
fn builder_defaults_and_dirs() {
    let opts = DuplicateOptions::builder(vec!["a", "b"]).add_dir("c".to_string()).build();
    assert_eq!(opts.base_dirs, vec!["a".to_string(), "b".to_string(), "c".to_string()]);
    assert_eq!(opts.max_depth, 10);
    assert_eq!(opts.mode, DuplicateMode::Content);
    assert_eq!(opts.algorithm, HashAlgorithm::Sha256);
    assert_eq!(opts.min_size, 1);
    assert_eq!(opts.exclude_dirs.len(), 7);
    let opts = DuplicateOptions::builder("one".to_string()).mode(DuplicateMode::Name).build();
    assert_eq!(opts.base_dirs, vec!["one".to_string()]);
    assert_eq!(opts.mode, DuplicateMode::Name);
}

#[test]
fn roots_are_checked_before_a_scan() {
    match validate_roots(&vec![]) {
        Err(FsearchError::DirectoryNotFound(p)) => assert_eq!(p, "(no directories specified)"),
        _ => panic!("expected an error"),
    }
    let roots = vec![
        RootStatus { path: "ok".to_string(), exists: true, is_dir: true },
        RootStatus { path: "file".to_string(), exists: true, is_dir: false },
        RootStatus { path: "gone".to_string(), exists: false, is_dir: false },
    ];
    match validate_roots(&roots) {
        Err(FsearchError::NotADirectory(p)) => assert_eq!(p, "file"),
        _ => panic!("expected an error"),
    }
}

#[test]
fn group_readable_sizes() {
    let g = DuplicateGroup {
        hash: "h".to_string(),
        size: 2048,
        paths: vec!["a".to_string(), "b".to_string()],
        wasted_bytes: 2048,
    };
    assert_eq!(g.size_human(), "2.0 KiB");
    assert_eq!(g.wasted_human(), "2.0 KiB");
}

#[test]
fn large_files_among_many_are_grouped() {
    let big = 1u64 << 63;
    let mut files = vec![entry("a/huge.bin", "huge.bin", big), entry("b/huge.bin", "huge.bin", big)];
    for i in 0..50 {
        files.push(entry(&format!("c/f{i}"), &format!("f{i}"), 7));
    }
    assert!(size_wastes_fit(&files));
    let (shown, summary) = scan_by_size(&files, 3, 0);
    assert_eq!(shown.len(), 2);
    assert_eq!(shown[0].wasted_bytes, big);
    assert_eq!(summary.wasted_bytes, big + 49 * 7);
}

#[test]
fn wasted_bytes_that_do_not_fit_are_detected() {
    let big = 1u64 << 63;
    let files = vec![entry("a/x", "x", big), entry("b/x", "x", big), entry("c/x", "x", big)];
    // size mode: 2^63 * 2 does not fit in u64
    assert!(!size_wastes_fit(&files));
    // name mode saturates the group's waste at u64::MAX
    assert!(name_wastes_fit(&files));
    let groups = group_by_name(&files);
    assert_eq!(groups[0].wasted_bytes, u64::MAX);
    let hashed = vec![keyed("k", big, "a/x"), keyed("k", big, "b/x"), keyed("k", big, "c/x")];
    assert!(!keyed_wastes_fit(&hashed));
}
