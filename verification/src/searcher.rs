//! File search by name or by content: the options of a search, the decision
//! taken for each directory entry, and the scan of a file's text.

use vstd::prelude::*;
use vstd::utf8::{decode_utf8, valid_utf8};
use crate::binary::{binary_probe, looks_binary, utf8_text};
use crate::cli::SearchMethod;
use crate::config::{split_csv, Config};
use crate::error::FsearchError;
use crate::pattern::{any_matches, excluded, folded, folded_all, glob_matches, include_ok, is_excluded_dir, matches_include, name_match, name_matches};
use crate::text::{capped, contains_seq, csv_items, lowercase, str_contains, to_lowercase, views};

verus! {

/// A single matched line inside a file: `(1-based line number, line text)`.
pub type LineMatch = (usize, String);

/// What a line match says: its number and its text.
pub open spec fn line_match_view(m: LineMatch) -> (int, Seq<char>) {
    (m.0 as int, m.1@)
}

/// The views of a list of line matches.
pub open spec fn line_match_views(ms: Seq<LineMatch>) -> Seq<(int, Seq<char>)> {
    ms.map_values(|m: LineMatch| line_match_view(m))
}

/// The pieces of `b` between newline bytes: `k` newlines give `k + 1` pieces.
pub open spec fn split_newlines(b: Seq<u8>) -> Seq<Seq<u8>>
    decreases b.len(),
{
    if b.len() == 0 {
        seq![Seq::<u8>::empty()]
    } else {
        let rest = split_newlines(b.drop_last());
        if b.last() == 10u8 {
            rest.push(Seq::<u8>::empty())
        } else {
            rest.update(rest.len() - 1, rest.last().push(b.last()))
        }
    }
}

proof fn lemma_split_newlines_nonempty(b: Seq<u8>)
    ensures
        split_newlines(b).len() >= 1,
    decreases b.len(),
{
    if b.len() > 0 {
        lemma_split_newlines_nonempty(b.drop_last());
    }
}

/// A line that ended with a newline loses one trailing carriage return.
pub open spec fn strip_cr(p: Seq<u8>) -> Seq<u8> {
    if p.len() > 0 && p.last() == 13u8 {
        p.drop_last()
    } else {
        p
    }
}

/// The lines of a text as `BufRead::lines` yields them: split at `\n`,
/// `\r\n` endings removed, and no final empty line after a last newline.
pub open spec fn text_lines(b: Seq<u8>) -> Seq<Seq<u8>> {
    let ps = split_newlines(b);
    let body = ps.drop_last().map_values(|p: Seq<u8>| strip_cr(p));
    if ps.last().len() == 0 {
        body
    } else {
        body.push(ps.last())
    }
}

/// A line is reported: it is valid UTF-8, no longer than `max_line` bytes,
/// and its (case-folded) text contains the (case-folded) pattern.
pub open spec fn line_hit(line: Seq<u8>, pattern: Seq<char>, case_insensitive: bool, max_line: usize) -> bool {
    &&& valid_utf8(line)
    &&& line.len() <= max_line
    &&& contains_seq(folded(decode_utf8(line), case_insensitive), folded(pattern, case_insensitive))
}

/// The reported lines among `lines`, each with its number (counted from 1
/// over all lines) and its text.
pub open spec fn line_hits(
    lines: Seq<Seq<u8>>,
    pattern: Seq<char>,
    case_insensitive: bool,
    max_line: usize,
) -> Seq<(int, Seq<char>)>
    decreases lines.len(),
{
    if lines.len() == 0 {
        Seq::empty()
    } else {
        let rest = line_hits(lines.drop_last(), pattern, case_insensitive, max_line);
        if line_hit(lines.last(), pattern, case_insensitive, max_line) {
            rest.push((lines.len() as int, decode_utf8(lines.last())))
        } else {
            rest
        }
    }
}

/// The matches of a search inside a file's content: none when the first
/// `check_bytes` bytes look binary, else the reported lines.
pub open spec fn content_hits(
    content: Seq<u8>,
    pattern: Seq<char>,
    case_insensitive: bool,
    max_line: usize,
    check_bytes: usize,
) -> Seq<(int, Seq<char>)> {
    let probe = if content.len() <= check_bytes { content } else { content.take(check_bytes as int) };
    if binary_probe(probe) {
        Seq::empty()
    } else {
        line_hits(text_lines(content), pattern, case_insensitive, max_line)
    }
}

/// The bytes `b[from..to]`.
fn copy_bytes(b: &[u8], from: usize, to: usize) -> (r: Vec<u8>)
    requires
        from <= to <= b.len(),
    ensures
        r@ == b@.subrange(from as int, to as int),
{
    let mut r: Vec<u8> = Vec::new();
    let mut i = from;
    while i < to
        invariant
            from <= i <= to <= b.len(),
            r@ == b@.subrange(from as int, i as int),
        decreases to - i,
    {
        r.push(b[i]);
        i = i + 1;
    }
    r
}

/// Decides `line_hit` for one line, giving its text when it is reported.
/// `pattern` is already case-folded when matching ignores case.
fn scan_line(line: &[u8], pattern: &str, case_insensitive: bool, max_line: usize) -> (r: Option<String>)
    ensures
        r is Some <==> (valid_utf8(line@) && line@.len() <= max_line && contains_seq(
            folded(decode_utf8(line@), case_insensitive),
            pattern@,
        )),
        r matches Some(t) ==> t@ == decode_utf8(line@),
{
    match utf8_text(line) {
        None => None,
        Some(text) => {
            if line.len() > max_line {
                return None;
            }
            let hit = if case_insensitive {
                let lower = to_lowercase(text);
                str_contains(lower.as_str(), pattern)
            } else {
                str_contains(text, pattern)
            };
            if hit {
                Some(text.to_owned())
            } else {
                None
            }
        },
    }
}


/// All stripped lines: each piece followed by a newline, without `\r`.
pub open spec fn stripped(ps: Seq<Seq<u8>>) -> Seq<Seq<u8>> {
    ps.map_values(|p: Seq<u8>| strip_cr(p))
}

proof fn lemma_stripped_push(ps: Seq<Seq<u8>>, p: Seq<u8>)
    ensures
        stripped(ps.push(p)) == stripped(ps).push(strip_cr(p)),
{
    assert(stripped(ps.push(p)) =~= stripped(ps).push(strip_cr(p)));
}

proof fn lemma_line_hits_push(
    lines: Seq<Seq<u8>>,
    l: Seq<u8>,
    pattern: Seq<char>,
    ci: bool,
    max_line: usize,
)
    ensures
        line_hits(lines.push(l), pattern, ci, max_line) == (if line_hit(l, pattern, ci, max_line) {
            line_hits(lines, pattern, ci, max_line).push(((lines.len() + 1) as int, decode_utf8(l)))
        } else {
            line_hits(lines, pattern, ci, max_line)
        }),
{
    assert(lines.push(l).drop_last() =~= lines);
}

/// The lines of `content` that contain `pattern` (case-folded first when
/// matching ignores case) and are valid UTF-8 of at most `max_line` bytes,
/// numbered from 1.
pub fn search_lines(content: &[u8], pattern: &str, case_insensitive: bool, max_line: usize) -> (r: Vec<
    LineMatch,
>)
    ensures
        line_match_views(r@) == line_hits(text_lines(content@), pattern@, case_insensitive, max_line),
{
    let pat = if case_insensitive {
        to_lowercase(pattern)
    } else {
        pattern.to_owned()
    };
    assert(pat@ == folded(pattern@, case_insensitive));
    let ghost b = content@;
    let mut r: Vec<LineMatch> = Vec::new();
    let mut start: usize = 0;
    let mut count: usize = 0;
    let mut j: usize = 0;
    proof {
        assert(b.take(0) =~= Seq::<u8>::empty());
        assert(b.subrange(0, 0) =~= Seq::<u8>::empty());
    }
    while j < content.len()
        invariant
            b == content@,
            pat@ == folded(pattern@, case_insensitive),
            start <= j <= content.len(),
            split_newlines(b.take(j as int)).len() == count + 1,
            split_newlines(b.take(j as int)).last() == b.subrange(start as int, j as int),
            count <= start,
            line_match_views(r@) == line_hits(
                stripped(split_newlines(b.take(j as int)).drop_last()),
                pattern@,
                case_insensitive,
                max_line,
            ),
        decreases content.len() - j,
    {
        let ghost ps = split_newlines(b.take(j as int));
        proof {
            assert(b.take(j + 1).drop_last() =~= b.take(j as int));
            assert(b.take(j + 1).last() == b[j as int]);
        }
        if content[j] == 10u8 {
            let mut end = j;
            if end > start && content[end - 1] == 13u8 {
                end = end - 1;
            }
            let line = copy_bytes(content, start, end);
            proof {
                let piece = b.subrange(start as int, j as int);
                assert(line@ == strip_cr(piece)) by {
                    if piece.len() > 0 && piece.last() == 13u8 {
                        assert(piece.drop_last() =~= b.subrange(start as int, j - 1));
                    }
                }
                assert(ps =~= ps.drop_last().push(piece));
                lemma_stripped_push(ps.drop_last(), piece);
                assert(split_newlines(b.take(j + 1)).drop_last() =~= ps);
                lemma_line_hits_push(stripped(ps.drop_last()), line@, pattern@, case_insensitive, max_line);
                assert(stripped(ps.drop_last()).len() == count);
            }
            let hit = scan_line(line.as_slice(), pat.as_str(), case_insensitive, max_line);
            match hit {
                Some(text) => {
                    let ghost old_r = r@;
                    r.push((count + 1, text));
                    assert(line_match_views(r@) =~= line_match_views(old_r).push(
                        (count + 1, decode_utf8(line@)),
                    ));
                },
                None => {},
            }
            count = count + 1;
            start = j + 1;
            proof {
                assert(b.subrange(j + 1, j + 1) =~= Seq::<u8>::empty());
            }
        } else {
            proof {
                assert(split_newlines(b.take(j + 1)) == ps.update(
                    ps.len() - 1,
                    ps.last().push(b[j as int]),
                ));
                assert(b.subrange(start as int, j + 1) =~= b.subrange(start as int, j as int).push(
                    b[j as int],
                ));
                assert(split_newlines(b.take(j + 1)).drop_last() =~= ps.drop_last());
            }
        }
        j = j + 1;
    }
    assert(b.take(content.len() as int) =~= b);
    let ghost ps = split_newlines(b);
    if start < content.len() {
        let line = copy_bytes(content, start, content.len());
        proof {
            assert(text_lines(b) == stripped(ps.drop_last()).push(ps.last()));
            lemma_line_hits_push(stripped(ps.drop_last()), line@, pattern@, case_insensitive, max_line);
            assert(stripped(ps.drop_last()).len() == count);
        }
        let hit = scan_line(line.as_slice(), pat.as_str(), case_insensitive, max_line);
        match hit {
            Some(text) => {
                let ghost old_r = r@;
                r.push((count + 1, text));
                assert(line_match_views(r@) =~= line_match_views(old_r).push(
                    (count + 1, decode_utf8(line@)),
                ));
            },
            None => {},
        }
    } else {
        assert(ps.last().len() == 0);
        assert(text_lines(b) == stripped(ps.drop_last()));
    }
    r
}


/// One result of a search.
pub enum SearchMatch {
    /// File-name match.
    Path(String),
    /// Content match with the lines that contain the pattern.
    Content { path: String, lines: Vec<LineMatch> },
}

impl SearchMatch {
    /// The matched path, whatever the variant.
    pub open spec fn path_view(&self) -> Seq<char> {
        match self {
            SearchMatch::Path(p) => p@,
            SearchMatch::Content { path, .. } => path@,
        }
    }

    /// The matched path regardless of variant.
    pub fn path(&self) -> (p: &str)
        ensures
            p@ == self.path_view(),
    {
        match self {
            SearchMatch::Path(p) => p.as_str(),
            SearchMatch::Content { path, .. } => path.as_str(),
        }
    }

    /// Whether this is a content (in-file) match.
    pub fn is_content(&self) -> (r: bool)
        ensures
            r == (self is Content),
    {
        match self {
            SearchMatch::Path(_) => false,
            SearchMatch::Content { .. } => true,
        }
    }
}

/// All parameters that control a search.
pub struct SearchOptions {
    /// Directories to start the search from.
    pub base_dirs: Vec<String>,
    /// Pattern to match (`*` and `?` wildcards, or a plain substring).
    pub pattern: String,
    /// Maximum recursion depth (0 = only the base directories themselves).
    pub max_depth: u32,
    /// Include directory entries in file-name results.
    pub include_dirs: bool,
    /// Match case-insensitively.
    pub case_insensitive: bool,
    /// Search for `pattern` inside file contents instead of matching names.
    pub search_in_files: bool,
    /// Only include files that match these glob patterns (empty = all).
    pub include_patterns: Vec<String>,
    /// Directory names to skip entirely during traversal.
    pub exclude_dirs: Vec<String>,
    /// Lines longer than this are skipped during content search.
    pub max_line_length: usize,
    /// Bytes read to probe for binary content.
    pub binary_check_bytes: usize,
    /// Cap the number of results returned (0 = unlimited).
    pub max_results: usize,
}

/// The directory names a search skips unless told otherwise.
pub open spec fn default_excludes() -> Seq<Seq<char>> {
    seq![".git"@, "node_modules"@, "target"@, ".svn"@, "__pycache__"@, ".hg"@, ".cache"@]
}

/// The list of directory names a search skips unless told otherwise.
pub fn default_exclude_list() -> (r: Vec<String>)
    ensures
        views(r@) == default_excludes(),
{
    let mut r: Vec<String> = Vec::new();
    r.push(".git".to_owned());
    r.push("node_modules".to_owned());
    r.push("target".to_owned());
    r.push(".svn".to_owned());
    r.push("__pycache__".to_owned());
    r.push(".hg".to_owned());
    r.push(".cache".to_owned());
    assert(views(r@) =~= default_excludes());
    r
}

impl SearchOptions {
    /// Options for `pattern` under `base_dir`, the rest taken from `cfg`.
    pub fn from_config(cfg: &Config, base_dir: String, pattern: String) -> (o: SearchOptions)
        ensures
            views(o.base_dirs@) == seq![base_dir@],
            o.pattern == pattern,
            o.max_depth == cfg.default_depth,
            o.include_dirs == cfg.include_dirs,
            o.case_insensitive == cfg.case_insensitive,
            !o.search_in_files,
            views(o.include_patterns@) == csv_items(cfg.default_include@),
            views(o.exclude_dirs@) == csv_items(cfg.exclude_dirs@),
            o.max_line_length == cfg.max_line_length,
            o.binary_check_bytes == cfg.binary_check_bytes,
            o.max_results == cfg.max_results,
    {
        let ghost b = base_dir@;
        let mut base_dirs: Vec<String> = Vec::new();
        base_dirs.push(base_dir);
        assert(views(base_dirs@) =~= seq![b]);
        SearchOptions {
            base_dirs,
            pattern,
            max_depth: cfg.default_depth,
            include_dirs: cfg.include_dirs,
            case_insensitive: cfg.case_insensitive,
            search_in_files: false,
            include_patterns: split_csv(cfg.default_include.as_str()),
            exclude_dirs: cfg.excluded_dirs(),
            max_line_length: cfg.max_line_length,
            binary_check_bytes: cfg.binary_check_bytes,
            max_results: cfg.max_results,
        }
    }

    /// Fluent builder: starts from `pattern`, the current directory, depth 1,
    /// directories included, case ignored, the usual directories skipped.
    pub fn builder(pattern: String) -> (b: SearchOptionsBuilder)
        ensures
            views(b.0.base_dirs@) == seq![seq!['.']],
            b.0.pattern == pattern,
            b.0.max_depth == 1,
            b.0.include_dirs,
            b.0.case_insensitive,
            !b.0.search_in_files,
            b.0.include_patterns@.len() == 0,
            views(b.0.exclude_dirs@) == default_excludes(),
            b.0.max_line_length == 10_000,
            b.0.binary_check_bytes == 1024,
            b.0.max_results == 0,
    {
        let mut base_dirs: Vec<String> = Vec::new();
        base_dirs.push(".".to_owned());
        proof {
            reveal_strlit(".");
            assert("."@ =~= seq!['.']);
            assert(views(base_dirs@) =~= seq![seq!['.']]);
        }
        SearchOptionsBuilder(
            SearchOptions {
                base_dirs,
                pattern,
                max_depth: 1,
                include_dirs: true,
                case_insensitive: true,
                search_in_files: false,
                include_patterns: Vec::new(),
                exclude_dirs: default_exclude_list(),
                max_line_length: 10_000,
                binary_check_bytes: 1024,
                max_results: 0,
            },
        )
    }
}

/// Fluent builder for `SearchOptions`.
pub struct SearchOptionsBuilder(pub SearchOptions);

impl SearchOptionsBuilder {
    /// Search under `p` alone.
    pub fn base_dir(self, p: String) -> (b: Self)
        ensures
            views(b.0.base_dirs@) == seq![p@],
            b.0.pattern == self.0.pattern,
            b.0.max_depth == self.0.max_depth,
            b.0.include_dirs == self.0.include_dirs,
            b.0.case_insensitive == self.0.case_insensitive,
            b.0.search_in_files == self.0.search_in_files,
            b.0.include_patterns == self.0.include_patterns,
            b.0.exclude_dirs == self.0.exclude_dirs,
            b.0.max_line_length == self.0.max_line_length,
            b.0.binary_check_bytes == self.0.binary_check_bytes,
            b.0.max_results == self.0.max_results,
    {
        let ghost v = p@;
        let mut dirs: Vec<String> = Vec::new();
        dirs.push(p);
        assert(views(dirs@) =~= seq![v]);
        SearchOptionsBuilder(SearchOptions { base_dirs: dirs, ..self.0 })
    }

    /// Search under each of `dirs`.
    pub fn base_dirs(self, dirs: Vec<String>) -> (b: Self)
        ensures
            b.0 == (SearchOptions { base_dirs: dirs, ..self.0 }),
    {
        SearchOptionsBuilder(SearchOptions { base_dirs: dirs, ..self.0 })
    }

    /// Sets the maximum depth.
    pub fn max_depth(self, d: u32) -> (b: Self)
        ensures
            b.0 == (SearchOptions { max_depth: d, ..self.0 }),
    {
        SearchOptionsBuilder(SearchOptions { max_depth: d, ..self.0 })
    }

    /// Sets whether directories are reported.
    pub fn include_dirs(self, v: bool) -> (b: Self)
        ensures
            b.0 == (SearchOptions { include_dirs: v, ..self.0 }),
    {
        SearchOptionsBuilder(SearchOptions { include_dirs: v, ..self.0 })
    }

    /// Sets whether matching ignores case.
    pub fn case_insensitive(self, v: bool) -> (b: Self)
        ensures
            b.0 == (SearchOptions { case_insensitive: v, ..self.0 }),
    {
        SearchOptionsBuilder(SearchOptions { case_insensitive: v, ..self.0 })
    }

    /// Sets whether file contents are searched.
    pub fn search_in_files(self, v: bool) -> (b: Self)
        ensures
            b.0 == (SearchOptions { search_in_files: v, ..self.0 }),
    {
        SearchOptionsBuilder(SearchOptions { search_in_files: v, ..self.0 })
    }

    /// Sets the include patterns.
    pub fn include_patterns(self, p: Vec<String>) -> (b: Self)
        ensures
            b.0 == (SearchOptions { include_patterns: p, ..self.0 }),
    {
        SearchOptionsBuilder(SearchOptions { include_patterns: p, ..self.0 })
    }

    /// Sets the skipped directory names.
    pub fn exclude_dirs(self, d: Vec<String>) -> (b: Self)
        ensures
            b.0 == (SearchOptions { exclude_dirs: d, ..self.0 }),
    {
        SearchOptionsBuilder(SearchOptions { exclude_dirs: d, ..self.0 })
    }

    /// Sets the result limit (0 = unlimited).
    pub fn max_results(self, n: usize) -> (b: Self)
        ensures
            b.0 == (SearchOptions { max_results: n, ..self.0 }),
    {
        SearchOptionsBuilder(SearchOptions { max_results: n, ..self.0 })
    }

    /// The options built.
    pub fn build(self) -> (o: SearchOptions)
        ensures
            o == self.0,
    {
        self.0
    }
}


/// Each item lower-cased.
pub open spec fn lower_all(items: Seq<Seq<char>>) -> Seq<Seq<char>> {
    items.map_values(|p: Seq<char>| lowercase(p))
}

/// Parse a comma-separated pattern list: items trimmed, empty ones dropped,
/// each lower-cased when matching ignores case.
pub fn parse_patterns(raw: &str, case_insensitive: bool) -> (r: Vec<String>)
    ensures
        views(r@) == (if case_insensitive {
            lower_all(csv_items(raw@))
        } else {
            csv_items(raw@)
        }),
{
    let items = split_csv(raw);
    if !case_insensitive {
        return items;
    }
    let mut r: Vec<String> = Vec::new();
    let mut i: usize = 0;
    while i < items.len()
        invariant
            i <= items.len(),
            views(r@) == lower_all(views(items@).take(i as int)),
        decreases items.len() - i,
    {
        let ghost old_r = r@;
        r.push(to_lowercase(items[i].as_str()));
        assert(views(items@).take(i + 1) =~= views(items@).take(i as int).push(items@[i as int]@));
        assert(lower_all(views(items@).take(i + 1)) =~= lower_all(views(items@).take(i as int)).push(
            lowercase(items@[i as int]@),
        ));
        assert(views(r@) =~= views(old_r).push(r@[i as int]@));
        i = i + 1;
    }
    assert(views(items@).take(items.len() as int) =~= views(items@));
    r
}

/// The kind of a directory entry.
#[derive(Clone, Copy, Debug, PartialEq, Eq, Structural)]
pub enum EntryKind {
    Dir,
    File,
    /// Anything else, such as a symbolic link (not followed).
    Other,
}

/// What a search does with a directory entry.
#[derive(Clone, Copy, Debug, PartialEq, Eq, Structural)]
pub enum EntryAction {
    /// Leave it out of the results.
    Skip,
    /// Report its path (a file-name match).
    Report,
    /// Read the file and search its content.
    ScanContent,
}

/// The action and whether to walk into the entry.
#[derive(Clone, Copy, Debug, PartialEq, Eq, Structural)]
pub struct EntryDecision {
    pub action: EntryAction,
    pub descend: bool,
}

/// What a file-like entry gets: it must pass the include filter; then its
/// content is searched, or its name is matched.
pub open spec fn file_action(o: SearchOptions, name: Seq<char>) -> EntryAction {
    if !include_ok(name, views(o.include_patterns@), o.case_insensitive) {
        EntryAction::Skip
    } else if o.search_in_files {
        EntryAction::ScanContent
    } else if name_match(name, o.pattern@, o.case_insensitive) {
        EntryAction::Report
    } else {
        EntryAction::Skip
    }
}

/// The decision for an entry named `name` found while listing a directory
/// at `depth` (the base directories are at depth 0). Skipped directories are
/// neither reported nor entered; other directories are reported only in a
/// name search that includes directories, and entered while the depth
/// allows. The recursive engine ignores entries that are neither files nor
/// directories; the walkdir engine treats them as files.
pub open spec fn entry_decision(
    o: SearchOptions,
    name: Seq<char>,
    kind: EntryKind,
    method: SearchMethod,
    depth: u32,
) -> EntryDecision {
    match kind {
        EntryKind::Dir => {
            if excluded(name, views(o.exclude_dirs@)) {
                EntryDecision { action: EntryAction::Skip, descend: false }
            } else {
                EntryDecision {
                    action: if !o.search_in_files && o.include_dirs && name_match(
                        name,
                        o.pattern@,
                        o.case_insensitive,
                    ) {
                        EntryAction::Report
                    } else {
                        EntryAction::Skip
                    },
                    descend: depth < o.max_depth,
                }
            }
        },
        EntryKind::File => EntryDecision { action: file_action(o, name), descend: false },
        EntryKind::Other => EntryDecision {
            action: if method == SearchMethod::Recursive {
                EntryAction::Skip
            } else {
                file_action(o, name)
            },
            descend: false,
        },
    }
}

fn decide_file(opts: &SearchOptions, name: &str) -> (a: EntryAction)
    ensures
        a == file_action(*opts, name@),
{
    if !matches_include(name, &opts.include_patterns, opts.case_insensitive) {
        EntryAction::Skip
    } else if opts.search_in_files {
        EntryAction::ScanContent
    } else if name_matches(name, opts.pattern.as_str(), opts.case_insensitive) {
        EntryAction::Report
    } else {
        EntryAction::Skip
    }
}

/// Decides `entry_decision`.
pub fn classify_entry(
    opts: &SearchOptions,
    name: &str,
    kind: EntryKind,
    method: SearchMethod,
    depth: u32,
) -> (d: EntryDecision)
    ensures
        d == entry_decision(*opts, name@, kind, method, depth),
{
    match kind {
        EntryKind::Dir => {
            if is_excluded_dir(name, &opts.exclude_dirs) {
                EntryDecision { action: EntryAction::Skip, descend: false }
            } else {
                let report = !opts.search_in_files && opts.include_dirs && name_matches(
                    name,
                    opts.pattern.as_str(),
                    opts.case_insensitive,
                );
                EntryDecision {
                    action: if report {
                        EntryAction::Report
                    } else {
                        EntryAction::Skip
                    },
                    descend: depth < opts.max_depth,
                }
            }
        },
        EntryKind::File => EntryDecision { action: decide_file(opts, name), descend: false },
        EntryKind::Other => EntryDecision {
            action: match method {
                SearchMethod::Recursive => EntryAction::Skip,
                SearchMethod::Walkdir => decide_file(opts, name),
            },
            descend: false,
        },
    }
}

/// The matches in a file's content for a content search with `opts`: none
/// when the first `binary_check_bytes` bytes look binary.
pub fn search_in_content(content: &[u8], opts: &SearchOptions) -> (r: Vec<LineMatch>)
    ensures
        line_match_views(r@) == content_hits(
            content@,
            opts.pattern@,
            opts.case_insensitive,
            opts.max_line_length,
            opts.binary_check_bytes,
        ),
{
    let n = if content.len() <= opts.binary_check_bytes {
        content.len()
    } else {
        opts.binary_check_bytes
    };
    let probe = copy_bytes(content, 0, n);
    proof {
        if content.len() <= opts.binary_check_bytes {
            assert(content@.subrange(0, n as int) =~= content@);
        } else {
            assert(content@.subrange(0, n as int) =~= content@.take(n as int));
        }
    }
    if looks_binary(probe.as_slice()) {
        let none: Vec<LineMatch> = Vec::new();
        assert(line_match_views(none@) =~= Seq::<(int, Seq<char>)>::empty());
        return none;
    }
    search_lines(content, opts.pattern.as_str(), opts.case_insensitive, opts.max_line_length)
}

/// At most `limit` results when a limit is set (0 = unlimited).
pub fn cap(v: Vec<SearchMatch>, limit: usize) -> (r: Vec<SearchMatch>)
    ensures
        r@ == capped(v@, limit),
{
    let mut v = v;
    if limit > 0 && v.len() > limit {
        v.truncate(limit);
    }
    v
}

/// What the file system says of a base directory.
pub struct RootStatus {
    pub path: String,
    pub exists: bool,
    pub is_dir: bool,
}

/// The error for a base directory that is missing or not a directory.
pub open spec fn root_error(r: RootStatus) -> FsearchError {
    if !r.exists {
        FsearchError::DirectoryNotFound(r.path)
    } else {
        FsearchError::NotADirectory(r.path)
    }
}

/// A base directory can be searched.
pub open spec fn root_ok(r: RootStatus) -> bool {
    r.exists && r.is_dir
}

/// The outcome of checking base directories in order: the error of the
/// first one that cannot be searched, if any.
pub open spec fn roots_outcome(rs: Seq<RootStatus>) -> Result<(), FsearchError>
    decreases rs.len(),
{
    if rs.len() == 0 {
        Ok(())
    } else if !root_ok(rs[0]) {
        Err(root_error(rs[0]))
    } else {
        roots_outcome(rs.drop_first())
    }
}

/// Checks the base directories before a search, so that no search starts
/// on a missing directory.
pub fn validate(roots: &Vec<RootStatus>) -> (r: Result<(), FsearchError>)
    ensures
        r == roots_outcome(roots@),
{
    let mut i: usize = 0;
    assert(roots@.skip(0) =~= roots@);
    while i < roots.len()
        invariant
            i <= roots.len(),
            roots_outcome(roots@) == roots_outcome(roots@.skip(i as int)),
        decreases roots.len() - i,
    {
        assert(roots@.skip(i as int)[0] == roots@[i as int]);
        assert(roots@.skip(i as int).drop_first() =~= roots@.skip(i + 1));
        if !roots[i].exists {
            return Err(FsearchError::DirectoryNotFound(roots[i].path.clone()));
        }
        if !roots[i].is_dir {
            return Err(FsearchError::NotADirectory(roots[i].path.clone()));
        }
        i = i + 1;
    }
    assert(roots@.skip(i as int) =~= Seq::<RootStatus>::empty());
    Ok(())
}


/// Reported lines are numbered from 1 in increasing order, never beyond the
/// last line, and each one's (case-folded) text contains the (case-folded)
/// pattern.
pub proof fn law_line_hits(lines: Seq<Seq<u8>>, pattern: Seq<char>, case_insensitive: bool, max_line: usize)
    ensures
        forall|a: int|
            0 <= a < line_hits(lines, pattern, case_insensitive, max_line).len() ==> {
                let h = #[trigger] line_hits(lines, pattern, case_insensitive, max_line)[a];
                &&& 1 <= h.0 <= lines.len()
                &&& contains_seq(folded(h.1, case_insensitive), folded(pattern, case_insensitive))
                &&& h.1 == decode_utf8(lines[h.0 - 1])
            },
        forall|a: int, b: int|
            0 <= a < b < line_hits(lines, pattern, case_insensitive, max_line).len() ==> (#[trigger] line_hits(
                lines,
                pattern,
                case_insensitive,
                max_line,
            )[a]).0 < (#[trigger] line_hits(lines, pattern, case_insensitive, max_line)[b]).0,
    decreases lines.len(),
{
    if lines.len() > 0 {
        let d = lines.drop_last();
        law_line_hits(d, pattern, case_insensitive, max_line);
        let rest = line_hits(d, pattern, case_insensitive, max_line);
        assert forall|a: int| 0 <= a < rest.len() implies d[rest[a].0 - 1] == lines[rest[a].0 - 1] by {
        }
    }
}


/// The two search engines decide alike on every directory and every file;
/// they differ only on entries that are neither, which the recursive engine
/// skips.
pub proof fn law_engines_agree(o: SearchOptions, name: Seq<char>, kind: EntryKind, depth: u32)
    ensures
        kind != EntryKind::Other ==> entry_decision(o, name, kind, SearchMethod::Recursive, depth)
            == entry_decision(o, name, kind, SearchMethod::Walkdir, depth),
        entry_decision(o, name, EntryKind::Other, SearchMethod::Recursive, depth) == (EntryDecision {
            action: EntryAction::Skip,
            descend: false,
        }),
{
}


/// A file is read or reported only when it passes the include patterns:
/// with patterns given, some pattern matches its name (both lower-cased
/// when case is ignored), whether names or contents are searched. Its
/// content is read exactly in a content search, and its name is reported
/// exactly in a name search that it matches.
pub proof fn law_include_gates_files(o: SearchOptions, name: Seq<char>, method: SearchMethod, depth: u32)
    ensures
        entry_decision(o, name, EntryKind::File, method, depth).action != EntryAction::Skip
            && o.include_patterns@.len() > 0 ==> exists|i: int|
            0 <= i < o.include_patterns@.len() && glob_matches(
                folded(#[trigger] o.include_patterns@[i]@, o.case_insensitive),
                folded(name, o.case_insensitive),
            ),
        entry_decision(o, name, EntryKind::File, method, depth).action == EntryAction::ScanContent
            ==> o.search_in_files,
        entry_decision(o, name, EntryKind::File, method, depth).action == EntryAction::Report ==> !o.search_in_files
            && name_match(name, o.pattern@, o.case_insensitive),
        o.include_patterns@.len() == 0 ==> entry_decision(o, name, EntryKind::File, method, depth).action == (
        if o.search_in_files {
            EntryAction::ScanContent
        } else if name_match(name, o.pattern@, o.case_insensitive) {
            EntryAction::Report
        } else {
            EntryAction::Skip
        }),
        !entry_decision(o, name, EntryKind::File, method, depth).descend,
{
    let ps = views(o.include_patterns@);
    let fp = folded_all(ps, o.case_insensitive);
    if entry_decision(o, name, EntryKind::File, method, depth).action != EntryAction::Skip
        && o.include_patterns@.len() > 0 {
        assert(any_matches(fp, folded(name, o.case_insensitive)));
        let i = choose|i: int| 0 <= i < fp.len() && glob_matches(#[trigger] fp[i], folded(name, o.case_insensitive));
        assert(fp[i] == folded(o.include_patterns@[i]@, o.case_insensitive));
    }
}

}
