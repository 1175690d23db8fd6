//! Configuration of the tool: its settings with their built-in defaults,
//! and the annotated form in which the defaults are written out.

use vstd::prelude::*;
use crate::text::{
    char_views, chars_of, str_concat, csv_items, join_with, join_with_newlines, lemma_non_empty_push,
    lemma_trim_all_push, lines_of, non_empty, split_on, str_lines, string_of, trim_all, trim_chars,
    views,
};

verus! {

/// Complete fsearch configuration; missing keys of a configuration file fall
/// back to the values of `Config::default`.
#[derive(Clone, Debug)]
pub struct Config {
    /// Default max depth for `-d` flag.
    pub default_depth: u32,
    /// 1 = walkdir+rayon, 2 = recursive.
    pub default_method: u8,
    /// Match case-insensitively by default.
    pub case_insensitive: bool,
    /// Include directory entries in filename-search results.
    pub include_dirs: bool,
    /// Bytes to probe when checking for binary content.
    pub binary_check_bytes: usize,
    /// Lines longer than this are skipped in content search.
    pub max_line_length: usize,
    /// Rayon thread count (0 = all logical CPUs).
    pub threads: usize,
    /// Hashing algorithm: `"md5"` or `"sha256"`.
    pub hash_algorithm: String,
    /// Buffer size (bytes) used when streaming files for hashing.
    pub hash_buffer_size: usize,
    /// Minimum file size (bytes) to consider for duplicate detection (0 = all).
    pub dup_min_size: u64,
    /// Maximum file size (bytes) to consider (0 = unlimited).
    pub dup_max_size: u64,
    /// Print verbose status to stderr.
    pub verbose: bool,
    /// Show file sizes next to results.
    pub show_size: bool,
    /// Show last-modified timestamps next to results.
    pub show_modified: bool,
    /// Maximum results to return (0 = unlimited).
    pub max_results: usize,
    pub color_index: String,
    pub color_path: String,
    pub color_line_num: String,
    pub color_line_text: String,
    pub color_header: String,
    pub color_count: String,
    pub color_error: String,
    pub color_warn: String,
    pub color_info: String,
    pub color_pattern: String,
    pub color_dup_group: String,
    pub color_dup_path: String,
    pub color_dup_size: String,
    /// Comma-separated directory names always skipped during traversal.
    pub exclude_dirs: String,
    /// Comma-separated glob patterns included by default (empty = all).
    pub default_include: String,
}

impl Default for Config {
    fn default() -> (c: Self)
        ensures
            c.default_depth == 1,
            c.default_method == 1,
            c.case_insensitive == true,
            c.include_dirs == true,
            c.binary_check_bytes == 1024,
            c.max_line_length == 10_000,
            c.threads == 0,
            c.hash_algorithm@ == "sha256"@,
            c.hash_buffer_size == 65_536,
            c.dup_min_size == 1,
            c.dup_max_size == 0,
            c.verbose == false,
            c.show_size == false,
            c.show_modified == false,
            c.max_results == 0,
            c.color_index@ == "#FF88FF"@,
            c.color_path@ == "#FFFF00"@,
            c.color_line_num@ == "#FF4444"@,
            c.color_line_text@ == "#00FFFF"@,
            c.color_header@ == "#FFFFFF"@,
            c.color_count@ == "#00FFFF"@,
            c.color_error@ == "#FF3333"@,
            c.color_warn@ == "#FFAA00"@,
            c.color_info@ == "#00FF88"@,
            c.color_pattern@ == "#FF00FF"@,
            c.color_dup_group@ == "#FF8800"@,
            c.color_dup_path@ == "#FFFF00"@,
            c.color_dup_size@ == "#88FF88"@,
            c.exclude_dirs@ == ".git,node_modules,.svn,__pycache__,.hg,target,.cache"@,
            c.default_include@ == ""@,
    {
        Config {
            default_depth: 1,
            default_method: 1,
            case_insensitive: true,
            include_dirs: true,
            binary_check_bytes: 1024,
            max_line_length: 10_000,
            threads: 0,
            hash_algorithm: "sha256".to_owned(),
            hash_buffer_size: 65_536,
            dup_min_size: 1,
            dup_max_size: 0,
            verbose: false,
            show_size: false,
            show_modified: false,
            max_results: 0,
            color_index: "#FF88FF".to_owned(),
            color_path: "#FFFF00".to_owned(),
            color_line_num: "#FF4444".to_owned(),
            color_line_text: "#00FFFF".to_owned(),
            color_header: "#FFFFFF".to_owned(),
            color_count: "#00FFFF".to_owned(),
            color_error: "#FF3333".to_owned(),
            color_warn: "#FFAA00".to_owned(),
            color_info: "#00FF88".to_owned(),
            color_pattern: "#FF00FF".to_owned(),
            color_dup_group: "#FF8800".to_owned(),
            color_dup_path: "#FFFF00".to_owned(),
            color_dup_size: "#88FF88".to_owned(),
            exclude_dirs: ".git,node_modules,.svn,__pycache__,.hg,target,.cache".to_owned(),
            default_include: "".to_owned(),
        }
    }
}

impl Config {
    /// Parsed list of directory names (or patterns) to skip.
    pub fn excluded_dirs(&self) -> (r: Vec<String>)
        ensures
            views(r@) == csv_items(self.exclude_dirs@),
    {
        split_csv(self.exclude_dirs.as_str())
    }
}

/// Split a comma-separated string, trimming white space and dropping empty items.
pub fn split_csv(s: &str) -> (r: Vec<String>)
    ensures
        views(r@) == csv_items(s@),
{
    let cs = chars_of(s);
    let mut r: Vec<String> = Vec::new();
    let mut cur: Vec<char> = Vec::new();
    let mut i: usize = 0;
    while i < cs.len()
        invariant
            i <= cs.len(),
            cs@ == s@,
            split_on(cs@.take(i as int), ',').len() >= 1,
            cur@ == split_on(cs@.take(i as int), ',').last(),
            views(r@) == non_empty(trim_all(split_on(cs@.take(i as int), ',').drop_last())),
        decreases cs.len() - i,
    {
        let ghost pre = cs@.take(i as int);
        let ghost pieces = split_on(pre, ',');
        assert(cs@.take(i + 1).drop_last() =~= pre);
        assert(cs@.take(i + 1).last() == cs@[i as int]);
        let c = cs[i];
        if c == ',' {
            let t = trim_chars(&cur);
            proof {
                assert(pieces =~= pieces.drop_last().push(cur@));
                lemma_trim_all_push(pieces.drop_last(), cur@);
                lemma_non_empty_push(trim_all(pieces.drop_last()), t@);
                assert(split_on(cs@.take(i + 1), ',') == pieces.push(Seq::<char>::empty()));
                assert(split_on(cs@.take(i + 1), ',').drop_last() =~= pieces);
            }
            if t.len() > 0 {
                let ghost old_r = r@;
                r.push(string_of(&t));
                assert(views(r@) =~= views(old_r).push(t@));
            }
            cur = Vec::new();
        } else {
            cur.push(c);
            assert(split_on(cs@.take(i + 1), ',') == pieces.update(pieces.len() - 1, pieces.last().push(c)));
            assert(split_on(cs@.take(i + 1), ',').drop_last() =~= pieces.drop_last());
        }
        i = i + 1;
    }
    assert(cs@.take(cs.len() as int) =~= cs@);
    let ghost pieces = split_on(cs@, ',');
    let t = trim_chars(&cur);
    proof {
        assert(pieces =~= pieces.drop_last().push(cur@));
        lemma_trim_all_push(pieces.drop_last(), cur@);
        lemma_non_empty_push(trim_all(pieces.drop_last()), t@);
    }
    if t.len() > 0 {
        let ghost old_r = r@;
        r.push(string_of(&t));
        assert(views(r@) =~= views(old_r).push(t@));
    }
    r
}



/// A line of the written default configuration: section headers and empty
/// lines are kept, every other line is commented out with `# `.
pub open spec fn commented(l: Seq<char>) -> Seq<char> {
    if l.len() == 0 || l[0] == '[' {
        l
    } else {
        seq!['#', ' '] + l
    }
}

/// Each line commented as `commented` says.
pub open spec fn commented_all(ls: Seq<Seq<char>>) -> Seq<Seq<char>> {
    ls.map_values(|l: Seq<char>| commented(l))
}

/// The text that precedes the defaults in a written configuration file.
pub open spec fn config_header(path: Seq<char>) -> Seq<char> {
    "# fsearch configuration  ("@ + path + ")\n# All values are defaults. Remove the leading '#' to override.\n\n"@
}

/// The written default configuration: the header naming `path`, then the
/// lines of the serialized defaults `raw`, commented, joined by `\n`.
pub open spec fn annotated_config(raw: Seq<char>, path: Seq<char>) -> Seq<char> {
    config_header(path) + join_with(commented_all(str_lines(raw)), '\n')
}

/// Builds the annotated default configuration written by `config init`:
/// `raw` is the serialized defaults, `path` where the file goes.
pub fn annotate_default(raw: &str, path: &str) -> (r: String)
    ensures
        r@ == annotated_config(raw@, path@),
{
    let lines = lines_of(raw);
    let mut out: Vec<Vec<char>> = Vec::new();
    let mut i: usize = 0;
    while i < lines.len()
        invariant
            i <= lines.len(),
            char_views(out@) == commented_all(char_views(lines@.take(i as int))),
        decreases lines.len() - i,
    {
        let line = &lines[i];
        let keep = line.len() == 0 || line[0] == '[';
        let mut c: Vec<char> = Vec::new();
        if !keep {
            c.push('#');
            c.push(' ');
        }
        let mut k: usize = 0;
        let ghost base = c@;
        while k < line.len()
            invariant
                k <= line.len(),
                c@ == base + line@.take(k as int),
            decreases line.len() - k,
        {
            c.push(line[k]);
            assert(line@.take(k + 1) =~= line@.take(k as int).push(line@[k as int]));
            k = k + 1;
        }
        let ghost old_out = out@;
        out.push(c);
        proof {
            assert(line@.take(line.len() as int) =~= line@);
            assert(c@ == commented(line@)) by {
                if !keep {
                    assert(base =~= seq!['#', ' ']);
                } else {
                    assert(base =~= Seq::<char>::empty());
                    assert(c@ =~= line@);
                }
            }
            assert(char_views(lines@.take(i + 1)) =~= char_views(lines@.take(i as int)).push(line@));
            assert(commented_all(char_views(lines@.take(i + 1))) =~= commented_all(
                char_views(lines@.take(i as int)),
            ).push(commented(line@)));
            assert(char_views(out@) =~= char_views(old_out).push(c@));
        }
        i = i + 1;
    }
    assert(lines@.take(lines.len() as int) =~= lines@);
    let body = join_with_newlines(&out);
    let head = str_concat("# fsearch configuration  (", path);
    let head = str_concat(
        head.as_str(),
        ")\n# All values are defaults. Remove the leading '#' to override.\n\n",
    );
    str_concat(head.as_str(), body.as_str())
}

}
