//! The command line of the tool: its subcommands and arguments, the paths
//! they name, and the options they make with the configuration.

use vstd::prelude::*;
use vstd::hash_set::StringHashSet;
use crate::config::{split_csv, Config};
use crate::duplicates::{DuplicateMode, DuplicateOptions, HashAlgorithm};
use crate::searcher::{lower_all, parse_patterns, SearchOptions};
use crate::text::{csv_items, first_occurrences, lemma_first_occurrences, views};

verus! {

/// The parsed command line.
pub struct Cli {
    pub command: Command,
}

/// The subcommands.
pub enum Command {
    /// Search for files by name or content.
    Find(FindArgs),
    /// Find duplicate files.
    Dup(DupArgs),
    /// Configuration helpers.
    Config(ConfigArgs),
}

/// Arguments of `find`.
pub struct FindArgs {
    /// Pattern to search for (supports `*` and `?` wildcards).
    pub pattern: String,
    /// Directories to search (positional).
    pub paths: Vec<String>,
    /// Additional search directories (`-p`).
    pub path_flags: Vec<String>,
    /// Search method.
    pub method: SearchMethod,
    /// Case-insensitive matching (`-c`).
    pub case_insensitive: bool,
    /// Case-sensitive matching (`-C`, overrides `-c`).
    pub case_sensitive: bool,
    /// Maximum directory depth (0 = the given directory only).
    pub depth: u32,
    /// Exclude directories from results (files only).
    pub no_dir: bool,
    /// Search for text inside files instead of matching file names.
    pub search_in_files: bool,
    /// Only include files matching these glob patterns (comma-separated).
    pub include_globs: String,
    /// Additional directory names to skip (comma-separated).
    pub exclude: String,
    /// Limit number of results (0 = unlimited).
    pub max_results: usize,
    /// Print status messages and timing.
    pub verbose: bool,
}

/// The search engine: 1 = walkdir + rayon, 2 = recursive.
#[derive(Clone, Copy, Debug, PartialEq, Eq, Structural)]
pub enum SearchMethod {
    Walkdir,
    Recursive,
}

/// Arguments of `dup`.
pub struct DupArgs {
    /// Directories to scan (positional).
    pub paths: Vec<String>,
    /// Additional scan directories (`-p`).
    pub path_flags: Vec<String>,
    /// Detection mode.
    pub mode: DupMode,
    /// Hashing algorithm for content mode.
    pub algo: DupAlgo,
    /// Maximum directory depth.
    pub depth: u32,
    /// Only include files matching these glob patterns (comma-separated).
    pub include_globs: String,
    /// Additional directory names to skip (comma-separated).
    pub exclude: String,
    /// Skip files smaller than this many bytes.
    pub min_size: u64,
    /// Skip files larger than this many bytes (0 = no limit).
    pub max_size: u64,
    /// Skip binary files during content hashing.
    pub skip_binary: bool,
    /// Limit number of groups shown (0 = unlimited).
    pub max_results: usize,
    /// Print status messages and timing.
    pub verbose: bool,
}

/// Detection mode of `dup`.
#[derive(Clone, Copy, Debug, PartialEq, Eq, Structural)]
pub enum DupMode {
    /// Byte-for-byte identical content (uses hashing).
    Content,
    /// Same file name in different directories.
    Name,
    /// Same file size (fast but imprecise).
    Size,
}

/// Hashing algorithm of `dup`.
#[derive(Clone, Copy, Debug, PartialEq, Eq, Structural)]
pub enum DupAlgo {
    Md5,
    Sha256,
}

/// Arguments of `config`.
pub struct ConfigArgs {
    pub action: ConfigAction,
}

/// The configuration helpers.
#[derive(Clone, Copy, Debug, PartialEq, Eq, Structural)]
pub enum ConfigAction {
    /// Write an annotated default configuration file.
    Init,
    /// Print the active configuration.
    Show,
    /// Print where the configuration file is stored.
    Path,
}

/// The directories a subcommand works on: the positional paths, then the
/// `-p` ones, each kept where it first appears; `.` when there are none.
pub open spec fn resolved(paths: Seq<Seq<char>>, flags: Seq<Seq<char>>) -> Seq<Seq<char>> {
    let all = first_occurrences(paths + flags);
    if all.len() == 0 {
        seq![seq!['.']]
    } else {
        all
    }
}

proof fn lemma_contains_push<A>(s: Seq<A>, x: A, y: A)
    ensures
        s.push(x).contains(y) <==> s.contains(y) || y == x,
{
    if s.push(x).contains(y) {
        let k = choose|k: int| 0 <= k < s.len() + 1 && s.push(x)[k] == y;
        if k < s.len() {
            assert(s[k] == y);
        }
    }
    if s.contains(y) {
        let k = choose|k: int| 0 <= k < s.len() && s[k] == y;
        assert(s.push(x)[k] == y);
    }
    if y == x {
        assert(s.push(x)[s.len() as int] == y);
    }
}

/// Appends to `r` the items of `items` not seen before, marking them seen.
fn add_unseen(
    r: &mut Vec<String>,
    seen: &mut StringHashSet,
    items: &Vec<String>,
    Ghost(before): Ghost<Seq<Seq<char>>>,
)
    requires
        views(old(r)@) == first_occurrences(before),
        forall|p: Seq<char>| #[trigger] old(seen)@.contains(p) <==> before.contains(p),
    ensures
        views(final(r)@) == first_occurrences(before + views(items@)),
        forall|p: Seq<char>| #[trigger] final(seen)@.contains(p) <==> (before + views(items@)).contains(p),
{
    let ghost all = before + views(items@);
    let mut i: usize = 0;
    assert(all.take(before.len() as int) =~= before);
    while i < items.len()
        invariant
            all == before + views(items@),
            i <= items.len(),
            views(r@) == first_occurrences(all.take(before.len() + i)),
            forall|p: Seq<char>| #[trigger] seen@.contains(p) <==> all.take(before.len() + i).contains(p),
        decreases items.len() - i,
    {
        let ghost pre = all.take(before.len() + i);
        let ghost x = items@[i as int]@;
        proof {
            assert(all[before.len() + i] == x);
            assert(all.take(before.len() + i + 1) =~= pre.push(x));
            assert(pre.push(x).drop_last() =~= pre);
            assert forall|p: Seq<char>| pre.push(x).contains(p) <==> pre.contains(p) || p == x by {
                lemma_contains_push(pre, x, p);
            }
        }
        let fresh = seen.insert(items[i].clone());
        if fresh {
            let ghost old_r = r@;
            r.push(items[i].clone());
            assert(views(r@) =~= views(old_r).push(x));
        }
        i = i + 1;
    }
    assert(all.take(before.len() + items.len()) =~= all);
}

/// Merges positional paths and `-p` paths into one list without repeats,
/// in order; falls back to `["."]` when nothing is given.
pub fn resolve_paths(paths: &Vec<String>, flags: &Vec<String>) -> (r: Vec<String>)
    ensures
        views(r@) == resolved(views(paths@), views(flags@)),
{
    let mut seen = StringHashSet::new();
    let mut r: Vec<String> = Vec::new();
    assert(first_occurrences(Seq::<Seq<char>>::empty()) =~= Seq::<Seq<char>>::empty());
    assert(views(r@) =~= Seq::<Seq<char>>::empty());
    add_unseen(&mut r, &mut seen, paths, Ghost(Seq::empty()));
    assert(Seq::<Seq<char>>::empty() + views(paths@) =~= views(paths@));
    add_unseen(&mut r, &mut seen, flags, Ghost(views(paths@)));
    if r.len() == 0 {
        let mut dot: Vec<String> = Vec::new();
        dot.push(".".to_owned());
        proof {
            reveal_strlit(".");
            assert("."@.len() == 1);
            assert("."@[0] == '.');
            assert("."@ =~= seq!['.']);
            assert(dot@[0]@ == "."@);
            assert(views(dot@) =~= seq![seq!['.']]);
        }
        dot
    } else {
        r
    }
}

impl FindArgs {
    /// Merge positional `paths` and `-p` flags into one list without repeats,
    /// in order; `["."]` when nothing is given.
    pub fn resolved_paths(&self) -> (r: Vec<String>)
        ensures
            views(r@) == resolved(views(self.paths@), views(self.path_flags@)),
    {
        resolve_paths(&self.paths, &self.path_flags)
    }
}

impl DupArgs {
    /// Merge positional `paths` and `-p` flags into one list without repeats,
    /// in order; `["."]` when nothing is given.
    pub fn resolved_paths(&self) -> (r: Vec<String>)
        ensures
            views(r@) == resolved(views(self.paths@), views(self.path_flags@)),
    {
        resolve_paths(&self.paths, &self.path_flags)
    }
}


/// Whether a `find` ignores case: `-C` wins, then `-c`, then the configuration.
pub open spec fn find_case_insensitive(a: FindArgs, cfg: Config) -> bool {
    if a.case_sensitive {
        false
    } else if a.case_insensitive {
        true
    } else {
        cfg.case_insensitive
    }
}

/// The directories skipped: those of the configuration, then those given
/// with `-x`.
pub open spec fn merged_excludes(cfg: Config, extra: Seq<char>) -> Seq<Seq<char>> {
    csv_items(cfg.exclude_dirs@) + csv_items(extra)
}

/// A result limit given on the command line (0 = none given) wins over the
/// configured one.
pub open spec fn effective_limit(arg: usize, configured: usize) -> usize {
    if arg > 0 {
        arg
    } else {
        configured
    }
}

/// The configured excludes followed by those of a comma-separated list.
fn exclude_list(cfg: &Config, extra: &str) -> (r: Vec<String>)
    ensures
        views(r@) == merged_excludes(*cfg, extra@),
{
    let mut r = cfg.excluded_dirs();
    let mut more = split_csv(extra);
    let ghost a = r@;
    let ghost b = more@;
    r.append(&mut more);
    assert(r@ == a + b);
    assert(views(r@) =~= views(a) + views(b));
    r
}

impl FindArgs {
    /// The options of the search this command line asks for, with `cfg`
    /// filling in what it leaves open.
    pub fn search_options(&self, cfg: &Config) -> (o: SearchOptions)
        ensures
            views(o.base_dirs@) == resolved(views(self.paths@), views(self.path_flags@)),
            o.pattern@ == self.pattern@,
            o.max_depth == self.depth,
            o.include_dirs == !self.no_dir,
            o.case_insensitive == find_case_insensitive(*self, *cfg),
            o.search_in_files == self.search_in_files,
            views(o.include_patterns@) == ({
                let raw = if self.include_globs@.len() > 0 {
                    self.include_globs@
                } else {
                    cfg.default_include@
                };
                if find_case_insensitive(*self, *cfg) {
                    lower_all(csv_items(raw))
                } else {
                    csv_items(raw)
                }
            }),
            views(o.exclude_dirs@) == merged_excludes(*cfg, self.exclude@),
            o.max_line_length == cfg.max_line_length,
            o.binary_check_bytes == cfg.binary_check_bytes,
            o.max_results == effective_limit(self.max_results, cfg.max_results),
    {
        let ci = if self.case_sensitive {
            false
        } else if self.case_insensitive {
            true
        } else {
            cfg.case_insensitive
        };
        let include_patterns = if !self.include_globs.as_str().is_empty() {
            parse_patterns(self.include_globs.as_str(), ci)
        } else {
            parse_patterns(cfg.default_include.as_str(), ci)
        };
        SearchOptions {
            base_dirs: self.resolved_paths(),
            pattern: self.pattern.clone(),
            max_depth: self.depth,
            include_dirs: !self.no_dir,
            case_insensitive: ci,
            search_in_files: self.search_in_files,
            include_patterns,
            exclude_dirs: exclude_list(cfg, self.exclude.as_str()),
            max_line_length: cfg.max_line_length,
            binary_check_bytes: cfg.binary_check_bytes,
            max_results: if self.max_results > 0 {
                self.max_results
            } else {
                cfg.max_results
            },
        }
    }
}

/// The detection mode a `--mode` value selects.
pub open spec fn mode_of(m: DupMode) -> DuplicateMode {
    match m {
        DupMode::Content => DuplicateMode::Content,
        DupMode::Name => DuplicateMode::Name,
        DupMode::Size => DuplicateMode::Size,
    }
}

/// The algorithm an `--algo` value selects.
pub open spec fn algorithm_of(a: DupAlgo) -> HashAlgorithm {
    match a {
        DupAlgo::Md5 => HashAlgorithm::Md5,
        DupAlgo::Sha256 => HashAlgorithm::Sha256,
    }
}

impl DupArgs {
    /// The options of the scan this command line asks for, with `cfg`
    /// filling in what it leaves open.
    pub fn duplicate_options(&self, cfg: &Config) -> (o: DuplicateOptions)
        ensures
            views(o.base_dirs@) == resolved(views(self.paths@), views(self.path_flags@)),
            o.max_depth == self.depth,
            o.mode == mode_of(self.mode),
            o.algorithm == algorithm_of(self.algo),
            o.buffer_size == cfg.hash_buffer_size,
            o.min_size == self.min_size,
            o.max_size == self.max_size,
            o.skip_binary == self.skip_binary,
            o.binary_check_bytes == cfg.binary_check_bytes,
            views(o.include_patterns@) == csv_items(self.include_globs@),
            views(o.exclude_dirs@) == merged_excludes(*cfg, self.exclude@),
            o.max_results == effective_limit(self.max_results, cfg.max_results),
    {
        DuplicateOptions {
            base_dirs: self.resolved_paths(),
            max_depth: self.depth,
            mode: match self.mode {
                DupMode::Content => DuplicateMode::Content,
                DupMode::Name => DuplicateMode::Name,
                DupMode::Size => DuplicateMode::Size,
            },
            algorithm: match self.algo {
                DupAlgo::Md5 => HashAlgorithm::Md5,
                DupAlgo::Sha256 => HashAlgorithm::Sha256,
            },
            buffer_size: cfg.hash_buffer_size,
            min_size: self.min_size,
            max_size: self.max_size,
            skip_binary: self.skip_binary,
            binary_check_bytes: cfg.binary_check_bytes,
            include_patterns: split_csv(self.include_globs.as_str()),
            exclude_dirs: exclude_list(cfg, self.exclude.as_str()),
            max_results: if self.max_results > 0 {
                self.max_results
            } else {
                cfg.max_results
            },
        }
    }
}


/// The resolved directories are never empty, hold no directory twice, and
/// hold exactly the directories given (or only `.` when none is given).
pub proof fn law_resolved_paths(paths: Seq<Seq<char>>, flags: Seq<Seq<char>>)
    ensures
        resolved(paths, flags).len() >= 1,
        resolved(paths, flags).no_duplicates(),
        (paths + flags).len() > 0 ==> forall|x: Seq<char>| #[trigger] resolved(paths, flags).contains(x)
            <==> (paths + flags).contains(x),
        (paths + flags).len() == 0 ==> resolved(paths, flags) == seq![seq!['.']],
{
    let all = paths + flags;
    lemma_first_occurrences(all);
    if all.len() > 0 {
        assert(all.contains(all[0]));
        assert(first_occurrences(all).contains(all[0]));
    } else {
        assert(first_occurrences(all).len() == 0) by {
            assert(all =~= Seq::<Seq<char>>::empty());
        }
    }
}


/// `-C` always gives case-sensitive matching, whatever `-c` and the
/// configuration say; `-c` alone gives case-insensitive matching; with
/// neither, the configuration decides.
pub proof fn law_case_flags(a: FindArgs, cfg: Config)
    ensures
        a.case_sensitive ==> !find_case_insensitive(a, cfg),
        !a.case_sensitive && a.case_insensitive ==> find_case_insensitive(a, cfg),
        !a.case_sensitive && !a.case_insensitive ==> find_case_insensitive(a, cfg) == cfg.case_insensitive,
{
}

}
