# fsearch

Fast file search and duplicate finder. The library under `src/` holds the
decisions, parsers and formatters of the tool, each with a contract proved by
Verus; `app/` is the command-line program around it (argument parsing,
directory walks, file reads, configuration files, coloured output).

Modules of the library:

- `text`: white space, trimming, comma-separated lists, lines, decimal rendering.
- `pattern`: glob, include and exclude tests on names (through the `glob` crate).
- `searcher`: search options, the decision for each directory entry, the
  scan of a file's text for matching lines, result limits.
- `duplicates`: grouping by digest, name or size, ordering by wasted space,
  summaries, human-readable sizes, duplicate-scan options.
- `digest`: MD5 and SHA-256 digests (through `md-5` and `sha2`) in lower-case hex.
- `pathorder`: the order in which paths of a group are listed.
- `binary`: the binary-content heuristic.
- `config`, `cli`: settings with their defaults, and the options a command line makes.
- `colors`, `output`, `error`: hex colours, listing labels, error messages.
