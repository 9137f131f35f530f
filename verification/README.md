# vaultiel

A library for reading and editing Obsidian-style Markdown vaults: parsing
wikilinks, tags, headings, block IDs, tasks, inline properties and YAML
frontmatter; building the link graph; searching; health checks; exports to
Cypher and JSON-LD; and a cache of parsed notes.

The library under `src/` is written in Verus. Each public function carries a
contract stated over mathematical models (sequences of characters, maps,
the tree of a YAML value) and is proved against it; laws that relate several
functions are public proof functions. Calls into `serde_yaml`, `serde_json`, `regex`,
`regex-syntax`, `glob`, `chrono`, `unicode-normalization` and `urlencoding`
go through small trusted wrappers whose contracts state what those crates do.
Columns and offsets that the parsers report are UTF-8 byte offsets, as in
Rust string slicing.

`app/` is the command-line program around the library: it reads and writes
files, parses arguments and prints JSON. `tests/` holds the tests.

Layout of `src/`:

- `text`, `str_map`, `yaml`: characters and strings, a map keyed by strings,
  YAML values.
- `parser/`: frontmatter, code blocks, wikilinks, tags, headings, block IDs,
  inline properties and attributes, tasks and task trees, relative dates.
- `note`, `properties`: a note and its edits.
- `graph/`: link resolution and the link graph.
- `search/`: the query language, its parser and its matcher.
- `health/`: lint checks and their reports.
- `export/`: Cypher and JSON-LD.
- `cache/`: cached records and the vault cache.
- `cli/`: command logic that needs no file system (content edits and
  pattern replacement outside code blocks, links, tasks, rename, search
  filters and match context, lint outcome, vault statistics and extended
  statistics, vault-wide and nested tags, heading outlines, block
  references).
