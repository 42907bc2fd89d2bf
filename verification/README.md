# thymeleaf_ls

A language server for [Thymeleaf](https://www.thymeleaf.org/) HTML templates:
completion, hover, diagnostics, code actions, fragment navigation and rename,
document and workspace symbols, highlights, semantic tokens, folding and
document links. The editor features are a library verified with Verus; a thin
binary speaks the Language Server Protocol over stdio.

## Layout

- `src/` — the verified library.
  - `text.rs` — character, UTF-8 and UTF-16 helpers and their lemmas.
  - `thymeleaf.rs` — the Standard Dialect catalog and name lookup.
  - `fragmentref.rs` — locating fragment names in `th:fragment` /
    `th:insert` / `th:replace` / `th:include` values.
  - `syntax.rs` — tree-sitter parsing, read into a plain node arena.
  - `document.rs` — a parsed document: offset/position conversion, attributes,
    cursor context, incremental edits.
  - `vault.rs` — the store of documents keyed by URI and its fragment index.
  - `completion.rs`, `hover.rs`, `diagnostics.rs`, `code_actions.rs`,
    `navigation.rs`, `rename.rs`, `symbols.rs`, `highlight.rs`,
    `semantic_tokens.rs`, `folding.rs`, `links.rs` — the features.
  - `server.rs` — command-line log level, workspace root, scanned files.
- `tests/` — tests of the library.
- `app/` — the server process: protocol types, request handlers, the
  workspace walk, logging.

Every public function states its result over spec functions of the text and
of the syntax arena, the pre-order list of nodes read from tree-sitter's parse
(kinds, byte ranges, parent and sibling links); the arena is checked to be
consistent with the text and tree-shaped, and its rows are the line numbers of
its byte ranges. Which tree the grammar builds for a text is tree-sitter's and
is not stated. The `law_*` proof functions state the properties that hold
across inputs or relate several calls (position round trips, lookup
spellings, the forms of fragment references, bracket nesting, the edit
distance as the least number of edits, what a store returns after a write,
workspace-wide reach of navigation and rename).

## Usage

```bash
thymeleaf_ls --level DEBUG
```

Logs go to stderr as JSON; stdout carries the protocol.
