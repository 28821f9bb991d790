# okq

A command-line tool for searching and navigating Open Knowledge Format (OKF)
bundles — directories of Markdown files with YAML frontmatter, cross-linked
into a knowledge graph — whose logic is verified with Verus.

## Layout

- `src/` — the library, every function verified against
  its contract:
  - `text`, `fmt`, `style`: character-level text handling, padding, ANSI codes;
  - `sections`, `index`, `wikilinks`, `tags`: what a concept body holds
    (heading sections, search units, `[[wikilinks]]`, `#tags`);
  - `concept`, `model`, `view`, `resolve`, `identity`: concept ids, the loaded
    bundle and its visible part, resolving what a user typed to a concept;
  - `edges`, `order`, `graph`: the typed link graph, its traversals, orphans
    and dead links;
  - `ignore_rules`: `.okqignore` files compiled with the `ignore` crate's
    builder, ordered deepest first, and their precedence;
  - `snippet`: the text shown with a search hit;
  - `splice`, `templates`: the marker-delimited blocks okq manages in
    `README.md` and `index.md`, and the files `init` and `new` write;
  - `trust`, `error`, `cli`: trust labels, errors and exit codes, arguments;
  - `commands/*`: what each command computes and renders.
- `app/` — the program around it: argument parsing (clap), reading the bundle
  (okf), the search index (Tantivy), JSON envelopes (serde, schemars), file
  writes and printing.
- `tests/` — tests of the library's public functions.

Calls into outside crates that the logic makes (okf's id parsing,
pulldown-cmark's event stream, regex, the `ignore` matchers, Unicode case
mapping) go through small trusted wrappers whose contracts are stated next to
them; everything built on them is verified.
