# rusted_light

The search logic of a Spotlight-style application launcher for Linux, written in
Verus and verified.

- `src/text.rs` — characters, whitespace, trimming, splitting, joining, ordering of text.
- `src/desktop_entry.rs` — `.desktop` file parsing, the XDG application directories,
  `Exec` command lines, the de-duplicated and sorted application list, name filtering.
- `src/ranking.rs` — stable ordering of scored items, highest score first, and its laws.
- `src/providers/` — search results, the provider trait and the provider manager
  (`mod.rs`), application search (`apps.rs`), file search with its index and the
  `plocate` fallback (`files.rs`), and the calculator's query and result rules (`calc.rs`).
- `app/` — the GTK program around the library: scanning directories, the background
  indexer, running `plocate`, expression evaluation, spawning processes, the clipboard.
- `tests/` — tests of the library.

Fuzzy matching is done by `nucleo-matcher`; its scores enter the contracts as a named
function of the query and the text matched.
