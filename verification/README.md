# pubspec_lsp

A language server for Dart/Flutter `pubspec.yaml` files (package-name and
version completion, outdated/discontinued diagnostics, update and sort code
actions, hover), with its logic verified by Verus.

- `src/` — the verified library. Each public function states what it
  returns in its `ensures`, over spec functions and views; the laws that
  span several functions are public proof functions (`law_*`).
  - `text`, `lsp`, `document`: character-level text handling, LSP
    positions (UTF-16 columns), the document store.
  - `yaml`, `pubspec`: the dependency model read from the YAML tree that
    `marked-yaml` builds (trusted wrappers, results named by spec functions).
  - `versions`: whether a constraint is outdated (semantics from `semver`).
  - `context`, `completions`, `hover`, `diagnostics`, `actions`,
    `sort_section`, `sort_laws`, `server`: the features.
  - `pubdev`, `extension`: package metadata as the library reads it, and
    the names and paths the editor extension uses.
- `app/` — the server binary and the editor extension glue: stdio
  transport, HTTP requests and caches, timers, file system, conversions
  to and from the protocol types.
- `tests/` — tests of the library.
