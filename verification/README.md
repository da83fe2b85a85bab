# rimsort-core

The core of a RimWorld mod manager, written in Verus: reading mod metadata (`About.xml`),
RimWorld's `ModsConfig.xml`, RimSort's rule databases and settings, sorting the active mods
into a valid load order, validating it, searching mod files, and the smaller file formats the
manager reads and writes. Each function states its behaviour in `requires`/`ensures` and is
proved by Verus; the laws that span several functions (a written element reads back, a saved
snapshot reads back, sorting only reorders, ...) are public proof functions.

Layout:

- `src/` — the verified library, one module per concern (`xml`, `json`, `about`, `mods`,
  `modsconfig`, `rules`, `sort`, `validate`, `search`, `detect`, `state`, `task`, ...).
  Calls into outside crates (serde_json, regex, natord, uuid, flate2, encoding_rs, petgraph)
  go through small trusted wrappers whose contracts say what those crates document.
- `tests/` — tests of the library on concrete values.
- `app/` — the command-line program around the library: file and network I/O, running
  SteamCMD, todds and the game, and the on-disk formats that need serde.

Verify with `verus` on `src/lib.rs`; build the program from `app/`.
