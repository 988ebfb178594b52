# tuiman

A terminal browser for terminal user interfaces: it lists the TUIs of a
curated catalog, filters and sorts them, and installs, upgrades or removes
them through whichever package managers the machine has. A companion
indexer builds the catalog from the awesome-tuis list, GitHub metadata and
the package registries, and publishes it as a compact binary index.

## Layout

- `src/` is the library, verified with Verus. It holds the index format
  (`catalog`, `format`, `readback`), the query and view logic (`query`,
  `listing`, `cli`), the interface state machine (`app`, `events`,
  `commands`, `pickers`, `jobs`, `hints`), the installed-state tracking
  (`installed`, `cache`, `managers`, `change`), and the indexer's rules
  (`readme`, `item`, `github`, `bulk`, `brew`, `repology`, `registries`,
  `overrides`, `publish`). Calls into outside crates (fuzzy matching, TOML
  and JSON parsing, gzip and brotli) sit behind small trusted wrappers whose
  contracts name what the call returns.
- `app/` is the program around it: the terminal loop and drawing, process
  spawning, HTTP and the file system, and the indexer binary. It hands the
  library plain values and acts on what comes back.
- `tests/` exercises the library through its public interface.

Run `tuiman` for the browser, `tuiman list|install|uninstall|upgrade` for
the command line, and the same binary under the name `tuiman-indexer` to
build an index.
