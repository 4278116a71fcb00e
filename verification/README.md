# cmrs

The logic of a Windows 11 context-menu shell extension whose menu entries are
JSON config files, written in Verus: every function in `src/` carries a
contract, and Verus proves all of them but five small wrappers around
outside code, whose contracts are trusted: `regex_new` and `regex_match`
(the `regex` crate), `md5_compute` (the `md5` crate), and `push_char` and
`to_lowercase` (std). Each one's doc comment says what its contract claims.

- `src/config.rs` — a config's effective flags, which items it accepts,
  `{variable}` substitution and parameter building, title rules, loading
  and ordering of config files.
- `src/setup.rs` — package generation: slugs, deterministic CLSIDs, icon
  specs, XML escaping, item types, the package manifest, classic-menu
  targets.
- `src/installer.rs` — the installer: its command line, what each config
  becomes (package, icons, registry writes), the ledger a sync keeps,
  file URIs, stale items.
- `src/shell.rs` — the Explorer command: classifying items, matching
  configs to a selection, the CLSID mapping, titles, icons, sub-commands.
- `src/exec.rs` — the launches a config makes for a selection.
- `src/icons.rs` — badge compositing, alpha repair, .ico encoding and the
  per-size plan of a generated icon.
- `src/paths.rs` — the data directory layout.
- `src/text.rs` — the character-level helpers the rest is built on.

Most modules end with public proof functions that state properties of the
library as a whole.

`app/` holds what talks to the system and stays unverified: JSON
(de)serialisation, the file system and environment, and, on Windows, the
COM server, ShellExecuteExW, GDI icon extraction, the package manager and
the registry.
