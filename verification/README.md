# config_core

Domain-free config primitives for a family of apps that share a window → group → tab TOML
config shape. The library (`src/`) is verified with Verus; `app/` holds the file-system and
environment side, the serde / `Display` forms of the library's types, and the `PathBuf`-typed
forms of its root types.

- `model` — `Density`, `OpenOnLaunch`, `Warning`, `Group<T>`, and the shared field defaults.
- `paths` — where the config lives: an environment override when set and non-empty, else
  `~/.config/<app_dir>/config.toml`.
- `seed` — a starter config on request that never overwrites an existing file.
- `edit` — `add_tab`: append a tab table to a named window (or a window's named group) in a
  TOML document through `toml_edit`, keeping everything else as written.
- `roots` — project-tree roots: validation, tilde expansion, tree paths, and `ProjectScan`, the
  decisions of a directory walk that stops at git roots, skips hidden directories and symlinks,
  and honours a depth budget; `discover_projects` flattens the scans of several roots. The
  scan's laws (what it finds, path by path; each project once, in strict path order; two scans
  of one tree agree; a deeper scan keeps what a shallower one found) are proof functions there.
- `pathname`, `path_order`, `text` — Unix path syntax (components, join, prefix stripping, file
  names), the component-wise path order with a sort, and whitespace trimming.
