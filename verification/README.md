# hyprkcs

A keybind manager for the Hyprland compositor: it reads `hyprland.conf`
(following `source = ` lines), lists and searches the keybinds, finds
conflicting and broken ones, and writes edits back to the files.

- `src/` is the library, verified with Verus: the configuration format
  (keybind lines, submaps, variables), the edits written back, conflict
  detection and the conflict wizard's groups, the search language, macros,
  the settings files (appearance, input, HUD overlay, favorites), backups and
  their diff reports, and the decisions of the windows (forms, bulk replace,
  visual keyboard, list shortcuts, settings choices). Its public proof
  functions state the laws the library keeps, among them that a keybind
  line it writes is read back as written (`readback.rs`), that saved
  appearance settings are read back (`style_readback.rs`), that input
  settings saved into a file without an `input` block, or into one with a
  single `input` block holding no inner block and at most one `gesture`
  line outside it, are read back (`input_readback.rs`), that renaming a variable and renaming it back gives
  the text again (`refs.rs`), and that canonical key combinations are
  stable (`normalize_laws.rs`).
- `app/` is the command-line program around it: finding and reading the
  configuration files, `--print`, `--search`, `--doctor`, and the file I/O
  of the settings and backups.
- `tests/` holds the tests, run against the compiled library.
