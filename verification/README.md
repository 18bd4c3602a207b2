# chordscript

Turns a list of keyboard shortcuts (hotkeys made of chord sequences, each
bound to a command) into *keyspaces*: for window managers that cannot chain
chords but can switch between states, every prefix of a hotkey becomes a
state, and each state maps a chord either to the next state or to a command.

Layout:

- `src/structs.rs` — chords, hotkeys and shortcuts.
- `src/keyspace_spec.rs` — the mathematical model: how a list is split into
  groups chord by chord, and the keyspaces that result (`keyspaces_of`).
- `src/keyspace.rs` — the executable algorithm (`VisitedTracker`,
  `SharedChordPartitioner`, `Keyspace`, `KeyspaceList`), proved equal to the
  model.
- `src/keyspace_laws.rs` — every keyspace is backed by the list; in a
  prefix-free list every command is reached.
- `src/keyspace_order.rs` — in a sorted prefix-free list each state is made
  once, each chord does one thing per state, and the keyspaces are the whole
  flattened tree of hotkey prefixes.
- `src/keyspace_walk.rs` — over several calls: a walk covers its container,
  a repeated split changes nothing, and a shortcut with a new first chord
  adds only its own entry and keyspaces.
- `src/deserialise.rs`, `src/deserialise/keyspace_preview.rs` — chords,
  hotkeys, commands, keyspace listings and previews as text.
- `src/constants.rs` — whitespace, separators, modifier and key names.
- `src/cli.rs` — the command line's decisions (help flag, subcommand).
- `app/main.rs` — the program: arguments, the configuration file, printing.
- `tests/` — the tests.
