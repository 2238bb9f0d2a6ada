# notes

A terminal note-taking application whose logic is a Verus-verified library.
Notes keep every version of their content, carry tags, colours, pins,
passwords, reminders and links, go to a trash bin when deleted, can be
searched, exported, counted on a dashboard, and are saved to a text file.

## Layout

- `src/` — the verified library (crate `lib`):
  - `text.rs` — character-level text functions (trimming, splitting, lines,
    words, decimal numbers) stated over the `char` view of strings;
  - `clock.rs` — reading the system clock;
  - `note.rs` — notes, versions, colours, timestamps and diffs;
  - `manager.rs` — the collection of notes, the trash and every operation on
    them;
  - `laws.rs` — properties that relate the manager's operations;
  - `search.rs`, `stats.rs`, `export.rs`, `layout.rs` — searching, dashboard
    figures, Markdown and plain-text renderings, terminal layout;
  - `storage.rs` — the saved text format and reading it back;
  - `persistence.rs` — what saving and reading back preserve;
  - `menu.rs` — which command an answer at a menu prompt selects.
- `tests/` — tests of the library.
- `app/` — the terminal program: menus, prompts, files.

Every function that depends on the current time has a sibling ending in
`_at` that takes the time as an argument and is specified exactly.
