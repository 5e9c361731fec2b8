# Wolcen mod editor core

The core of a mod editor for *Wolcen: Lords of Mayhem*: it reads the game's
decoded XML into an editable model (skills and their variants, passive-tree
sections and nodes, base player stats, localization strings), writes the
files of a mod with the user's edits applied, and reconstructs the edits of an
existing mod by comparing its files with the game's.

## Layout

- `src/` — the library, verified with Verus.
  - `xml.rs` — the XML event model; quick-xml tokenizes, this module turns its
    events into plain values and states what the writer emits.
  - `text.rs`, `order.rs` — character-level helpers, text order and the
    stable sort used for every listing.
  - `localization.rs`, `skills.rs`, `passives.rs`, `player.rs` — the data views.
  - `export.rs` — grouping edits by file, rewriting a file with its edits,
    mod names and install notes.
  - `import.rs` — comparing a modded file with the original to find the edits.
  - `roundtrip.rs` — what an export writes, and what importing it gives back.
  - `paths.rs`, `setup.rs`, `decode.rs` — locations, first-run checks, Steam
    library discovery, and the decisions of the decode-and-cache procedure.
- `app/` — the file, process and archive work around the library, and the
  JSON shapes the front end exchanges (numbers as `f64`).
- `tests/` — tests of the library on concrete documents.
