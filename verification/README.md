# emoji_input

The logic of an IBus emoji input method for GNOME, verified with Verus:
the composition buffer and its key handling, prefix search over the emoji
database with variant expansion, ordering of results by the recent list or
by a ranked usage history, the popup's keyboard navigation and remembered
variant choices, and the small rules of the engine process (bus address
files, data paths, cache freshness, the popup's commit token).

Layout:

- `src/` — the verified library.
  - `text.rs` — character-level string helpers (trim, prefix, lines of text).
  - `sort.rs` — stable sorting by an integer key, stated as "ordered by the
    key, same items per key in the same order", with uniqueness and
    existence of that order.
  - `emoji.rs` — the data types and their views.
  - `search.rs` — query normalization, matching, the database search and the
    ranked search.
  - `engine.rs` — the engine's state machine, what a key press reports, and
    the recent list kept in the order of the ranked history.
  - `history.rs` — the ranked usage history.
  - `picker.rs` — variant preferences, row texts, popup navigation.
  - `ibus.rs` — address files, data paths, cache and token rules.
  - `store.rs` — the plain form of the recent-list file (a JSON array of
    strings, read through serde_json).
- `tests/` — tests run against the compiled library.
- `app/` — the programs around the library: D-Bus services (zbus), files and
  the JSON of the library's own types (serde), the GTK popup and the libadwaita preferences window.
