# Egaku (描く)

Widget state machines for terminal and GPU user interfaces — text editing,
lists, tabs, focus, modals, key maps, tables, diffs and a fuzzy picker —
written in Verus and proved against their contracts.

## Layout

- `src/` is the verified library. Every public function states what it
  returns or changes (the table, in terms of what the caller's `TableRow`
  methods can answer); the laws that relate several functions are public proof
  functions named `law_*`. Highlights:
  - `chigai`: Myers' shortest edit script over a prefix/suffix-trimmed window,
    with a cost bound past which it falls back to a block replace. Every
    script reconstructs both inputs (`law_diff_reconstructs`); the search
    finishes exactly when some script stays within the bound, and then no
    script has fewer edits (`diff`'s `is_shortest` clause, proved in
    `shortest`); past the bound, the window between the common ends is
    replaced as a block.
  - `diff`: a unified-diff parser (hunk bodies read to the lengths their
    headers announce; `try_parse` for any text) and its row model (unified and side by
    side, collapsible files and hunks, hunk and file navigation).
  - `input`, `secret`, `textarea`, `textview`: grapheme-aware text editing and
    wrapping over a byte cursor; the secret input keeps its buffer in a
    `zeroize::Zeroizing<String>` and edits it in place.
  - `picker`: the picker's routing state machine, its fuzzy scorer, and
    `PickerCore`, the picker's query, ranking (by score, then frecency rank,
    then position) and highlight over items known by index.
  - `keymap`, `list`, `tabs`, `focus`, `modal`, `selectable`, `table`: the
    widgets' state and its invariants.
  - `color`: reading and writing `#RRGGBB` channel bytes
    (`law_hex_round_trip`).
  - `strings`: character and UTF-8 helpers, and the trusted wrappers around
    `std` and `unicode-segmentation`.
- `app/` holds what Verus cannot take: the floating-point widgets (layout
  rectangles, split panes, kinetic scrolling, colour themes, and the
  picker's `f64` frecency weights, which it turns into the integer ranks
  `PickerCore` orders by) and the `std::error::Error` form of the table's
  refusal.
- `tests/` runs the library: the widgets' scenarios and one test per law.

## Build

Verification and tests run through the project's Verus toolchain; `app/` is
ordinary Rust that depends on the library.
