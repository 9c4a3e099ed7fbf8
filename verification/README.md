# flea_watch

Watches a game window for captchas and items.

- `src/` is the library: the frame recorder, grey conversion, the judgement of template matches,
  the search for the best positions of a match, the catalogue of item pictures, and the one-shot
  screenshot. Every function carries a contract that Verus proves, except for the seven wrappers
  in `src/codec.rs`, `src/items.rs` and `src/frame.rs`: their contracts state what a call into the
  `image` and `png` crates or into std does, and are taken on trust.
- `tests/` runs the library on concrete values.
- `app/` is the program: `screenshot`, `watch` and `poll` capture the window (Windows only), and
  `find-item` looks for an item in a saved frame. Templates are matched on the graphics card; the
  library is handed the matcher.

Scores are single-precision numbers. The library holds their bits and orders those, so that no
rounding enters any of its decisions.
