# qvp_core

A verified library for a Mushaf page engine and its asset tools, written in Verus.

- `src/` is the library. Every function in it carries a `requires` / `ensures` contract
  over spec functions and views (`Seq`, `Set`, `Map`, integers), and Verus proves each body
  against it. The page model (`model`, `page`) holds a page's records as plain integers;
  text tools (`text`, `forms`, `sidecar`, `json`, `json_value`), styles and masks (`style`, `memorize`,
  `selection`, `target`), page metadata (`meta`, `anchors`, `atlas`), the taxonomy's name
  tables (`taxonomy`) and the surah-name
  asset writers (`names`, `font`, `webfont`, `colors`, `convert`, `zoom_levels`) work on it.
- Laws that span several calls are public proof functions next to the code they speak of,
  for example `style::remove_undoes_add`, `memorize::hide_back_undoes_reveal_next`,
  `text::form_code_round_trip`, `text::match_fold_idempotent`, `taxonomy::name_round_trip`,
  `escapes::json_string_round_trip`, `index_laws::words_index_round_trip`,
  `font::dict_int_round_trip` and `font::font_checksum_law`.
- Calls into outside code stand behind small trusted wrappers marked
  `#[verifier::external_body]`, each with a doc comment naming the function it calls.
- `tests/` runs the library on concrete pages, fonts and strings.
- `app/` is ordinary Rust around the library: file access, floating-point outline work with
  `kurbo`, font validation with `ttf-parser`, and JSON numbers as `f64`.
