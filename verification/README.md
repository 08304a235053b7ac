# cosense_core

The logic of a terminal viewer and editor for Cosense (Scrapbox) pages,
written in Verus: each public function carries a contract over a
mathematical model of its inputs and results, and Verus proves the code
meets it.

## Layout

- `src/` — the verified library.
  - Pages: `outline` (outline planning), `editops` and `undo` (whole-page
    edit scripts, applying them, inverting them, and the laws that the
    edited text comes out and undo gives text and ids back), `render`,
    `decorate`, `inline`, `page`, `table` (turning notation into styled
    runs and table layout), `math` (formulas drawn as text).
  - The viewer's decisions: `content` (the page's rows block by block,
    with the caret line as raw source; cutting the caret line into its
    prefix, selection and rest; the related-pages rows; the header line),
    `inline_layout` (pictures and formulas set on the text line in line
    boxes), `weave` (where
    review cards and the composer go among the rows), `view_settings`
    (flags, environment, settings file and defaults, with origins),
    `web_batch` (what the web-render worker does with a batch of jobs),
    `chrome` (the browser-side wait state machine and URL helpers).
  - Data around pages: `index` (the page list, filters, counts, match
    ranges), `comment`, `config` (the parsed settings, and the edit of one
    key in the file's text through toml_edit), `api`, `capability`, `lang`, `ime`,
    `clipboard`, `image_fetch`, `image_probe`, `bytes`, `clock`, `text`.
  - Calls into other crates (`unicode-width`, `toml_edit`) and into std where vstd
    gives no specification sit behind small trusted wrappers, each with a
    doc comment saying what it claims.
- `tests/` — tests run against the compiled library.
- `app/` — ordinary Rust around the library: reading the settings file
  with serde/toml and writing it back, the system clipboard and input
  method, drawing formulas, and the glue that turns library results into
  terminal output.
