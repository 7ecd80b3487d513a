# mini_browser

The engine of a small web browser, verified with Verus.

- `src/token.rs`: splits HTML source into tag and text tokens, one
  grapheme cluster at a time.
- `src/html_parser/`: builds the node tree from the tokens, adding the
  implied `<html>`, `<head>` and `<body>` elements; `tree_spec.rs` states the
  builder as a state machine, `tree_laws.rs` and `text_laws.rs` prove what
  every built tree satisfies.
- `src/css_parser/`: the CSS parser, selectors and their matching, and the
  style cascade (`cascade_laws.rs` holds its laws).
- `src/document.rs`: the document tree and its markup.
- `src/layout.rs`, `src/paint.rs`: the layout and painting decisions that
  do not depend on measuring text.
- `src/strmap.rs`, `src/text.rs`: a string map and the text helpers.
- `app/`: the program around the library: the window and event loop, fonts,
  floating-point layout and drawing through the drawing library.
