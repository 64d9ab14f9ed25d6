# rust_minibrowser

A small web browser: it reads HTML and CSS, matches style rules to the
document, cascades and inherits property values, builds a box tree and draws
it in a window.

The library under `src/` holds the browser's logic with contracts proved by
Verus:

- `text` — byte scanning, the outcome type of the readers, and the few calls
  into `std` whose results are stated by contract.
- `css` — the CSS data model, the readers for tokens, values, selectors,
  rules and whole style sheets, and hex and named colours.
- `dom` — the document model, the HTML reader, and tree operations (finding
  elements by tag, removing blank text, expanding character entities).
- `style` — selector matching, specificity ordering, the cascade, inherited
  values, shorthand expansion and typed look-ups on styled nodes.
- `net` — which style sheets and imports a document asks for, and URL
  resolution through the `url` crate.
- `fonts`, `image`, `globals`, `layout` — `@font-face` requests, image
  decoding through the `image` crate, the table of named colours, and the box
  tree built from the styled tree.

`app/` is the program around it: argument handling, files and network,
fonts and glyph measuring, the floating-point layout pass and drawing with
`glium`.

The library calls `url`, `image` and `serde_json` through a few small
functions whose contracts name what those crates compute. Nothing here
proves that the `image` decoders return an error, rather than panic, on
malformed bytes: that rests on the `image` crate.

`tests/` runs the library on concrete documents and style sheets.
