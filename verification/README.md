# turbo_html2pdf_core

The verified core of an HTML + CSS to PDF engine, written in Verus.

- `src/` is the library. Every function carries a `requires` / `ensures`
  contract over a mathematical model (spec functions over `Seq`, `Map`, `int`),
  and the properties that relate several functions are public proof functions:
  the template region and `{% switch %}` preprocessing, HTML parsing into a
  node tree (through `html5ever`), the CSS tokenizer, parser, selectors and
  cascade, box generation, table grid placement, widow/orphan pagination
  rules, the tagged-PDF structure tree and its object numbering, the document
  object layout and catalog entries, the `/ToUnicode` CMap (through
  `rustybuzz`'s font tables) and XMP packets, the `date` / `datetime` filters
  (through `chrono`), and PDF encryption (through `aes`, `cbc`, `sha2` and
  `getrandom`) with the reader that gets the objects and trailer of a written
  file back. The font registry expands `sans-serif`, `serif` and `monospace`
  to its built-in families; `@media` queries are split into clauses and
  feature values here, and only the float width comparison is left outside.
- `tests/` exercises the library on concrete values.
- `app/` is the unverified shell around it: the `minijinja` glue and the
  filters and functions that work on floating-point numbers, error types with
  `thiserror` derives, the floating-point parts of the cascade (media queries,
  presentational hints, `rgb()` channels), and the writing of the planned PDF
  objects with `pdf-writer`.

Layout in floating-point pixels (line breaking, block and flex layout,
painting) is not part of the verified library.
