# reflexo_typst

Verified building blocks of a Typst document pipeline: the SVG text tree and
its minifier, the source-span map between rendered elements and source
positions, the Hast encoding of HTML documents, compile features, the
decisions of the compiler actor, and a few smaller pieces (fingerprint ids,
text digests, source and font decoding, selectable-text fallbacks).

Every function in `src/` is proved with Verus against a contract stated over
mathematical models (`Seq`, `Map`, `Set`, spec functions); laws that relate
several functions are public proof functions next to them.

Layout:

- `src/` — the verified library, one module per concern:
  - `svg_text`, `minify`, `glyph`, `hex`, `base64_text`, `fingerprint` — SVG text;
  - `span_map`, `span_paths`, `incr`, `item_store` — source mapping, incremental
    packing, and the lifetimes and collection of the items sent to the client;
  - `hast` — HTML to Hast;
  - `features`, `export`, `driver`, `compile`, `actor` — compiler configuration,
    the compiler actor's state machine and its event-by-event step;
  - `text_digest`, `world`, `font_data`, `sema`, `sema_walk` (the semantic layer's walk), `canvas` (including CSS colour text),
    `group_order` (the drawing order of a group's children), `concepts`, `strings`.
- `tests/` — tests on concrete values.
- `app/` — what cannot be verified: process-wide feature slots, file and
  writer I/O, the compiler's event loop, JSON (serde) forms of the Hast tree,
  and float formatting of the semantic layer.
