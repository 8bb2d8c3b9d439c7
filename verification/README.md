# marki

A zero-copy CommonMark parser written in Verus. `MarkdownFile::parse` turns a
`&str` into block sections and inline elements whose text borrows from the
input; `MarkdownFile::to_html` renders the document.

Layout of `src/`:

- `lib.rs` — `MarkdownFile`: parsing, line-ending normalization, pool
  accessors, and the document-level laws.
- `block.rs` — the block pass: line splitting, leaf blocks (headings, code
  blocks, HTML blocks, thematic breaks, paragraphs) and containers
  (blockquotes, lists).
- `inline.rs` — the inline pass: code spans, links and images, autolinks,
  raw HTML, line breaks and emphasis resolution.
- `link_def.rs` — link reference definitions and label normalization.
- `raw_html.rs` — the raw HTML grammar shared by inline HTML and HTML blocks.
- `html.rs` — the renderer, specified byte for byte by `doc_html`.
- `doc.rs`, `section.rs` — the output pools and their well-formedness.
- `line_ending.rs`, `text.rs`, `simd.rs`, `special_char.rs`,
  `small_bool.rs` — byte-level helpers.

Everything in `src/` is verified by Verus. How far the contracts reach:

- the renderer and the byte-level scanners (code spans, autolinks, link
  destinations and titles, raw HTML, fences, headings, list markers) have
  exact contracts;
- `parse` fixes the kinds of the top-level blocks (`top_plan` in
  `block.rs`): which lines make headings (with their level), paragraphs,
  code and HTML blocks, thematic breaks, blockquotes and lists (with their
  start number, delimiter and tightness);
- it also fixes, kind by kind and in pool order, the content of blockquotes
  at every depth (`top_pool_plan`, `nested_plan`), as long as no list
  occurs inside them; the items of lists are left undescribed;
- at the top level it fixes the text of code and HTML blocks (the source
  slice, `top_texts`) and, for an ATX heading whose text holds no byte that
  can begin an inline construct, its one text element (`top_heads`,
  `heads_ok`);
- the registry of link reference definitions keeps the first definition
  of each normalized label (`defs_grow`), in both block passes;
- in the inline pass, a run with no such byte becomes one text element
  (`scan_inline`, `parse_context`, and the paragraph lines inside
  containers through `parse_lines`), a single opener and closer of `*` or
  `_` become an emphasis node (`process_emphasis`), and every span points
  into its pool and every piece of text borrows from the input;
- not stated: what text with inline markup becomes in general (links and
  the definition a reference resolves to, code spans, escapes, emphasis
  beyond one pair), the content of top-level paragraphs of several lines
  and of setext headings, and the lines of list items.

Named character references other than numeric ones are left as text.
The tests under `tests/` run the compiled library on concrete documents.
