# scrubr

An SVG optimizer that keeps `{{variable}}` substitution tokens intact,
written as a Verus library with its behaviour stated in contracts and
proved, and a command-line program around it.

## Layout

- `src/` — the verified library.
  - `subst` — protecting `{{...}}` tokens behind XML-safe placeholders and
    restoring them; restoring what was protected gives back the input.
  - `color`, `css` — color normalization, `style=""` parsing, defaults,
    presentation properties.
  - `ids`, `gradient` — the ID rename map (stripping, shortening,
    protection) and gradient deduplication.
  - `style_block` — optimization of `<style>` element CSS.
  - `groups`, `path_combine` — grouping of sibling runs and path
    combination.
  - `path_data`, `transform_data` — path data and transform lists as text:
    tokenizing, redundant-command removal, compact writing.
  - `path_clean`, `number_text` — the structural clean-up passes of path
    simplification, by command letters, and compacting decimal text.
  - `xml` — reading a document: roxmltree's parse handed over node by node,
    and the document model built from it.
  - `optimizer`, `document`, `serialize`, `writer` — options, the document
    model and its preparation (protection, parsing, analysis), and
    serialization: `serialize` states each pass as a spec function, `writer`
    runs it.
  - `text` — character-sequence helpers.
- `app/` — the `scrubr` command: options, file and gzip I/O, and the number
  formatting that works in floating point.
- `tests/` — tests of the library.

The library never panics: where processing an input cannot succeed, the
functions say so in their result, and their contracts state on which inputs.
