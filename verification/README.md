# AsciiDoc editor

The text behind an AsciiDoc editor for the web: you edit the rendered document,
and the AsciiDoc source stays the thing being edited underneath.

`src/` is the library, written in Verus. It takes and gives plain values: the
source as text, the rendered document as a tree of elements.

- `text`, `number`, `dom`: texts, numerals and rendered documents.
- `source`: the lines of a document, what they are, and edits by line number.
- `inline`, `list`, `table`: rendered content read, and written as AsciiDoc.
- `wysiwyg`, `marking`, `page`: what a rendered block is, and which blocks can be
  edited in place.
- `edits`, `indent`, `keys`, `history`, `toolbar`: what the interface asks for.
- `render`, `highlight`, `sync`: the preview, the highlighted source, and the way
  between the two.
- `laws`, `round_trip`, `safety`: what holds of several of these together. A
  block is made editable only if writing it back reproduces its source, and an
  editable block that is written back as it was leaves the document as it was.

`app/` is the editor in the browser: the page, its events, the selection and the
storage. `tests/` runs the library.
