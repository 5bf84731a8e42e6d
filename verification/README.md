# gpui-markdown-editor

The logic of a WYSIWYG markdown editor, verified with Verus. The buffer of the
editor is plain markdown; what is shown of it, where the caret may stand and what
a key does are computed from the text and its syntax tree.

- `src/` is the library.
  - `parser`, `syntax`: the syntax tree of a text, built from the events of
    `pulldown-cmark`; `bullets`: the trees of lists of two words.
  - `analysis`: blocks, containers, allowed positions, and the edits of the
    structural commands and of the canonical form of lists.
  - `formatting`: toggling bold and italic.
  - `embed`, `escapes`, `cjk`, `fencing`: markers of embedded documents, escapes
    and character references, emphasis dots, fences around a text.
  - `editor`: an editor at work: undo, clipboard, input methods, the pointer,
    moves between rows, and the session that ties them together.
  - `display`: what is shown of a block: lines, runs, overlays, markers, tables,
    embeds. Lengths are whole numbers of a small unit.
  - `text`, `words`, `strings`, `state`, `event`: what the others share.
- `tests/` are tests of the library.
- `app/` is a window with an editor. It measures and paints with gpui, in pixels,
  and asks the library for every decision. The host gives it two functions: what
  an event makes of a document, and which blocks a document is shown as.

Contracts speak of a text as a sequence of characters or of the bytes of its
encoding, of a syntax tree as a mathematical tree, and of the result of an outside
function by a name. Laws that relate several functions are public proof functions
at the end of the module they belong to.
