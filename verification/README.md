# gpui-component: text input layout and list selection

`src/` is a Verus-verified library with the decisions behind two UI components:

- `input::element` — the text input element: splitting the text into lines,
  placing the cursor and the selection ends on lines, cutting the selection into
  per-line segments, the byte ranges handed to the syntax highlighter, the
  diagnostic markers that are styled, the styled runs of the displayed text,
  the row count, the line-number gutter labels and the masked display text.
- `list::list` — the list component's state machine: selection moves (with
  wrap-around), confirm, cancel, query changes, mouse clicks, loading more, and
  what the list's body shows. Each step returns the actions the host performs
  (`ListAction`), in order.

`app/` holds the gpui element and component that read the framework's state,
call the library, and draw or perform the results. `tests/` exercises the
library on concrete values.
