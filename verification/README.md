# paperboy-tui

Building blocks for terminal user interfaces, written in Rust and verified with
[Verus](https://github.com/verus-lang/verus):

- selecting text within a panel, with a wrap cache that survives resizing, several
  regions at a time, scrolling, scrollbars and copying to the clipboard;
- a single- or multi-line text editor;
- an RGB colour picker.

## Layout

- `src/` is the library. It computes what to show, to highlight, to copy and to
  send, and every function states what it computes. Functions whose names begin
  with `law_` state what holds of several of them together. What is taken on trust
  from other crates and from the standard library is marked `external_body` or
  `assume_specification`, with a comment that says what is trusted: the reading of
  terminal escape sequences (`ansi-to-tui`), base64 (`base64`), the splitting of an
  area into rows and the inside of styled texts (`ratatui`), and three functions of
  `std`.
- `tests/` runs the library on examples.
- `app/` is the terminal side: drawing with `ratatui`, key events, clipboard tools
  and terminal modes.
