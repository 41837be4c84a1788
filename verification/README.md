# blazingjj

A terminal front end for the jj version control system. The crate is split
in two:

- `src/` is the verified library (Verus). It holds the cache of `jj show`
  output (`commit_show_cache`), the line index that renders a window of a
  large ANSI document (`large_string`), the identifiers of revisions
  (`revision`), and the decisions of the menu (`menu`), of the describe
  dialog (`describe`, with the line splitting and joining of `text`), of
  key bindings (`shortcut`), of components (`component`) and of the main
  event loop (`event_loop`). Every public function carries a contract, and
  the laws that relate several functions are public proof functions.
- `app/` is the program around it: argument handling, logging, the
  terminal, the event loop, running `jj`, and drawing with ratatui,
  tui-menu and tui_confirm_dialog.

`tests/` exercises the library on concrete values.
