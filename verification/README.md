# menupp

Menu++ reads a small menu description language and shows the menu with a
dmenu-style launcher (rofi, fuzzel or wofi).

- `src/` is the verified library (Verus): text helpers (`text`), the pieces
  of syntax (`syntax`), the reading of menu files and their sections
  (`menu`), command-line splitting (`command`), `.desktop` files and the
  `applist()` JSON built from them (`desktop`), items given as JSON (`items_json`) and the decisions of a
  menu session (`session`). Each function's contract states its result over
  the specification functions beside it.
- `app/main.rs` is the program: it reads files, runs the launcher and the
  chosen commands, and asks the library what to do at each step.
- `tests/` runs the library on concrete menus.
