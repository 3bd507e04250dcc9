# lildb

A tiny single-table database in the style of SQLite: rows of an id, a
username and an email live in a B-tree whose nodes are 4096-byte pages of one
database file. A REPL reads `insert ID USERNAME EMAIL`, `select`, `.btree`,
`.constants` and `.exit`.

The library in `src/` is written in Verus and proved:

- `constants`, `bytes`, `row`, `node`: the byte layout of rows and nodes, and
  accessors whose contracts say exactly which bytes they read and write.
- `pager`: the pages of the file held in memory; splitting file bytes into
  pages and joining them back.
- `tree`: the mathematical model of the B-tree (well-formedness, the cells it
  holds in key order, its leaves and their links) and the lemmas about it.
- `btree`: search, leaf and internal-node insertion and splitting, and new
  roots, each proved to keep the tree well formed.
- `shape`: the layout of the tree (which cells each leaf holds and where
  nodes split) as a mathematical tree, and what one insertion does to it.
- `parents`: the parent page that every node records, and the proof that
  insertion keeps those records right.
- `table`: the table API (`execute_insert`, `execute_select`, `table_find`,
  cursors, `db_open`, `db_close`, `execute_statement`) with contracts over the
  table's cells, and the laws that relate them.
- `validate`: deciding whether the pages of a file hold a well-formed tree.
- `statement`: parsing a line into a statement, with Rust's whitespace
  splitting and `i32` parsing stated as spec functions.
- `print`: the outline that `.btree` prints, for any page at any
  indentation, stated over the page's layout.

`app/main.rs` is the REPL: it reads and writes the file and the terminal and
hands plain values to the library.
