# zerosyntax

Language rules for Command & Conquer Generals INI files, and the decisions of a
language server around them, as a library whose behaviour is stated in contracts
and proved with Verus.

- `src/` is the verified library.
  - Documents: `syntax` (the tree), `reader` (from text to tree),
    `readings` (what that tree says of the text),
    `analyzer` and `schema` (what blocks, modules and values exist), `model` (from
    tree to schema), `diagnostics`, `objects`,
    `scopes`, `values`, `maplayer` and `codes` (what is wrong in a document),
    `steady`, `shift`, `alike` and `twin` (what of that can be kept between edits),
    `completion`, `position`, `semantic` and `navigation` (what an editor asks).
  - Workspace: `index`, `table` and `extract` (names and where they stand),
    `scan`, `archive` and `w3d` (what files contribute), `plan`, `course` and
    `cache` (which files are read again), `workspace`, `session` and `settings`
    (state of the server), `progress`, `preview`, `cli` and `convert` (what goes
    out).
  - Ground: `text`, `numbers`, `rounding`, `order`, `keyset`, `rope` and `uri`.
- `app/` is the program: the language server and the command line, with files,
  the database and the protocol.
- `tests/` runs the library.

Functions whose names begin with `law_` state what holds of several functions
together, such as that a warm scan gives what a cold one gives.
