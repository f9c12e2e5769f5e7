# textgen

A text preprocessor. A source file is copied to one output file per target;
on the way, each command line is replaced by what its command prints:

- `.name` runs `name` with no input;
- `.name:` runs `name` on the indented block that follows;
- `.name: argument` passes `argument`, and the block that follows if it is
  indented deeper than the command line.

Commands are looked up in the library directories (`--lib a,b`), then in the
target directory (`--target html,pdf`); their output is processed in turn.
Finally the target's `generate` command turns the processed text into the
output file.

Layout:

- `src/` — the verified library: text splitting (`text`, `parse`), the
  processing state machine (`generate`), command lookup (`commands`), path
  handling on text (`path`) and the command line (`args`).
- `app/` — the program: reading files, running commands, changing directories.
- `tests/` — tests of the library.
