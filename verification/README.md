# concat

A command-line tool that joins files (and, optionally, standard input) into
one output, with an optional separator between inputs, optional removal of
terminal control sequences (`--clean`) and optional trimming of whitespace
(`--trim`).

- `src/` is the library, verified with Verus: byte classes (`bytes`),
  cleaning and trimming of a buffer or a stream (`clean`), the processing
  reader's state (`reader`), separator escapes and phrases such as
  `####n####` or `####name####` (`separator`), command-line interpretation
  (`args`), the order of inputs and separators and the output target
  (`plan`), and calendar time with timestamped file names (`timestamp`).
- `app/main.rs` is the program around it: arguments, standard input, files,
  the clock and the output stream.
- `tests/` exercises the library on concrete values.
