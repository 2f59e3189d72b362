# ysh

A small shell language, verified with Verus.

- `src/ysh.rs` — the syntax tree `Ysh`, its abstract value `YshV`, the built-in
  commands, the constructors `y_*`, and the printer `Ysh::to_string`.
- `src/yparser.rs` — the parser: spec functions that say what each part of the
  parser gives back (a tree and the rest of the text, an error message, or a
  panic of the parser), and executable functions proved to agree with them;
  `parse_ysh` and `try_parse_ysh`.
- `src/text.rs` — whitespace, reserved characters, word splitting and line
  joining, on character sequences.
- `src/roundtrip.rs` — proofs that every well-formed tree, once printed, parses
  again into a tree printed as the same text, that the parser hands back a
  suffix of its input, and that it stops only at the end or at a `)`.
- `src/run.rs` — how the shell decides to fork and combines the statuses of
  `;`, `&&` and `||`.
- `src/history.rs` — the options of the `history` command and the lines it shows.
- `app/` — the shell program itself: reading lines, forking, redirecting, running
  commands, and the `history` command.

Not carried over: the `Parser` combinator struct, whose field is a function
pointer (a type Verus does not support) and whose only method was never
implemented.  A tree's commands are `MyCommand` values rather than boxed
`Command` trait objects; running a command is done by the program in `app/`,
so the `Command` trait only describes a command (its name and debug text).
