# pipe

The verified core of the pipe tool: the pre-parse step that turns fenced code blocks of a
pipe file into embedded objects, the walk that turns a parse tree of a pipe file into a value,
the routing decisions of the pipeline runtime, and the line format of the log module.

- `src/embed.rs`: fenced blocks to embedded objects (`Pipe::parse_embedded`).
- `src/tree.rs`, `src/parser.rs`: parse trees, the tree walk (`Pipe::try_parse`), errors.
- `src/value.rs`, `src/assoc.rs`: values and their objects, kept as association lists.
- `src/runtime.rs`: step references, module file names, where each output goes.
- `src/modules.rs`: the log module's output and lines.
- `src/pipe.rs`: the data types of a pipeline description.
- `app/lib.rs`: file reading, conversion of pest's pairs into trees, printing.
