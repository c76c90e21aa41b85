# ion_parser

The command-line parser of a small shell, verified with Verus.

- `src/splitter.rs` splits a script into the text of its pipelines, honouring
  quotes, backslashes, `$( .. )` processes and `#` comments.
- `src/lexer.rs` reads the words and operators of one pipeline.
- `src/pipeline_parser.rs` builds the jobs, pipes, background marks and
  redirections of one pipeline.
- `src/grammar.rs` reads a line as an `if`, `else`, `end`, `fn` or `for`
  statement, or else as pipelines.
- `src/job.rs` holds jobs and pipelines, and expands glob patterns among a
  job's arguments through the `glob` crate.
- `app/` builds the `std::process::Command` of a job and reports syntax errors.
