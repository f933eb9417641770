# minishell

The core of a small interactive shell, written in Verus and proved
against its contracts.

- `src/parse.rs` splits a command line into tokens (quotes, escapes,
  pipes, `&`-redirections); `src/pipeline.rs` splits tokens into the
  commands of a pipeline.
- `src/redirect.rs` reads output redirections off a command's arguments
  and decides which files the shell opens for builtins and for child
  processes.
- `src/builtins.rs` holds the builtins (`echo`, `exit`, `type`, `pwd`,
  `cd`), the choice of what to do with a command, and the selection of
  executables found on the search path.
- `src/complete.rs` holds the completion logic: word positions, command
  names, file and external candidates.
- `src/variables.rs` expands `$NAME` and `${NAME}` with the `regex` crate.
- `src/order.rs` and `src/text.rs` hold string order and character helpers.

`app/` is the program around the library: the line editor (`rustyline`),
the file system, environment variables and child processes.
