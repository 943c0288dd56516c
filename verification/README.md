# rshell

A small Unix shell whose command-line logic is verified with Verus.

- `src/` is the verified library:
  - `lexer` splits a line into tokens (words, quotes, escapes, operators);
  - `parser` builds the syntax tree (commands, `( )` subshells, `{ }` inline
    groups, pipelines, `<` and `>` redirections), expanding `$NAME` through an
    `env::Environment`;
  - `plan` turns a tree into the steps that run it;
  - `line` decides what to do with the input read so far (line continuation
    with a trailing backslash);
  - `builtin` runs `echo` and decides what `cd`, `pwd`, `clear` and `exit` ask
    for; `escapes` interprets the escapes of `echo -e`; `builtins` is the early
    builtin interface;
  - `properties` states and proves the laws that span several functions.
- `app/main.rs` is the interactive shell around it: reading input, the process
  environment, spawning processes, pipes and files, and carrying out builtins.
- `tests/` exercises the library on concrete inputs.

Usage: `rshell` starts the prompt `rshell$ `; `rshell -c "echo this is a test"`
runs one line.
