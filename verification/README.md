# minishell

A small interactive shell. The library (`src/`) holds everything the shell
decides, each function with a proved contract; the program (`app/`) reads
lines, prints, opens files, spawns processes and changes directory.

- `env` — the environment table, modelled as a map from names to values.
- `text` — characters of strings, decimal rendering and parsing of `i32`,
  splitting at a character, trimming.
- `expand` — replacement of `$NAME` and `$?` in a word; a name ends at a
  space, a quote, a `$` or one of the special characters `!#%^&*()+={}[]|:;\<>,?/`,
  and a `$` that starts no name is removed.
- `commands` — tokens, the count of commands of a line, splitting a command
  into words (quotes, expansion) and the dispatch of builtins.
- `builtins` — `cd`, `env`, `exit`, `export`, `unset`; each says what is left
  for the host to do.
- `executor` — the order of work in one pipeline segment (files to open,
  commands to run, where it ends) and the steps from one segment of a
  pipeline to the next.
- `parser` — a command line cut into words, pipes and redirections.
- `prompt` — user, host and directory names shown in the prompt.
- `shell` — the state kept between two lines.
