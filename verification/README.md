# atuin-export

Exports atuin shell history to fish, bash and zsh history files.

- `src/` is the verified library: the fish-flavoured tokenizer (`lexer`), path
  detection for fish's `paths:` blocks (`fish_paths`), lexical path handling
  (`path`), the three history formats and fish's merging of repeated commands
  (`export`), shells and their default history files (`shell`), and the
  command-line defaults (`cli`).
- `app/` is the program around it: argument parsing, reading atuin's SQLite
  database, reading `/proc/self/mounts` and the environment, checking which
  candidate paths exist, and writing the history file atomically.
