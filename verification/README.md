# tweaker

Pick a previous shell command from history and tweak its tokens on a small
terminal screen, then run or print the result.

The library under `src/` is written in Verus; each function carries a
contract, and the properties that span functions are stated as proof
functions named `law_*`.

- `text` — character-level helpers (whitespace, lines, words, trimming).
- `tokens` — splitting a command line into tokens that keep their source
  form, rendering them back, quoting styles, token labels.
- `roundtrip` — why rendered tokens split back into the same tokens.
- `state` — the tweak screen as a state machine over key actions.
- `state_laws` — what sequences of actions do to the tokens.
- `history` — the commands of a history file, newest first.
- `suggestions` — examples from tldr pages and flags from man pages.
- `tui` — the screen decisions: picker window, picker keys, key bindings.

`app/` holds the program around the library: argument parsing, files, the
terminal and running the chosen command.
