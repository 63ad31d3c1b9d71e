# jelly

Session persistence and live resource usage for tmux, with the rules written in Verus and
proved.

- `src/` is the library. `persist` says what a snapshot of the running sessions is, which tmux
  commands rebuild one, when the machine counts as rebooted, who may hold the saver's lock and
  what the saver does next. `usage` reads `ps` and tmux's list of panes, attributes processes to
  sessions, orders them, and lays out the screen. `text` holds the rules on lines, fields,
  numbers and padding that both are stated with. The properties that span several functions
  stand as `law_*` proof functions.
- `app/` runs tmux and `ps`, reads and writes the state files, and draws the screen.
- `tests/` runs the library on concrete values.

## What is trusted

- `String::push` appends a character (`text`).
- `char::is_alphanumeric` depends on the character alone, and is true of the letters and digits
  among the ASCII characters (`persist::names`).
- `Layout::split` of ratatui gives strips of the area it divides, one per wanted height, and for
  the two screens their exact rows (`usage::screen`).

Floating-point figures (CPU percentages, and a process's share of its session) are computed in
`app/` and handed to the library as integers and texts.
