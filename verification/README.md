# gwt, verified

`gwt` is an interactive Git worktree switcher. This crate holds its logic as a
Verus-verified library (`src/`) and the `gwt` program around it (`app/`).

- `src/types.rs` — worktree records, branch candidates, and their models.
- `src/git.rs` — reading `git worktree list --porcelain -z`, `git status
  --porcelain=v2 -z` and branch lists; choosing the current worktree, the
  removable worktrees and the branches in use; Git error messages.
- `src/status.rs`, `src/theme.rs`, `src/table.rs` — the status summary,
  colouring, and the fitted worktree table.
- `src/styled.rs` — what colouring leaves visible: with escape sequences
  removed, coloured text shows as the plain text (when the text itself
  starts no control sequence), and escape-free text keeps its width.
- `src/tui.rs` — key meanings, the path editor, menu steps and the lines the
  menus draw.
- `src/cli.rs`, `src/shell.rs` — command-line dispatch, the help text, and
  the shell function that turns `gwt list` and `gwt new` into their
  `--select` forms and changes into the path they print.
- `src/text.rs` — character widths (via `unicode-width`), string building,
  joining and decimal numerals.
- `app/` — running Git, threads, the terminal (via `crossterm`) and printing.
