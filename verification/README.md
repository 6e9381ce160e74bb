# tig_review

A terminal viewer for reviewing git changes: a tree of changed files on the
left, the diff of the selected file on the right, with search, file filters,
a side-by-side view and comparison against branches, commits and ranges.

The library under `src/` holds the viewer's logic, written in Verus and
proved against its contracts:

- `git/` reads what git prints (porcelain status, unified diffs, branch and
  commit lists) into the library's own types, and builds the argument lists
  handed to git.
- `app/` is the viewer's state: the file tree, navigation and scrolling, the
  key handlers (a function from state and key to new state and an action for
  the caller to perform), search queries and their results, comparison
  targets, clipboard text and the status bar.
- `view/` computes what each pane shows: rows of the diff pane, the
  side-by-side pairing, word-level highlighting and the popups' text.
- `search/` searches file names and diff contents, searches the text of
  work-tree files with a regular expression (the `regex` crate, behind
  trusted items), and translates file globs into regular expressions.
- `cli.rs` reads the command line into a comparison target.
- `text.rs` and `order.rs` hold the character-sequence and sorting helpers
  that the rest is proved with.

Public proof functions whose names begin with `law_` state properties that
span several functions, such as that a cycle of filters returns to where it
started or that word-level highlighting gives back the line it split.

`app/` (outside `src/`) is the terminal program: it runs git, draws with
ratatui, reads keys with crossterm, copies with arboard, and performs the
actions that the library's key handlers return.
