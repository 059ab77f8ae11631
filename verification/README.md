# wat

Watch what LLM agents are doing to your files.

```
 wat | /path/to/project                                14:32:05
------------------------------------------------------------------
GIT  +123   -45     *3 +1

COMMIT
  a94a6a6    5m
  Add new feature
  src/main.rs, src/lib.rs

CHANGES
  ~ src/main.rs                              +45  -12  ++++++----
  + src/new_file.rs                          +120 -0   ++++++++

q to quit
```

`wat [path]` watches a directory and redraws this screen: the state of the git
repository, the last commit, the files that changed in the last seconds with the
lines added and deleted in them, and the ignored directories with activity.
`--interval` sets the refresh interval in milliseconds. Press `q` to quit.

- The rule is as wide as the terminal, and the time ends three columns before it does.
- Behind `GIT` stand the lines added and deleted, in columns of seven and eight, then
  the counts of files: `*` dirty, `+` staged, `?:` untracked. What git was seen doing in
  the last five seconds comes after them.
- The age of a commit is in seconds, minutes, hours or days, whichever is the largest
  unit that it holds one of. A commit that was there at the start is shown without one.
- A row has the sign of the change, the path, the lines added and deleted in columns of
  five, and a bar. A bar has two signs for each digit that the number of lines has in
  base four.
- Messages, lists of files and paths are shortened to the width less twenty-five.

## Layout

- `src/` is the library, verified with Verus. It decides and computes; it does no
  input or output.
  - `path`: Unix paths as raw bytes: components, prefixes, order.
  - `text`: searching, shortening and writing text.
  - `git`: status flags, line counts, the commit at the head.
  - `model`: what is remembered, and how one event changes it, as mathematics.
  - `state`, `events`: the same as code. Processing an event stops with a request
    wherever the repository or the clock has to be asked.
  - `rows`, `recency`: the order of the changed files and of the ignored directories.
  - `render`: the screen.
  - `input`: the steps of the main loop, and the keys that quit.
  - `laws`: what holds of processing events as a whole. The other modules hold the
    laws of their own subjects.
  - `order`, `seqs`: orders and sequences.
- `app/` is the program around it: the file watcher, the repository, the terminal.
- `tests/` runs the library, with the outside crates it calls.

## What is taken on trust

The library calls a few functions of other crates whose contracts are stated and not
proved: the flag tests of `git2::Status`, the text of a `git2::Oid`, the time format of
`chrono::NaiveTime`, the modifier test of `crossterm`'s `KeyModifiers`, and
`String::from_utf8_lossy`. Each has its contract beside it.

Timestamps count nanoseconds.
