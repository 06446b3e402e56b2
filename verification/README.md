# git2ex

Verified logic of a git panel for Elixir (status, diffs, staging, commits,
log and show), written in Verus.

- `src/` is the library. It holds no repository access: it takes the plain
  values read from a repository and computes what is shown or decided.
  - `text`: UTF-8 byte caps, short hashes, white space, line splitting,
    string order.
  - `status`: porcelain `XY` codes and the sorted file list.
  - `diff`: patch text, capped diff output, file content at a revision.
  - `history`: commit emptiness check, amend message, log entries, shown
    commit text.
  - `actions`: how unstaging and discarding proceed, and error texts.
- `app/` holds the NIFs: they call git2, hand the results to the library and
  return its answers to Elixir.
- `tests/` exercises the library on concrete values.
