# rgrep

A small grep: it searches files for the lines that hold a pattern, either as a
plain substring or as a whole word (a regex between word boundaries),
optionally ignoring ASCII case, inverting the selection, capping the number of
selected lines and showing context lines around them.

- `src/` is the verified library (Verus): the per-line matching
  (`matching::relaxed`, `matching::strict`), the per-file search with its cap
  and context (`fileprocessing`), the merging of context ranges (`intervals`),
  what is printed for each file (`report`), and the laws that hold of every
  search (`laws`).
- `app/` is the command-line program: argument parsing, walking directories,
  reading files in parallel and printing.
- `tests/` runs the library on concrete inputs.
