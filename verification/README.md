# readtime

Estimates how long text documents take to read, and shows the result as a
tree of files and directories with a rolled-up total for each directory.

- `src/` is the library, verified with Verus:
  - `counter`: word counting of plain text (runs of non-whitespace) and of
    markdown (code, link targets and heading marks stripped first);
  - `estimator`: minutes at a reading speed, rounded up;
  - `path`: paths as sequences of components, file names and extensions;
  - `walker`: the information kept per file and the choices made while
    walking (extensions, hidden entries, single files), and which trees
    to show for the paths asked for;
  - `tree`: the tree built from a list of files, its order and totals.
    `build_tree_with` builds it from the child paths that are files;
    `build_tree` asks the file system which of them are, and hands the
    answers on;
  - `render`: the tree as text;
  - `cli`: the command line as plain values and the choices it makes.
- `app/` is the program: argument parsing, logging, reading files and
  walking directories, printing.
- `tests/` runs the library on concrete inputs.
