# dflibanalyzer

Analyzes the library dependencies of a DataFlex workspace. A workspace (`.sws`,
in JSON or INI form) declares the library workspaces it depends on; its source
files name other source files in `Use` statements. From the files each
workspace holds, the analysis finds the dependencies the `Use` statements
imply, and reports those that are missing from the declarations, those that
point back up the tree, those that are ambiguous because several workspaces
hold the same file, and those that the DataFlex 26 (breadth-first) and
DataFlex 25 (depth-first) search orders resolve differently.

## Layout

- `src/` is the verified library, written in Verus:
  - `text.rs`, `lookup.rs`: characters, ASCII case, splitting, ordering of names.
  - `paths.rs`: paths held as text, and the `std::path` operations used.
  - `ini_doc.rs`: INI documents read with the `rust-ini` crate.
  - `source_scan.rs`: file names and the `Use` statements of source files.
  - `workspace.rs`: reading workspace descriptions, and the walk over declared
    library workspaces.
  - `workspace_tree.rs`: the tree of workspaces, its search orders, the
    resolution of ambiguous files and the dependencies that `Use` statements imply.
  - `grouping.rs`: numbering files with identical contents.
  - `report.rs`: the dependency tree, the conflicting files and the issues.
  - `terminal.rs`: the colors in which dependencies are shown (`colored`).
  - `options.rs`: the options of a run.
- `tests/` runs the library on concrete workspaces.
- `app/` is the command line program: it reads files and folders, parses JSON
  with `serde_json`, parses arguments with `clap`, and prints the report.
