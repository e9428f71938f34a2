# cargo_disk

The logic of `cargo disk`, a Cargo subcommand that says where a `target/`
directory went, written and proved in Verus.

- `src/` computes on plain values. Every function states in its contract what it
  returns; public proof functions state what holds of several of them.
- `app/` is the program: it reads the file system, runs Cargo, prints, and asks.
- `tests/` runs the library on concrete values.

| module     | what it holds                                                     |
|------------|-------------------------------------------------------------------|
| `text`     | texts as sequences of characters: searching, cutting, columns     |
| `order`    | stable sorting, and sorting without repetition                    |
| `path`     | paths as sequences of components                                  |
| `time`     | points in time, and ages in words                                 |
| `layout`   | sizes, rows and sections of a report                              |
| `tally`    | adding figures up by label                                        |
| `json`     | just enough JSON to read `cargo metadata`                         |
| `spacing`  | what may stand around a JSON document                             |
| `metadata` | packages, and which depend on which                               |
| `usage`    | files in the output directories, and which crate they belong to   |
| `report`   | the report on one project                                         |
| `scan`     | every project under a directory                                   |
| `clean`    | removing incremental caches, and nothing else                     |
| `search`   | whether source names a crate                                      |
| `graph`    | what the workspace reaches in the dependency graph                |
| `unused`   | dependencies that nothing names, and what they take up            |
| `deps`     | the report on dependencies, and removing them                     |
| `cli`      | the command line                                                  |

Three functions of the standard library are trusted to do what their
documentation says: `String::push`, `char::from_u32` and `str::to_uppercase`.
