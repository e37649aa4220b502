# project_chooser

Finds the project directories under a folder, searches them by name, and keeps a
ranked cache of the projects chosen. The logic is a Verus library; the program around it
(command line, directory walk, menus, files) is plain Rust.

- `src/` — the verified library
  - `text.rs`: whitespace, trimming, lines, decimal numbers, substring search
  - `path.rs`: the std path and string functions the library relies on, with their contracts
  - `search.rs`: matching a query against a path, filtering paths, reading a menu's answer
  - `cache.rs`: the cache of projects: choosing, updating, saving and loading as text
  - `format.rs`: the cache's text format, with the proof that saved text reads back
  - `walker.rs`: which directories are projects and which the walk enters
  - `output.rs`: how the results are printed or asked for
  - `preview.rs`: which file of a project its preview shows
  - `countdown.rs`: a callback run from a count down to zero
- `tests/` — tests of the library
- `app/` — the `project-chooser` program: arguments, the parallel walk, skim/dmenu/fzf, files
