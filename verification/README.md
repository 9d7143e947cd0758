# klaar

A local Model Context Protocol server for coding agents: syntax-aware reads, line patches, a
memory of decisions, searches and pre-push checks. Its logic is a library verified with Verus.

- `src/` is the library. Every function states what it returns; proof functions named `law_*`
  state what holds across functions.
  - `text`, `paths`: texts and paths as sequences of characters.
  - `utils`: truncation, diffs, project roots.
  - `parser`: skeletons, symbols and comments over tree-sitter trees.
  - `cache`: cached reads, searches and symbol indexes, and their eviction.
  - `config`: access to files, targets and templates.
  - `db`: times, locks, decisions, the fusion of search results.
  - `tools`: patches, reads, searches, listings, indexes, standards and checks.
  - `mcp`: routes, arguments, the catalog of tools, and the replies.
  - `json`: JSON values, and the server in the configuration of an agent.
  - `cli`: what the commands print.
- `tests/` runs the library.
- `app/` is the program around it: files, processes, the network of tasks, the embedded database.

Calls into other crates stand behind small functions whose contracts are taken as given; the doc
comment of each says what it relies on.
