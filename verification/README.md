# crush-tether

A permission gate for the shell commands of coding agents. A command line is
parsed into simple commands, each is looked up in layered `rules.toml` tables
(global, user, project; `[local]` and `[global]` scopes), optionally passed
through script layers, and the most severe verdict (allow, confirm, deny)
stands. A knowledge base (`knowledge.toml`) maps aliases to canonical names.

Layout:

- `src/` — the library, verified with Verus: the rules model, TOML decoding,
  layer merging with provenance, canonicalisation, the table lookup, command
  line parsing over the tree-sitter syntax tree, script-layer decisions, lints,
  the approval-log learner, reports and the hook/serve protocol decisions.
- `tests/` — tests of the library.
- `app/` — the program around it: argument handling, file and socket I/O, the
  serve loop, logging, and the Lua and Rhai script engines.
