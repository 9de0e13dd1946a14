# blend

blend is a dotfiles manager. Packages are written as Nickel orders, evaluated for
the machine at hand, rendered in the format of each target and deployed; changes
made to deployed files can be pulled back into the orders.

- `src/` is the library. It holds what blend computes and decides: formats and
  their rendering, semantic differences, the analysis of orders and the rewriting
  of their values, merging by key, the plans for writing and pulling, the course
  of a sync, and what the commands show. Every function has a contract, and Verus
  proves it.
- `app/` is the program: arguments, files, links and flags, the terminal, and the
  evaluation of orders.
- `tests/` holds the library's tests.

What comes from outside crates stands behind small functions whose contracts are
taken on trust: `json`, `formats` and `diff::text` for JSON, TOML and regular
expressions, `globs` for patterns, `nickel::term` for the Nickel parser, `output`
for colours and `diff::semantic` for ordered maps.
