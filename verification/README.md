# Rust Kart

A workspace of small command-line utilities whose decisions are written in
Verus and proved against their contracts.

- `src/` is the verified library, one module per tool: `arg5` and `arg5_2`
  (argument parsing), `cargo_norm`, `convert` and `kcal` (portions and units),
  `dddmf`, `dgmod` (module graphs of crates, rendered as Mermaid), `ffbm`
  (Firefox bookmarks exported to a file tree and imported back), `gh_prs`,
  `git_branches`, `grit`, `iter_utils`, `kart` (the command dispatcher),
  `md_align` (Markdown tables), `mdrich`, `now`, `save_context`,
  `sum_of_products` and `task_mcp`; `text`, `numbers` and `order` hold the
  character, number and sorting primitives they share.
- `app/` is the program around it: argument handling, files, databases,
  processes, the clock and printing, and what needs floating point.  It runs
  each tool by the name it is called under, or by its first argument.
- `tests/` runs the library on concrete inputs.

Calls into outside crates (comrak, syn, serde_json, chrono, jiff, nix) stand in
`src/` behind small trusted wrappers whose doc comments say what their
contracts claim; everything else in `src/` is proved.
