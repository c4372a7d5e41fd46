# ayame_spell

A spell checker for code and prose, English and Japanese, written as a
Verus library with a thin command-line program around it.

- `src/` is the library. Every function in it carries a `requires` /
  `ensures` contract that Verus proves: the tokenizer and its word spans,
  the syntax masking of Markdown and source files, the corrections table,
  dictionary lookups and suggestions, the Japanese notation checks, the
  configuration model and key validation, the format-preserving edits of
  configuration files, the registry lock, the readers of other tools'
  configurations, completion, triage and the language
  server's decisions.
- Calls into outside crates (the typos table, `fst`, `regex`, `globset`,
  `sha2`, the TOML/JSON/YAML parsers, `toml_edit`, URI parsing) sit behind small
  trusted wrappers whose contracts state what those crates document; the
  contracts of the library are proved from them.
- `app/` is the program: argument handling, file and network I/O, the
  interactive prompts and the LSP message loop. It hands the library plain
  values and writes out what the library computes.
- `tests/` exercises the library on concrete inputs.
