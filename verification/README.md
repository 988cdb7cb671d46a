# boopl

A compiler for the small `boopl` language: source text is read into lines of
tokens, run through preprocessing passes, its names are replaced by numbers,
and the result is translated into bytecode and loaded.

`src/` is the library, written in Verus; every function carries a contract
that Verus proves:

- `tokens` — the tokenizer (`tokenize`, `start`) and range tokens.
- `preprocessors` — ranges (`expand_ranges`), `ELSE` chains
  (`else_processing`), functions with `FUNC`/`CALL`/`RET E` (`expand`) and
  the repeat count in parentheses.
- `function_preprocessor` — the other function pass (`expand_tokens`), which
  refuses calls that go round in a cycle.
- `importer` — `IMPORT` lines, as a state machine that asks its caller to
  find and read files.
- `namezator`, `name_map` — numbering of names and the tables back to them.
- `to_bytecode`, `vm` — bytecode and its loading (`pre_run`, `start`).
- `mini_vm` — a small machine over words, `addr val` and `I a b`.
- `cli`, `error`, `text` — the command line, listings, error texts, and
  character and number helpers.

`app/` is the program around the library: arguments, files, printing.
`tests/` holds the tests.
