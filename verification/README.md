# cadernis

`cdc`, the Cadernis Compiler, for cadernislang (`.cdl`): a toy language whose
programs farm under a per-turn AP/MP budget, an anti-bot suspicion gauge and
bot cooldowns. The library is written in Verus: each function carries its
contract, and the laws of the language are proved.

## Layout

- `src/` — the verified library
  - `lexer`, `parser`, `ast`: the front end (the `// gg wp` header, tokens,
    syntax tree and its abstract view)
  - `sema`: effective AP costs of bots, the static AP/MP check of each `tour`,
    name and type checks, the cost report
  - `config`, `runtime`: gameplay constants and pragmas; AP/MP budget,
    suspicion over a sliding window, cooldowns, virtual clock, seeded draws
  - `patch`: tags of `pano`/`perso` entries after patch drift
  - `interp`: the interpreter, against a big-step semantics
  - `codegen`: the native back end, as textual LLVM IR over the runtime's C
    interface
  - `lsp`: diagnostics, symbols, completions, hover and go-to-definition
  - `driver`: the command line's decisions and texts
  - `layers`, `budget`: laws — computation is invisible to the anti-bot; what
    the static check accepts never overruns the budget at run time
  - `verdicts`: laws — the check reports `E-PA`/`E-PM` exactly for the `tour`s
    whose computable cost goes over the budget
  - `text`: string helpers
- `tests/` — tests of the library
- `app/` — the `cdc` binary (files, environment, `clang`), the language
  server (`cdc-lsp`, over tower-lsp), and the runtime's C interface
  (`cabi.rs`, the `cdc_rt_*` symbols the generated code calls). `cdc build`
  links the generated object with `libcdc_runtime.a`, a static library built
  from that interface; this crate's own manifest does not build it.

Outside crates: `rand` (seeded draws and patch shuffles, behind trusted
wrappers in `src/`), `tokio` and `tower-lsp` (the language server in `app/`).
