# tir

The core of a compiler IR and its machine back ends, with the library's
functions proved against their contracts by Verus; the one trusted item is
the wrapper around `String::push` in `text`.

- `src/` is the verified library. The IR itself lives in `context` (the arena
  of operations, values, regions and blocks, with structural versions and
  dirty-subtree tracking), `builder`, `clone` and `slab`. Analyses over it:
  `gated_ssa`/`gated_ssa_build`, `value_graph`, `objects`, `slots`, `chain`,
  `scopes`, `exits`, `fp_environment`, `ddg`. Instruction selection: `isel`,
  `rules`, `cover`, `seed`, `sem_expr`, `lower`. Targets: `riscv`, `encodings`,
  `compress`, `abi`, `call_lowering`, `call_steps` (the order a call is
  lowered in, as steps the back end carries out), `target`, `target_boilerplate`,
  `targets`, `sim`, `lexer`, `diagnostics`.
- `tests/` exercises the library on concrete inputs.
- `app/` holds what stays outside verification: rendering diagnostics with
  `ariadne` and choosing a target by name.
