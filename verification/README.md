# near_lisp_verified

A small Lisp for on-chain policy evaluation on NEAR, written in Verus. The
reader, the evaluator, the builtins, the stack machine that runs compiled
loops and lambdas, the cross-contract-call scheduler and the contract's rules
are verified against specifications stated over mathematical models of their
values. The evaluator runs `loop` forms itself, step by step, so their
value and their gas are those of the semantics. The loop and lambda
compiler stands beside it as a library component: what is proved of it is
that it accepts exactly the compilable forms, emits well-formed programs
that never fault, and that the code it emits for a straight-line expression
(literals, bindings, arithmetic, comparisons, `not` and builtin calls)
computes that expression's value on the machine (`expr_code` in
`bytecode.rs`). That the code for `if`, `and`, `or`, `cond` and `recur`, the
peephole pass, or a whole compiled program computes what the evaluator
computes is not proved.

The peephole pass fuses a window of instructions only when nothing jumps
into its inside.

Chain logs go through the environment's log budget (`Env::log_line`): the
library writes at most 96 lines and 15 KiB in a call and drops what would
pass that, so that the runtime's limit of 100 lines and 16 KiB is never
reached.

## Layout

- `src/` — the verified library.
  - `types.rs`: values (`LispVal`, modelled by `SVal`), environments, gas.
  - `parser.rs`: the reader, specified by a grammar over characters.
  - `eval.rs`: the evaluator; `pure_eval` is its semantics, and the laws
    of the language (`lemma_*`) are proved over it.
  - `builtins.rs`, `prims.rs`, `dict.rs`, `helpers.rs`, `display.rs`,
    `text.rs`, `hex.rs`, `json.rs`: the value builtins and their specs.
  - `effects.rs`, `near.rs`: the chain builtins and the trusted wrappers
    around `near-sdk`.
  - `bytecode.rs`: the loop compiler, the peephole pass and the stack
    machine, specified by `machine_step`; compiled loops spend one unit of
    gas per pass of their program.
  - `vm.rs`: programs, lifting of nested cross-contract calls, and runs
    that yield batches of calls.
  - `contract.rs`: storage keys, access rules, gas planning for call
    batches, and the steps of asynchronous evaluation.
  - `batch.rs`: the payload that carries a batch's call results back.
- `app/` — the NEAR contract, the REPL and a bytecode demo: I/O, promises
  and serialization around the library.
- `tests/` — tests of the library on concrete programs.
