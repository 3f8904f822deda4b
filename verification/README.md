# humpty_dumpty

A linearity check for drop-protected types, verified with Verus.

A type marked `#[drop_protect]` may not be dropped implicitly: every local
that holds such a value must be moved (typically into a function marked
`#[allow_drop = "<type>"]`) before control leaves its function, and where
control flow splits the branches must agree on which such locals are still
alive. The check walks the syntax tree of one function and reports where this
is not so.

## Layout

- `src/ast.rs` — the part of a function's syntax tree the check reads, each
  node with its id, span and type as plain values.
- `src/ty.rs` — whether a type mentions a protected type; whether a function's
  attributes allow it to drop a type.
- `src/live.rs` — the set of live tracked locals (a map kept as a sequence
  without repeated ids) and its operations.
- `src/diag.rs` — diagnostics and the constructs the check does not handle.
- `src/semantics.rs` — what the check computes, as spec functions.
- `src/checker.rs` — the executable check, proved equal to `semantics`.
- `src/laws.rs`, `src/unprotected.rs`, `src/invariants.rs`, `src/unmoved.rs` —
  properties proved of the check for all functions; `unmoved` proves that a
  protected local bound anywhere in the pattern of a parameter or of a `let`
  at the top level of a function's body, that control reaches with no loop
  exit recorded and that the rest of the function never moves (a borrow is
  no move), is reported when the check succeeds, whatever the branches,
  loops and jumps after its binding.
- `src/lint.rs` — the lint pass and its registration.

The part that reads a compiler's syntax tree and prints the diagnostics is not
here: `check_fn` takes the tree as values and returns the diagnostics.
