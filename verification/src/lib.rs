//! Checks that values of drop-protected types are never dropped implicitly.
//!
//! `checker::check_fn` walks one function, given as the syntax tree of `ast`,
//! and reports where a local holding a protected value could be dropped
//! without being moved, or where branches disagree on which such locals are
//! alive. `semantics` states what it computes; `laws`, `unprotected`,
//! `invariants` and `unmoved` prove properties of it for every function.
pub mod ast;
pub mod ty;
pub mod live;
pub mod diag;
pub mod semantics;
pub mod checker;
pub mod lint;
pub mod laws;
pub mod unprotected;
pub mod invariants;
pub mod unmoved;
