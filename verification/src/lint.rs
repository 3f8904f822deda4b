//! The lint pass and its registration with a compiler's plugin registry.
use vstd::prelude::*;
use crate::ast::FnItem;
use crate::checker;
use crate::diag::{Diagnostic, Unsupported};
use crate::semantics::spec_check_fn;

verus! {

/// The level a lint has unless the crate sets another.
#[derive(Clone, Copy, Debug, PartialEq, Eq, Structural)]
pub enum LintLevel {
    Allow,
    Warn,
    Deny,
    Forbid,
}

/// A lint the pass declares.
#[derive(Clone, Copy, Debug)]
pub struct Lint {
    pub name: &'static str,
    pub default_level: LintLevel,
    pub desc: &'static str,
}

/// The lint the pass declares.
pub open spec fn spec_test_lint() -> Lint {
    Lint { name: "test_lint", default_level: LintLevel::Warn, desc: "Warn about items named 'lintme'" }
}

/// The lint pass: it checks every function it is given.
#[derive(Clone, Copy, Debug, PartialEq, Eq, Structural)]
pub struct Pass;

impl Pass {
    /// The lints this pass declares.
    pub fn get_lints(&self) -> (r: Vec<Lint>)
        ensures
            r@ == seq![spec_test_lint()],
    {
        let mut r: Vec<Lint> = Vec::new();
        r.push(Lint { name: "test_lint", default_level: LintLevel::Warn, desc: "Warn about items named 'lintme'" });
        r
    }

    /// Checks one function (see `checker::check_fn`). A construct the check
    /// does not handle is returned as the error, where the check cannot go on.
    pub fn check_fn(&self, f: &FnItem) -> (r: Result<Vec<Diagnostic>, Unsupported>)
        ensures
            match spec_check_fn(*f) {
                Ok(d) => r matches Ok(v) && v@ == d,
                Err(u) => r matches Err(u2) && u2 == u,
            },
    {
        checker::check_fn(f)
    }
}

/// The lint passes a compiler runs, in the order they were registered.
pub struct Registry {
    passes: Vec<Pass>,
}

impl View for Registry {
    type V = Seq<Pass>;

    closed spec fn view(&self) -> Seq<Pass> {
        self.passes@
    }
}

impl Registry {
    /// A registry without passes.
    pub fn new() -> (r: Registry)
        ensures
            r@ == Seq::<Pass>::empty(),
    {
        Registry { passes: Vec::new() }
    }

    /// Adds a lint pass.
    pub fn register_lint_pass(&mut self, pass: Pass)
        ensures
            final(self)@ == old(self)@.push(pass),
    {
        self.passes.push(pass);
    }

    /// The number of registered passes.
    pub fn num_lint_passes(&self) -> (r: usize)
        ensures
            r == self@.len(),
    {
        self.passes.len()
    }
}

/// Registers the linearity pass.
pub fn plugin_registrar(reg: &mut Registry)
    ensures
        final(reg)@ == old(reg)@.push(Pass),
{
    reg.register_lint_pass(Pass);
}

} // verus!
