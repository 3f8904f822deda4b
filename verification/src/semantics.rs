//! What the linearity check computes, as mathematical functions over the
//! syntax tree.
//!
//! The check walks a function body, keeping the set of live locals that hold
//! protected values. A local leaves the set when it is moved. Where control
//! flow splits (`if`, `match`, loops), the branches must agree on the set.
//! At every exit of the function the remaining locals must be ones that the
//! function may drop.
use vstd::prelude::*;
use crate::ast::{
    NodeId,
    Arm, Attribute, Block, Decl, Expr, ExprKind, FnItem, LocalSource, MatchSource, Pat, PatKind,
    Span, Stmt, StmtKind,
};
use crate::diag::{error, note, Diagnostic, Message, Unsupported};
use crate::live::{
    spec_has, spec_insert, spec_remove, spec_same, spec_same_opt, spec_unique, spec_unique_opt,
    LiveVar,
};
use crate::ty::{spec_can_drop, spec_mentions_protected};

verus! {

/// The state of the walk.
pub struct VisitorState {
    /// The live tracked locals.
    pub map: Seq<LiveVar>,
    /// Control cannot reach the current point (after a `return`, or after a
    /// construct all of whose branches return).
    pub diverging: bool,
    /// The current block was left by `break` or `continue`.
    pub breaking: bool,
    /// In a loop: the tracked locals at the loop head.
    pub loopin: Option<Seq<LiveVar>>,
    /// The tracked locals with which the innermost loop is left, once a
    /// `break` has been seen.
    pub loopout: Option<Seq<LiveVar>>,
}

impl VisitorState {
    pub open spec fn with_map(self, m: Seq<LiveVar>) -> VisitorState {
        VisitorState { map: m, ..self }
    }

    pub open spec fn with_diverging(self, b: bool) -> VisitorState {
        VisitorState { diverging: b, ..self }
    }

    pub open spec fn with_breaking(self, b: bool) -> VisitorState {
        VisitorState { breaking: b, ..self }
    }

    pub open spec fn with_loopin(self, m: Option<Seq<LiveVar>>) -> VisitorState {
        VisitorState { loopin: m, ..self }
    }

    pub open spec fn with_loopout(self, m: Option<Seq<LiveVar>>) -> VisitorState {
        VisitorState { loopout: m, ..self }
    }

    /// The maps of the state have no repeated ids.
    pub open spec fn wf(self) -> bool {
        &&& spec_unique(self.map)
        &&& spec_unique_opt(self.loopin)
        &&& spec_unique_opt(self.loopout)
    }
}

/// The state at the start of a function.
pub open spec fn spec_initial() -> VisitorState {
    VisitorState { map: Seq::empty(), diverging: false, breaking: false, loopin: None, loopout: None }
}

/// The outcome of walking a piece of syntax: the new state and the
/// diagnostics reported on the way, or the unsupported construct met.
pub type Visit = Result<(VisitorState, Seq<Diagnostic>), Unsupported>;

/// `r` with `d` reported before what `r` reports.
pub open spec fn prepend(d: Seq<Diagnostic>, r: Visit) -> Visit {
    match r {
        Err(u) => Err(u),
        Ok((s, d2)) => Ok((s, d + d2)),
    }
}

// ---------------------------------------------------------------- patterns

/// The effect of one pattern node (not its sub-patterns). `root_droppable`
/// tells whether the function may drop a value of the whole pattern's type.
pub open spec fn spec_pat_node(a: Seq<Attribute>, root_droppable: bool, s: VisitorState, p: Pat) -> (VisitorState, Seq<Diagnostic>) {
    match p.kind {
        PatKind::Ident(_) => if spec_mentions_protected(p.ty) {
            (
                s.with_map(spec_insert(s.map, LiveVar { id: p.id, span: p.span, droppable: spec_can_drop(a, p.ty) })),
                seq![note(p.span, Message::AddingProtected(p.id))],
            )
        } else {
            (s, seq![])
        },
        PatKind::Wild => if spec_mentions_protected(p.ty) && !root_droppable {
            (s, seq![error(p.span, Message::ProtectedTypeDropped)])
        } else {
            (s, seq![])
        },
        _ => (s, seq![]),
    }
}

/// Walks a pattern: every binding of a type that mentions a protected type
/// becomes tracked; a wildcard that discards such a value is an error.
pub open spec fn spec_add_pat(a: Seq<Attribute>, root_droppable: bool, s: VisitorState, p: Pat) -> (VisitorState, Seq<Diagnostic>)
    decreases p, 1nat,
{
    let (s1, d1) = spec_pat_node(a, root_droppable, s, p);
    match p.kind {
        PatKind::Ident(Some(sub)) => {
            let (s2, d2) = spec_add_pat(a, root_droppable, s1, *sub);
            (s2, d1 + d2)
        },
        PatKind::Compound(ps) => {
            let (s2, d2) = spec_add_subpats(a, root_droppable, s1, ps@);
            (s2, d1 + d2)
        },
        _ => (s1, d1),
    }
}

/// Walks the sub-patterns `ps` of one pattern, in order.
pub open spec fn spec_add_subpats(a: Seq<Attribute>, root_droppable: bool, s: VisitorState, ps: Seq<Pat>) -> (VisitorState, Seq<Diagnostic>)
    decreases ps, 0nat,
{
    if ps.len() == 0 {
        (s, seq![])
    } else {
        let (s1, d1) = spec_add_subpats(a, root_droppable, s, ps.drop_last());
        let (s2, d2) = spec_add_pat(a, root_droppable, s1, ps.last());
        (s2, d1 + d2)
    }
}

/// Walks a whole pattern.
pub open spec fn spec_add_root(a: Seq<Attribute>, s: VisitorState, p: Pat) -> (VisitorState, Seq<Diagnostic>) {
    spec_add_pat(a, spec_can_drop(a, p.ty), s, p)
}

/// Walks the whole patterns `ps`, in order.
pub open spec fn spec_add_roots(a: Seq<Attribute>, s: VisitorState, ps: Seq<Pat>) -> (VisitorState, Seq<Diagnostic>)
    decreases ps.len(),
{
    if ps.len() == 0 {
        (s, seq![])
    } else {
        let (s1, d1) = spec_add_roots(a, s, ps.drop_last());
        let (s2, d2) = spec_add_root(a, s1, ps.last());
        (s2, d1 + d2)
    }
}

// ---------------------------------------------------------------- helpers

/// One "dropped var" error for each tracked local of `m` that may not be
/// dropped, in the order of `m`.
pub open spec fn spec_dropped(m: Seq<LiveVar>) -> Seq<Diagnostic>
    decreases m.len(),
{
    if m.len() == 0 {
        seq![]
    } else {
        spec_dropped(m.drop_last()) + if m.last().droppable {
            seq![]
        } else {
            seq![error(m.last().span, Message::DroppedVar)]
        }
    }
}

/// Whether the pattern `p` binds the id `x`.
pub open spec fn spec_binds(p: Pat, x: NodeId) -> bool
    decreases p, 1nat,
{
    match p.kind {
        PatKind::Ident(Some(sub)) => p.id == x || spec_binds(*sub, x),
        PatKind::Ident(None) => p.id == x,
        PatKind::Compound(ps) => spec_any_binds(ps@, x),
        _ => false,
    }
}

pub open spec fn spec_any_binds(ps: Seq<Pat>, x: NodeId) -> bool
    decreases ps, 0nat,
{
    ps.len() > 0 && (spec_any_binds(ps.drop_last(), x) || spec_binds(ps.last(), x))
}


/// Whether a pattern of one of `arms` binds `x`.
pub open spec fn spec_arms_bind(arms: Seq<Arm>, x: NodeId) -> bool
    decreases arms.len(),
{
    arms.len() > 0 && (spec_arms_bind(arms.drop_last(), x) || spec_any_binds(arms.last().pats@, x))
}

/// A tracked local that an arm's pattern bound, and that was not tracked
/// before the arms: it cannot outlive the `match`.
pub open spec fn spec_is_escaping(v: LiveVar, pre: Seq<LiveVar>, arms: Seq<Arm>) -> bool {
    spec_arms_bind(arms, v.id) && !spec_has(pre, v.id)
}

/// One "Match arms are not linear" error for each escaping local of `m`.
pub open spec fn spec_escape_reports(m: Seq<LiveVar>, pre: Seq<LiveVar>, arms: Seq<Arm>, span: Span) -> Seq<Diagnostic>
    decreases m.len(),
{
    if m.len() == 0 {
        seq![]
    } else {
        spec_escape_reports(m.drop_last(), pre, arms, span) + if spec_is_escaping(m.last(), pre, arms) {
            seq![error(span, Message::MatchArmsNotLinear)]
        } else {
            seq![]
        }
    }
}

/// Whether an entry of the last arm's map is carried past the `match`: it
/// does not escape, and it was tracked before the arms or every arm that goes
/// on ends with it (`common`).
pub open spec fn spec_is_carried(v: LiveVar, common: Seq<LiveVar>, pre: Seq<LiveVar>, arms: Seq<Arm>) -> bool {
    !spec_is_escaping(v, pre, arms) && (spec_has(pre, v.id) || common.contains(v))
}

/// The entries of `m` carried past the `match`.
pub open spec fn spec_carried(m: Seq<LiveVar>, common: Seq<LiveVar>, pre: Seq<LiveVar>, arms: Seq<Arm>) -> Seq<LiveVar>
    decreases m.len(),
{
    if m.len() == 0 {
        seq![]
    } else {
        spec_carried(m.drop_last(), common, pre, arms) + if spec_is_carried(m.last(), common, pre, arms) {
            seq![m.last()]
        } else {
            seq![]
        }
    }
}

/// The entries of `m` that are also entries of `other`.
pub open spec fn spec_common(m: Seq<LiveVar>, other: Seq<LiveVar>) -> Seq<LiveVar>
    decreases m.len(),
{
    if m.len() == 0 {
        seq![]
    } else {
        spec_common(m.drop_last(), other) + if other.contains(m.last()) {
            seq![m.last()]
        } else {
            seq![]
        }
    }
}

/// One "Match arms are not linear" error for each tracked local of `m` that
/// `pre` does not track: a local bound inside a branch that does not leave
/// its block, while the other branch does.
pub open spec fn spec_branch_escapes(m: Seq<LiveVar>, pre: Seq<LiveVar>, span: Span) -> Seq<Diagnostic>
    decreases m.len(),
{
    if m.len() == 0 {
        seq![]
    } else {
        spec_branch_escapes(m.drop_last(), pre, span) + if !spec_has(pre, m.last().id) {
            seq![error(span, Message::MatchArmsNotLinear)]
        } else {
            seq![]
        }
    }
}

/// The entries of `m` whose locals `pre` tracks.
pub open spec fn spec_kept_locals(m: Seq<LiveVar>, pre: Seq<LiveVar>) -> Seq<LiveVar>
    decreases m.len(),
{
    if m.len() == 0 {
        seq![]
    } else {
        spec_kept_locals(m.drop_last(), pre) + if spec_has(pre, m.last().id) {
            seq![m.last()]
        } else {
            seq![]
        }
    }
}

/// At the end of a loop iteration that runs to the end of the body, the
/// locals bound during the iteration go out of scope: one "dropped var" error
/// for each tracked local of `m`, not tracked at the loop head `head`, that
/// may not be dropped.
pub open spec fn spec_iteration_end(m: Seq<LiveVar>, head: Seq<LiveVar>) -> Seq<Diagnostic>
    decreases m.len(),
{
    if m.len() == 0 {
        seq![]
    } else {
        spec_iteration_end(m.drop_last(), head) + if !m.last().droppable && !spec_has(head, m.last().id) {
            seq![error(m.last().span, Message::DroppedVar)]
        } else {
            seq![]
        }
    }
}

/// Records with which tracked locals a branch leaves the loop: the first
/// branch to do so fixes them, the others must agree.
pub open spec fn spec_update_loopout(s: VisitorState, span: Span, lo: Option<Seq<LiveVar>>) -> (VisitorState, Seq<Diagnostic>) {
    match s.loopout {
        Some(cur) => if spec_same_opt(Some(cur), lo) {
            (s, seq![])
        } else {
            (s, seq![error(span, Message::DivergingLoopout)])
        },
        None => (s.with_loopout(lo), seq![]),
    }
}

/// After a branching construct: the state of the last branch that did not
/// diverge, or divergence if every branch diverged.
pub open spec fn spec_join(s: VisitorState, last: Option<VisitorState>, d: Seq<Diagnostic>) -> Visit {
    match last {
        Some(o) => Ok((s.with_map(o.map).with_breaking(o.breaking), d)),
        None => Ok((s.with_diverging(true), d)),
    }
}

/// Whether the arms are those of the expansion of a `for` loop: one arm
/// whose body is a `loop` whose block ends in a `match` from a `for` loop.
pub open spec fn spec_is_for_expansion(arms: Seq<Arm>) -> bool {
    arms.len() == 1 && match arms[0].body.kind {
        ExprKind::Loop(b) => match b.expr {
            Some(x) => match x.kind {
                ExprKind::Match(_, _, src) => src == MatchSource::ForLoopDesugar,
                _ => false,
            },
            None => false,
        },
        _ => false,
    }
}

/// The block of the `loop` of a `for` expansion.
pub open spec fn spec_for_block(arms: Seq<Arm>) -> Block
    recommends
        spec_is_for_expansion(arms),
{
    match arms[0].body.kind {
        ExprKind::Loop(b) => b,
        _ => arbitrary(),
    }
}

/// Adding the last entry of a map without repeated ids to a selection of the
/// entries before it keeps ids unique.
proof fn lemma_push_unique(r: Seq<LiveVar>, m: Seq<LiveVar>)
    requires
        spec_unique(m),
        m.len() > 0,
        spec_unique(r),
        forall|v: LiveVar| r.contains(v) ==> m.drop_last().contains(v),
    ensures
        spec_unique(r.push(m.last())),
        forall|v: LiveVar| r.push(m.last()).contains(v) ==> m.contains(v),
{
    let q = r.push(m.last());
    assert forall|i: int, j: int| 0 <= i < q.len() && 0 <= j < q.len() && i != j implies #[trigger] q[i].id != #[trigger] q[j].id by {
        if i == r.len() as int {
            assert(r.contains(q[j]));
            let k = choose|k: int| 0 <= k < m.drop_last().len() && m.drop_last()[k] == q[j];
            assert(m[k] == q[j]);
        } else if j == r.len() as int {
            assert(r.contains(q[i]));
            let k = choose|k: int| 0 <= k < m.drop_last().len() && m.drop_last()[k] == q[i];
            assert(m[k] == q[i]);
        } else {
            assert(q[i] == r[i] && q[j] == r[j]);
        }
    }
    assert forall|v: LiveVar| q.contains(v) implies m.contains(v) by {
        let k = choose|k: int| 0 <= k < q.len() && q[k] == v;
        if k < r.len() {
            assert(r.contains(v));
            let l = choose|l: int| 0 <= l < m.drop_last().len() && m.drop_last()[l] == v;
            assert(m[l] == v);
        } else {
            assert(m[m.len() - 1] == v);
        }
    }
}

/// The entries kept by `spec_common` are entries of both maps, and of each
/// entry of `m` the one in `other` is kept.
pub proof fn lemma_common(m: Seq<LiveVar>, other: Seq<LiveVar>)
    requires
        spec_unique(m),
    ensures
        spec_unique(spec_common(m, other)),
        forall|v: LiveVar| #[trigger] spec_common(m, other).contains(v) <==> m.contains(v) && other.contains(v),
    decreases m.len(),
{
    if m.len() > 0 {
        let p = m.drop_last();
        assert(spec_unique(p));
        lemma_common(p, other);
        let r = spec_common(p, other);
        if other.contains(m.last()) {
            lemma_push_unique(r, m);
            assert(spec_common(m, other) =~= r.push(m.last()));
        } else {
            assert(spec_common(m, other) =~= r);
        }
        assert forall|v: LiveVar| #[trigger] spec_common(m, other).contains(v) <==> m.contains(v) && other.contains(v) by {
            if m.contains(v) && other.contains(v) {
                let k = choose|k: int| 0 <= k < m.len() && m[k] == v;
                if k < m.len() - 1 {
                    assert(p[k] == v);
                    assert(r.contains(v));
                    let l = choose|l: int| 0 <= l < r.len() && r[l] == v;
                    if other.contains(m.last()) {
                        assert(r.push(m.last())[l] == v);
                    } else {
                        assert(r + seq![] =~= r);
                    }
                } else {
                    assert(r.push(m.last())[r.len() as int] == v);
                }
            }
            if spec_common(m, other).contains(v) {
                let l = choose|l: int| 0 <= l < spec_common(m, other).len() && spec_common(m, other)[l] == v;
                if l < r.len() {
                    assert(r[l] == v);
                    assert(r.contains(v));
                    let k = choose|k: int| 0 <= k < p.len() && p[k] == v;
                    assert(m[k] == v);
                } else {
                    assert(v == m.last());
                    assert(m[m.len() - 1] == v);
                }
            }
        }
    }
}

/// Each live local not tracked at the loop head, that may not be dropped, is
/// reported by the end of an iteration.
pub proof fn lemma_iteration_end_reports(m: Seq<LiveVar>, head: Seq<LiveVar>, v: LiveVar)
    requires
        m.contains(v),
        !spec_has(head, v.id),
        !v.droppable,
    ensures
        spec_iteration_end(m, head).contains(error(v.span, Message::DroppedVar)),
    decreases m.len(),
{
    let p = m.drop_last();
    let j = choose|j: int| 0 <= j < m.len() && m[j] == v;
    let r = spec_iteration_end(p, head);
    if j < m.len() - 1 {
        assert(p[j] == v);
        lemma_iteration_end_reports(p, head, v);
        let k = choose|k: int| 0 <= k < r.len() && r[k] == error(v.span, Message::DroppedVar);
        assert(spec_iteration_end(m, head)[k] == error(v.span, Message::DroppedVar));
    } else {
        assert(spec_iteration_end(m, head)[r.len() as int] == error(v.span, Message::DroppedVar));
    }
}

/// A local of `m` that escapes the arms is reported.
pub proof fn lemma_escape_reported(m: Seq<LiveVar>, pre: Seq<LiveVar>, arms: Seq<Arm>, span: Span, v: LiveVar)
    requires
        m.contains(v),
        spec_is_escaping(v, pre, arms),
    ensures
        spec_escape_reports(m, pre, arms, span).contains(error(span, Message::MatchArmsNotLinear)),
    decreases m.len(),
{
    let p = m.drop_last();
    let j = choose|j: int| 0 <= j < m.len() && m[j] == v;
    let r = spec_escape_reports(p, pre, arms, span);
    if j < m.len() - 1 {
        assert(p[j] == v);
        lemma_escape_reported(p, pre, arms, span, v);
        let k = choose|k: int| 0 <= k < r.len() && r[k] == error(span, Message::MatchArmsNotLinear);
        assert(spec_escape_reports(m, pre, arms, span)[k] == error(span, Message::MatchArmsNotLinear));
    } else {
        assert(spec_escape_reports(m, pre, arms, span)[r.len() as int] == error(span, Message::MatchArmsNotLinear));
    }
}

/// A local of `m` that `pre` does not track is reported.
pub proof fn lemma_branch_escape_reported(m: Seq<LiveVar>, pre: Seq<LiveVar>, span: Span, v: LiveVar)
    requires
        m.contains(v),
        !spec_has(pre, v.id),
    ensures
        spec_branch_escapes(m, pre, span).contains(error(span, Message::MatchArmsNotLinear)),
    decreases m.len(),
{
    let p = m.drop_last();
    let j = choose|j: int| 0 <= j < m.len() && m[j] == v;
    let r = spec_branch_escapes(p, pre, span);
    if j < m.len() - 1 {
        assert(p[j] == v);
        lemma_branch_escape_reported(p, pre, span, v);
        let k = choose|k: int| 0 <= k < r.len() && r[k] == error(span, Message::MatchArmsNotLinear);
        assert(spec_branch_escapes(m, pre, span)[k] == error(span, Message::MatchArmsNotLinear));
    } else {
        assert(spec_branch_escapes(m, pre, span)[r.len() as int] == error(span, Message::MatchArmsNotLinear));
    }
}

/// Keeping the locals of `pre` keeps ids unique and keeps exactly the entries
/// whose locals `pre` tracks.
pub proof fn lemma_kept_locals(m: Seq<LiveVar>, pre: Seq<LiveVar>)
    requires
        spec_unique(m),
    ensures
        spec_unique(spec_kept_locals(m, pre)),
        forall|v: LiveVar| #[trigger] spec_kept_locals(m, pre).contains(v) <==> m.contains(v) && spec_has(pre, v.id),
    decreases m.len(),
{
    if m.len() > 0 {
        let p = m.drop_last();
        assert(spec_unique(p));
        lemma_kept_locals(p, pre);
        let r = spec_kept_locals(p, pre);
        let keep = spec_has(pre, m.last().id);
        if keep {
            lemma_push_unique(r, m);
            assert(spec_kept_locals(m, pre) =~= r.push(m.last()));
        } else {
            assert(spec_kept_locals(m, pre) =~= r);
        }
        assert forall|v: LiveVar| #[trigger] spec_kept_locals(m, pre).contains(v) <==> m.contains(v) && spec_has(pre, v.id) by {
            if m.contains(v) && spec_has(pre, v.id) {
                let k = choose|k: int| 0 <= k < m.len() && m[k] == v;
                if k < m.len() - 1 {
                    assert(p[k] == v);
                    assert(r.contains(v));
                    let l = choose|l: int| 0 <= l < r.len() && r[l] == v;
                    if keep {
                        assert(r.push(m.last())[l] == v);
                    }
                } else {
                    assert(r.push(m.last())[r.len() as int] == v);
                }
            }
            if spec_kept_locals(m, pre).contains(v) {
                let l = choose|l: int| 0 <= l < spec_kept_locals(m, pre).len() && spec_kept_locals(m, pre)[l] == v;
                if l < r.len() {
                    assert(r[l] == v);
                    assert(r.contains(v));
                    let k = choose|k: int| 0 <= k < p.len() && p[k] == v;
                    assert(m[k] == v);
                } else {
                    assert(v == m.last());
                    assert(m[m.len() - 1] == v);
                }
            }
        }
    }
}

/// Carrying entries past a `match` keeps ids unique and keeps exactly the
/// carried entries.
pub proof fn lemma_carried(m: Seq<LiveVar>, common: Seq<LiveVar>, pre: Seq<LiveVar>, arms: Seq<Arm>)
    requires
        spec_unique(m),
    ensures
        spec_unique(spec_carried(m, common, pre, arms)),
        forall|v: LiveVar| #[trigger] spec_carried(m, common, pre, arms).contains(v) <==> m.contains(v) && spec_is_carried(v, common, pre, arms),
    decreases m.len(),
{
    if m.len() > 0 {
        let p = m.drop_last();
        assert(spec_unique(p));
        lemma_carried(p, common, pre, arms);
        let r = spec_carried(p, common, pre, arms);
        let keep = spec_is_carried(m.last(), common, pre, arms);
        if keep {
            lemma_push_unique(r, m);
            assert(spec_carried(m, common, pre, arms) =~= r.push(m.last()));
        } else {
            assert(spec_carried(m, common, pre, arms) =~= r);
        }
        assert forall|v: LiveVar| #[trigger] spec_carried(m, common, pre, arms).contains(v) <==> m.contains(v) && spec_is_carried(v, common, pre, arms) by {
            if m.contains(v) && spec_is_carried(v, common, pre, arms) {
                let k = choose|k: int| 0 <= k < m.len() && m[k] == v;
                if k < m.len() - 1 {
                    assert(p[k] == v);
                    assert(r.contains(v));
                    let l = choose|l: int| 0 <= l < r.len() && r[l] == v;
                    if keep {
                        assert(r.push(m.last())[l] == v);
                    }
                } else {
                    assert(r.push(m.last())[r.len() as int] == v);
                }
            }
            if spec_carried(m, common, pre, arms).contains(v) {
                let l = choose|l: int| 0 <= l < spec_carried(m, common, pre, arms).len() && spec_carried(m, common, pre, arms)[l] == v;
                if l < r.len() {
                    assert(r[l] == v);
                    assert(r.contains(v));
                    let k = choose|k: int| 0 <= k < p.len() && p[k] == v;
                    assert(m[k] == v);
                } else {
                    assert(v == m.last());
                    assert(m[m.len() - 1] == v);
                }
            }
        }
    }
}

// ---------------------------------------------------------------- expressions

/// Visits an expression. Nothing happens once control cannot reach it or the
/// block was left by `break` or `continue`.
pub open spec fn spec_visit_expr(a: Seq<Attribute>, s: VisitorState, e: Expr) -> Visit
    decreases e, 2nat,
{
    if s.diverging || s.breaking {
        Ok((s, seq![]))
    } else {
        match e.kind {
            ExprKind::Assign(lhs, rhs) => match spec_visit_expr(a, s, *rhs) {
                Err(u) => Err(u),
                Ok((s1, d1)) => match lhs.kind {
                    ExprKind::Path(Some(id)) => if spec_has(s1.map, id) {
                        Ok((s1, d1.push(error(lhs.span, Message::CannotOverwrite))))
                    } else if spec_mentions_protected(lhs.ty) {
                        Ok((
                            s1.with_map(spec_insert(s1.map, LiveVar { id, span: e.span, droppable: spec_can_drop(a, lhs.ty) })),
                            d1,
                        ))
                    } else {
                        Ok((s1, d1))
                    },
                    ExprKind::Path(None) => Err(Unsupported::AssignToNonLocal),
                    _ => Err(Unsupported::AssignToPlace),
                },
            },
            ExprKind::Path(Some(id)) => if spec_has(s.map, id) {
                Ok((s.with_map(spec_remove(s.map, id)), seq![note(e.span, Message::ConsumingProtected)]))
            } else {
                Ok((s, seq![]))
            },
            ExprKind::AddrOf(inner) => match inner.kind {
                ExprKind::Path(_) => Ok((s, seq![])),
                _ => spec_visit_expr(a, s, *inner),
            },
            ExprKind::If(_, _, _) => spec_visit_if(a, s, e),
            ExprKind::Match(_, _, _) => spec_visit_match(a, s, e),
            ExprKind::Ret(r) => {
                let r1 = match r {
                    Some(x) => spec_visit_expr(a, s, *x),
                    None => Ok((s, seq![])),
                };
                match r1 {
                    Err(u) => Err(u),
                    Ok((s1, d1)) => Ok((s1.with_diverging(true), d1 + spec_dropped(s1.map))),
                }
            },
            ExprKind::Loop(body) => match spec_visit_block(a, s.with_loopin(Some(s.map)), body) {
                Err(u) => Err(u),
                Ok((t, d)) => if !t.diverging {
                    let d2 = if !t.breaking { d + spec_iteration_end(t.map, s.map) } else { d };
                    match t.loopout {
                        Some(out) => Ok((s.with_map(out), d2)),
                        None => Ok((s, d2)),
                    }
                } else {
                    Ok((s.with_diverging(true), d))
                },
            },
            ExprKind::While(_, _) => Err(Unsupported::While),
            ExprKind::Break(label) => if label.is_some() {
                Err(Unsupported::LabelledBreak)
            } else {
                match s.loopout {
                    Some(out) => if spec_same(s.map, out) {
                        Ok((s.with_breaking(true), seq![]))
                    } else {
                        Ok((s.with_breaking(true), seq![error(e.span, Message::DivergingBreak)]))
                    },
                    None => Ok((s.with_breaking(true).with_loopout(Some(s.map)), seq![])),
                }
            },
            ExprKind::Again(label) => if label.is_some() {
                Err(Unsupported::LabelledContinue)
            } else {
                match s.loopin {
                    Some(inc) => if spec_same(s.map, inc) {
                        Ok((s.with_breaking(true), seq![]))
                    } else {
                        Ok((s.with_breaking(true), seq![error(e.span, Message::DivergingContinue)]))
                    },
                    None => Err(Unsupported::ContinueOutsideLoop),
                }
            },
            _ => spec_walk_expr(a, s, e),
        }
    }
}

/// Visits an `if`: each branch starts from the current state; the branches
/// must agree on the tracked locals unless one of them leaves the block.
/// When the `if` branch leaves the block and the `else` branch goes on, the
/// locals bound inside the `else` branch cannot outlive it: each one is
/// reported.
/// A missing `else` is a branch that changes nothing: when the `if` branch
/// diverges or leaves its block, the walk goes on from the state before the
/// `if`; otherwise that branch must end with the tracked locals it started
/// with. The condition is not visited.
pub open spec fn spec_visit_if(a: Seq<Attribute>, s: VisitorState, e: Expr) -> Visit
    decreases e, 1nat,
{
    match e.kind {
        ExprKind::If(_, then_block, None) => match spec_visit_block(a, s, then_block) {
            Err(u) => Err(u),
            Ok((v, d1)) => {
                let (su, du) = if !v.diverging { spec_update_loopout(s, e.span, v.loopout) } else { (s, seq![]) };
                if v.diverging || v.breaking {
                    Ok((su, d1 + du))
                } else {
                    let dn = if !spec_same(v.map, su.map) {
                        seq![error(e.span, Message::IfBranchNotLinear)]
                    } else {
                        seq![]
                    };
                    Ok((su.with_map(v.map), d1 + du + dn))
                }
            },
        },
        ExprKind::If(_, then_block, Some(x)) => match spec_visit_block(a, s, then_block) {
            Err(u) => Err(u),
            Ok((v, d1)) => {
                let (s1, last1, d2) = if !v.diverging {
                    let (su, du) = spec_update_loopout(s, e.span, v.loopout);
                    (su, Some(v), du)
                } else {
                    (s, None, seq![])
                };
                match spec_visit_expr(a, s1, *x) {
                    Err(u) => Err(u),
                    Ok((w, d3)) => if !w.diverging {
                        let (s2, du2) = spec_update_loopout(s1, e.span, w.loopout);
                        let (w2, dn2) = match last1 {
                            Some(t) => if !t.breaking {
                                let dd = if !w.breaking && !spec_same(t.map, w.map) {
                                    seq![error(e.span, Message::IfBranchesNotLinear)]
                                } else if w.breaking && !spec_same(t.map, s2.map) {
                                    seq![error(e.span, Message::IfBranchesNotLinear)]
                                } else {
                                    seq![]
                                };
                                (w.with_breaking(false), dd)
                            } else if !w.breaking {
                                (w.with_map(spec_kept_locals(w.map, s.map)), spec_branch_escapes(w.map, s.map, e.span))
                            } else {
                                (w, seq![])
                            },
                            None => (w, seq![]),
                        };
                        spec_join(s2, Some(w2), d1 + d2 + d3 + du2 + dn2)
                    } else {
                        spec_join(s1, last1, d1 + d2 + d3)
                    },
                }
            },
        },
        _ => Ok((s, seq![])),
    }
}

/// Visits a `match`: the scrutinee first; then either the body of a `for`
/// loop expansion, or each arm from the current state, the arms having to
/// agree on the tracked locals. After the arms, the tracked locals are those
/// of the last arm that did not diverge, but for the locals bound in the arms
/// that the other arms do not end with: a local bound by an arm's pattern
/// cannot outlive the `match`, and each one still live at the end of that
/// arm is reported; a local bound in an arm's body is carried on only if
/// every arm that goes on ends with it (else the arms' disagreement has
/// been reported).
pub open spec fn spec_visit_match(a: Seq<Attribute>, s: VisitorState, e: Expr) -> Visit
    decreases e, 1nat,
{
    match e.kind {
        ExprKind::Match(scrutinee, arms, _) => match spec_visit_expr(a, s, *scrutinee) {
            Err(u) => Err(u),
            Ok((s1, d1)) => if spec_is_for_expansion(arms@) {
                let dn = seq![note(e.span, Message::ForLoopExpansion)];
                match spec_visit_block(a, s1, spec_for_block(arms@)) {
                    Err(u) => Err(u),
                    Ok((t, d2)) => if !t.diverging {
                        match t.loopout {
                            Some(hm) => if !spec_same(t.map, hm) {
                                Ok((s1, d1 + dn + d2 + seq![error(e.span, Message::NonLinearForLoop)]))
                            } else {
                                Ok((s1.with_map(t.map), d1 + dn + d2))
                            },
                            None => Ok((s1, d1 + dn + d2)),
                        }
                    } else {
                        Ok((s1.with_diverging(true), d1 + dn + d2))
                    },
                }
            } else {
                match spec_branch_arms(a, s1, e.span, arms@) {
                    Err(u) => Err(u),
                    Ok((s2, last, common, d2)) => match last {
                        None => Ok((s2.with_diverging(true), d1 + d2)),
                        Some(o) => Ok((
                            s2.with_map(spec_carried(o.map, common, s1.map, arms@)).with_breaking(o.breaking),
                            d1 + d2 + spec_escape_reports(o.map, s1.map, arms@, e.span),
                        )),
                    },
                }
            },
        },
        _ => Ok((s, seq![])),
    }
}

/// Visits the arms of a branching `match` in order, each from the current
/// state. Yields the current state, the state after the last arm that did not
/// diverge, the entries common to the ends of all arms that did not diverge,
/// and the diagnostics.
pub open spec fn spec_branch_arms(a: Seq<Attribute>, s: VisitorState, span: Span, arms: Seq<Arm>) -> Result<
    (VisitorState, Option<VisitorState>, Seq<LiveVar>, Seq<Diagnostic>),
    Unsupported,
>
    decreases arms, 0nat,
{
    if arms.len() == 0 {
        Ok((s, None, seq![], seq![]))
    } else {
        match spec_branch_arms(a, s, span, arms.drop_last()) {
            Err(u) => Err(u),
            Ok((s1, last, common, d1)) => match spec_visit_arm(a, s1, arms.last()) {
                Err(u) => Err(u),
                Ok((v, d2)) => if !v.diverging {
                    let (s2, du) = spec_update_loopout(s1, span, v.loopout);
                    match last {
                        Some(t) => {
                            let v2 = if !t.breaking { v.with_breaking(false) } else { v };
                            let dm = if !spec_same(t.map, v.map) {
                                seq![error(span, Message::MatchArmsNotLinear)]
                            } else {
                                seq![]
                            };
                            Ok((s2, Some(v2), spec_common(common, v.map), d1 + d2 + du + dm))
                        },
                        None => Ok((s2, Some(v), v.map, d1 + d2 + du)),
                    }
                } else {
                    Ok((s1, last, common, d1 + d2))
                },
            },
        }
    }
}

/// Visits one arm: its patterns, then the inside of its body.
pub open spec fn spec_visit_arm(a: Seq<Attribute>, s: VisitorState, arm: Arm) -> Visit
    decreases arm, 0nat,
{
    let (s1, d1) = spec_add_roots(a, s, arm.pats@);
    if arm.guard.is_some() {
        Err(Unsupported::ArmGuard)
    } else {
        prepend(d1, spec_walk_expr(a, s1, arm.body))
    }
}

/// Visits the arms `arms` one after the other, in the same state.
pub open spec fn spec_walk_arms(a: Seq<Attribute>, s: VisitorState, arms: Seq<Arm>) -> Visit
    decreases arms, 0nat,
{
    if arms.len() == 0 {
        Ok((s, seq![]))
    } else {
        match spec_walk_arms(a, s, arms.drop_last()) {
            Err(u) => Err(u),
            Ok((s1, d1)) => prepend(d1, spec_visit_arm(a, s1, arms.last())),
        }
    }
}

/// Visits the expressions `es` one after the other.
pub open spec fn spec_visit_exprs(a: Seq<Attribute>, s: VisitorState, es: Seq<Expr>) -> Visit
    decreases es, 0nat,
{
    if es.len() == 0 {
        Ok((s, seq![]))
    } else {
        match spec_visit_exprs(a, s, es.drop_last()) {
            Err(u) => Err(u),
            Ok((s1, d1)) => prepend(d1, spec_visit_expr(a, s1, es.last())),
        }
    }
}

/// Visits the parts of an expression (not the expression itself), as the
/// generic walker does: no branching, every part in turn.
pub open spec fn spec_walk_expr(a: Seq<Attribute>, s: VisitorState, e: Expr) -> Visit
    decreases e, 0nat,
{
    match e.kind {
        ExprKind::Path(_) => Ok((s, seq![])),
        ExprKind::Assign(lhs, rhs) => match spec_visit_expr(a, s, *rhs) {
            Err(u) => Err(u),
            Ok((s1, d1)) => prepend(d1, spec_visit_expr(a, s1, *lhs)),
        },
        ExprKind::AddrOf(inner) => spec_visit_expr(a, s, *inner),
        ExprKind::If(cond, then_block, els) => match spec_visit_expr(a, s, *cond) {
            Err(u) => Err(u),
            Ok((s1, d1)) => match spec_visit_block(a, s1, then_block) {
                Err(u) => Err(u),
                Ok((s2, d2)) => match els {
                    Some(x) => prepend(d1 + d2, spec_visit_expr(a, s2, *x)),
                    None => Ok((s2, d1 + d2)),
                },
            },
        },
        ExprKind::Match(scrutinee, arms, _) => match spec_visit_expr(a, s, *scrutinee) {
            Err(u) => Err(u),
            Ok((s1, d1)) => prepend(d1, spec_walk_arms(a, s1, arms@)),
        },
        ExprKind::Loop(body) => spec_visit_block(a, s, body),
        ExprKind::While(cond, body) => match spec_visit_expr(a, s, *cond) {
            Err(u) => Err(u),
            Ok((s1, d1)) => prepend(d1, spec_visit_block(a, s1, body)),
        },
        ExprKind::Ret(r) => match r {
            Some(x) => spec_visit_expr(a, s, *x),
            None => Ok((s, seq![])),
        },
        ExprKind::Break(_) => Ok((s, seq![])),
        ExprKind::Again(_) => Ok((s, seq![])),
        ExprKind::Block(b) => spec_visit_block(a, s, b),
        ExprKind::Other(es) => spec_visit_exprs(a, s, es@),
    }
}

// ---------------------------------------------------------------- blocks

/// Visits a block; when control may still reach its end and its trailing
/// expression is of a protected type, the parts of that expression are
/// visited once more, as the value leaves the block.
pub open spec fn spec_visit_block(a: Seq<Attribute>, s: VisitorState, b: Block) -> Visit
    decreases b, 1nat,
{
    match spec_walk_block(a, s, b) {
        Err(u) => Err(u),
        Ok((s1, d1)) => match b.expr {
            Some(x) => if !s1.diverging && x.ty.protected {
                prepend(d1, spec_walk_expr(a, s1, *x))
            } else {
                Ok((s1, d1))
            },
            None => Ok((s1, d1)),
        },
    }
}

/// Visits the statements of a block, then its trailing expression.
pub open spec fn spec_walk_block(a: Seq<Attribute>, s: VisitorState, b: Block) -> Visit
    decreases b, 0nat,
{
    match spec_visit_stmts(a, s, b.stmts@) {
        Err(u) => Err(u),
        Ok((s1, d1)) => match b.expr {
            Some(x) => prepend(d1, spec_visit_expr(a, s1, *x)),
            None => Ok((s1, d1)),
        },
    }
}

/// Visits the statements `ss` one after the other.
pub open spec fn spec_visit_stmts(a: Seq<Attribute>, s: VisitorState, ss: Seq<Stmt>) -> Visit
    decreases ss, 0nat,
{
    if ss.len() == 0 {
        Ok((s, seq![]))
    } else {
        match spec_visit_stmts(a, s, ss.drop_last()) {
            Err(u) => Err(u),
            Ok((s1, d1)) => prepend(d1, spec_visit_stmt(a, s1, ss.last())),
        }
    }
}

/// Visits the blocks `bs` one after the other.
pub open spec fn spec_visit_blocks(a: Seq<Attribute>, s: VisitorState, bs: Seq<Block>) -> Visit
    decreases bs, 0nat,
{
    if bs.len() == 0 {
        Ok((s, seq![]))
    } else {
        match spec_visit_blocks(a, s, bs.drop_last()) {
            Err(u) => Err(u),
            Ok((s1, d1)) => prepend(d1, spec_visit_block(a, s1, bs.last())),
        }
    }
}

/// Visits a statement, unless control cannot reach it. A statement that
/// discards a protected value is an error.
pub open spec fn spec_visit_stmt(a: Seq<Attribute>, s: VisitorState, st: Stmt) -> Visit
    decreases st, 1nat,
{
    if s.diverging {
        Ok((s, seq![]))
    } else {
        match st.kind {
            StmtKind::Decl(d) => spec_visit_decl(a, s, d),
            StmtKind::Expr(x) => spec_visit_expr(a, s, x),
            StmtKind::Semi(x) => prepend(
                if x.ty.protected { seq![error(st.span, Message::ProtectedValueUnused)] } else { seq![] },
                spec_visit_expr(a, s, x),
            ),
        }
    }
}

/// Visits a declaration: for a `let`, its initializer and then its pattern;
/// for an item, the bodies of its functions.
pub open spec fn spec_visit_decl(a: Seq<Attribute>, s: VisitorState, d: Decl) -> Visit
    decreases d, 0nat,
{
    match d {
        Decl::Local(l) => if l.source == LocalSource::ForLoop {
            Err(Unsupported::ForLoopLocal)
        } else {
            let r = match l.init {
                Some(x) => spec_visit_expr(a, s, x),
                None => Ok((s, seq![])),
            };
            match r {
                Err(u) => Err(u),
                Ok((s1, d1)) => {
                    let (s2, d2) = spec_add_root(a, s1, l.pat);
                    Ok((s2, d1 + d2))
                },
            }
        },
        Decl::Item(bodies) => spec_visit_blocks(a, s, bodies@),
    }
}

// ---------------------------------------------------------------- functions

/// The state after walking a function: its parameters, then its body.
pub open spec fn spec_walk_fn(f: FnItem) -> Visit {
    let a = f.attrs@;
    let (s1, d1) = spec_add_roots(a, spec_initial(), f.params@);
    prepend(d1, spec_walk_block(a, s1, f.body))
}

/// The diagnostics of checking a function: those of the walk, then, when
/// control can reach the end of the body, one "dropped var" error for each
/// tracked local left that the function may not drop.
pub open spec fn spec_check_fn(f: FnItem) -> Result<Seq<Diagnostic>, Unsupported> {
    match spec_walk_fn(f) {
        Err(u) => Err(u),
        Ok((s, d)) => Ok(if !s.diverging { d + spec_dropped(s.map) } else { d }),
    }
}

} // verus!
