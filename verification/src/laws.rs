//! Properties of the check that hold for every function it is given.
use vstd::prelude::*;
use crate::ast::{
    Attribute, Block, Decl, Expr, ExprKind, FnItem, LocalSource, NodeId, Pat, PatKind, Stmt,
    StmtKind,
};
use crate::diag::{error, Diagnostic, Message};
use crate::live::{lemma_insert, lemma_remove, spec_as_map, spec_has, spec_insert, spec_pos, LiveVar};
use crate::semantics::{
    spec_any_binds, spec_binds,
    spec_add_pat, spec_add_root, spec_add_roots, spec_add_subpats, spec_check_fn, spec_dropped,
    spec_pat_node, spec_visit_decl, spec_visit_expr, spec_visit_exprs, spec_visit_stmt,
    spec_visit_stmts, spec_walk_block, spec_walk_expr, spec_walk_fn, spec_initial, Visit,
    VisitorState,
};
use crate::ty::{spec_can_drop, spec_mentions_protected};

verus! {

// ---------------------------------------------------------------- exits

/// The reports made where control leaves a function (a `return` or the end of
/// its body) are exactly: one "dropped var" error at the binding of each live
/// tracked local that the function may not drop.
pub proof fn law_exit_reports_undroppable_locals(m: Seq<LiveVar>)
    ensures
        forall|v: LiveVar| m.contains(v) && !v.droppable ==> #[trigger] spec_dropped(m).contains(error(v.span, Message::DroppedVar)),
        forall|i: int| 0 <= i < spec_dropped(m).len() ==> exists|v: LiveVar| m.contains(v) && !v.droppable
            && #[trigger] spec_dropped(m)[i] == error(v.span, Message::DroppedVar),
    decreases m.len(),
{
    if m.len() > 0 {
        let init = m.drop_last();
        law_exit_reports_undroppable_locals(init);
        let tail = if m.last().droppable { seq![] } else { seq![error(m.last().span, Message::DroppedVar)] };
        assert(spec_dropped(m) == spec_dropped(init) + tail);
        assert forall|v: LiveVar| m.contains(v) && !v.droppable implies #[trigger] spec_dropped(m).contains(error(v.span, Message::DroppedVar)) by {
            let j = choose|j: int| 0 <= j < m.len() && m[j] == v;
            if j < m.len() - 1 {
                assert(init[j] == v);
                assert(init.contains(v));
                assert(spec_dropped(init).contains(error(v.span, Message::DroppedVar)));
                let k = choose|k: int| 0 <= k < spec_dropped(init).len() && spec_dropped(init)[k] == error(v.span, Message::DroppedVar);
                assert(spec_dropped(m)[k] == error(v.span, Message::DroppedVar));
            } else {
                assert(spec_dropped(m)[spec_dropped(init).len() as int] == error(v.span, Message::DroppedVar));
            }
        }
        assert forall|i: int| 0 <= i < spec_dropped(m).len() implies exists|v: LiveVar| m.contains(v) && !v.droppable
            && #[trigger] spec_dropped(m)[i] == error(v.span, Message::DroppedVar) by {
            if i < spec_dropped(init).len() {
                let v = choose|v: LiveVar| init.contains(v) && !v.droppable && spec_dropped(init)[i] == error(v.span, Message::DroppedVar);
                let j = choose|j: int| 0 <= j < init.len() && init[j] == v;
                assert(m[j] == v);
                assert(m.contains(v));
            } else {
                assert(m.contains(m.last()));
            }
        }
    }
}

/// A tracked local, as an entry of the live set.
pub open spec fn spec_tracks(m: Seq<LiveVar>, id: NodeId, v: (crate::ast::Span, bool)) -> bool {
    spec_as_map(m).dom().contains(id) && spec_as_map(m)[id] == v
}

/// In a map without repeated ids, the entry of a tracked id is one of its elements.
pub proof fn lemma_tracked_entry(m: Seq<LiveVar>, id: NodeId)
    requires
        spec_has(m, id),
    ensures
        m.contains(LiveVar { id, span: spec_as_map(m)[id].0, droppable: spec_as_map(m)[id].1 }),
{
    let k = spec_pos(m, id);
    assert(m[k] == LiveVar { id, span: spec_as_map(m)[id].0, droppable: spec_as_map(m)[id].1 });
}

/// `return` reports every live local the function may not drop, and makes the
/// rest of the code unreachable.
pub proof fn law_return_checks_live_locals(a: Seq<Attribute>, s: VisitorState, e: Expr)
    requires
        !s.diverging,
        !s.breaking,
        e.kind == ExprKind::Ret(None),
    ensures
        spec_visit_expr(a, s, e) == Visit::Ok((s.with_diverging(true), spec_dropped(s.map))),
        forall|v: LiveVar| s.map.contains(v) && !v.droppable ==> #[trigger] spec_dropped(s.map).contains(
            error(v.span, Message::DroppedVar),
        ),
{
    law_exit_reports_undroppable_locals(s.map);
    assert(spec_dropped(s.map) =~= seq![] + spec_dropped(s.map));
}

/// When control can reach the end of a function's body, every tracked local
/// still live there that the function may not drop is reported.
pub proof fn law_end_of_body_checks_live_locals(f: FnItem, s: VisitorState, d: Seq<Diagnostic>)
    requires
        spec_walk_fn(f) == Visit::Ok((s, d)),
        !s.diverging,
    ensures
        spec_check_fn(f) == Ok::<Seq<Diagnostic>, crate::diag::Unsupported>(d + spec_dropped(s.map)),
        forall|v: LiveVar| s.map.contains(v) && !v.droppable ==> #[trigger] (d + spec_dropped(s.map)).contains(
            error(v.span, Message::DroppedVar),
        ),
{
    law_exit_reports_undroppable_locals(s.map);
    assert forall|v: LiveVar| s.map.contains(v) && !v.droppable implies #[trigger] (d + spec_dropped(s.map)).contains(
        error(v.span, Message::DroppedVar),
    ) by {
        assert(spec_dropped(s.map).contains(error(v.span, Message::DroppedVar)));
        let k = choose|k: int| 0 <= k < spec_dropped(s.map).len() && spec_dropped(s.map)[k] == error(v.span, Message::DroppedVar);
        assert((d + spec_dropped(s.map))[d.len() as int + k] == error(v.span, Message::DroppedVar));
    }
}

// ---------------------------------------------------------------- unreachable code

/// Code that control cannot reach, or that follows a `break` or `continue`
/// in its block, changes nothing and reports nothing.
pub proof fn law_unreachable_code_is_ignored(a: Seq<Attribute>, s: VisitorState, e: Expr, st: Stmt)
    requires
        s.diverging || s.breaking,
    ensures
        spec_visit_expr(a, s, e) == Visit::Ok((s, seq![])),
        s.diverging ==> spec_visit_stmt(a, s, st) == Visit::Ok((s, seq![])),
{
}

// ---------------------------------------------------------------- moves

/// A binding whose type mentions a protected type starts to be tracked, with
/// the place of the binding and whether the function may drop its type; a
/// binding of any other type leaves the tracked locals as they were.
pub proof fn law_binding_is_tracked(a: Seq<Attribute>, s: VisitorState, p: Pat)
    requires
        s.wf(),
        p.kind == PatKind::Ident(None),
    ensures
        spec_mentions_protected(p.ty) ==> spec_tracks(spec_add_root(a, s, p).0.map, p.id, (p.span, spec_can_drop(a, p.ty)))
            && spec_as_map(spec_add_root(a, s, p).0.map) == spec_as_map(s.map).insert(p.id, (p.span, spec_can_drop(a, p.ty))),
        !spec_mentions_protected(p.ty) ==> spec_add_root(a, s, p).0 == s,
{
    if spec_mentions_protected(p.ty) {
        lemma_insert(s.map, LiveVar { id: p.id, span: p.span, droppable: spec_can_drop(a, p.ty) });
    }
}

/// Moving a tracked local untracks it, and leaves the other locals as they were.
pub proof fn law_move_untracks(a: Seq<Attribute>, s: VisitorState, e: Expr, id: NodeId)
    requires
        s.wf(),
        !s.diverging,
        !s.breaking,
        e.kind == ExprKind::Path(Some(id)),
        spec_has(s.map, id),
    ensures
        spec_visit_expr(a, s, e) matches Ok((s2, _)) && spec_as_map(s2.map) == spec_as_map(s.map).remove(id)
            && s2.diverging == s.diverging && s2.breaking == s.breaking,
{
    lemma_remove(s.map, id);
}

/// Binding a fresh protected local and then moving it leaves the live set as it
/// was: a move undoes a binding.
pub proof fn law_move_undoes_binding(a: Seq<Attribute>, s: VisitorState, p: Pat, e: Expr)
    requires
        s.wf(),
        !s.diverging,
        !s.breaking,
        p.kind == PatKind::Ident(None),
        spec_mentions_protected(p.ty),
        !spec_has(s.map, p.id),
        e.kind == ExprKind::Path(Some(p.id)),
    ensures
        spec_visit_expr(a, spec_add_root(a, s, p).0, e) matches Ok((s2, _)) && spec_as_map(s2.map) == spec_as_map(s.map),
{
    let v = LiveVar { id: p.id, span: p.span, droppable: spec_can_drop(a, p.ty) };
    lemma_insert(s.map, v);
    let m1 = spec_insert(s.map, v);
    assert(spec_add_root(a, s, p).0.map == m1);
    assert(spec_as_map(m1).dom().contains(p.id));
    assert(spec_has(m1, p.id));
    lemma_remove(m1, p.id);
    assert(spec_as_map(s.map).insert(p.id, (p.span, v.droppable)).remove(p.id) =~= spec_as_map(s.map));
}

// ---------------------------------------------------------------- branches

/// An `if` without `else` whose branch neither diverges nor leaves its block,
/// and ends with other live locals than it started with, is reported.
pub proof fn law_lone_branch_must_keep_locals(a: Seq<Attribute>, s: VisitorState, e: Expr)
    requires
        !s.diverging,
        !s.breaking,
        e.kind matches ExprKind::If(_, then_block, None) && spec_visit_block_ok_linear_change(a, s, then_block),
    ensures
        spec_visit_expr(a, s, e) matches Ok((_, d)) && d.contains(error(e.span, Message::IfBranchNotLinear)),
{
    assert(spec_visit_expr(a, s, e) == crate::semantics::spec_visit_if(a, s, e));
    if let ExprKind::If(_, then_block, None) = e.kind {
        if let Ok((v, d1)) = crate::semantics::spec_visit_block(a, s, then_block) {
            let (su, du) = crate::semantics::spec_update_loopout(s, e.span, v.loopout);
            let dn = seq![error(e.span, Message::IfBranchNotLinear)];
            let d = d1 + du + dn;
            assert(d[d.len() - 1] == error(e.span, Message::IfBranchNotLinear));
            assert(crate::semantics::spec_visit_if(a, s, e) == Visit::Ok((su.with_map(v.map), d)));
        }
    }
}

/// An `if` without `else` whose branch returns or leaves its block goes on
/// from the state before the `if`, as the missing `else` branch would: the
/// live locals are those before the `if`, and what follows is reached.
pub proof fn law_missing_else_goes_on_from_the_start(a: Seq<Attribute>, s: VisitorState, e: Expr)
    requires
        !s.diverging,
        !s.breaking,
        e.kind matches ExprKind::If(_, then_block, None) && crate::semantics::spec_visit_block(a, s, then_block) matches Ok((v, _))
            && (v.diverging || v.breaking),
    ensures
        spec_visit_expr(a, s, e) matches Ok((s2, _)) && s2.map == s.map && !s2.diverging && !s2.breaking,
{
    assert(spec_visit_expr(a, s, e) == crate::semantics::spec_visit_if(a, s, e));
}

/// A loop body that runs to its end reports, as "dropped var" at its binding,
/// each live local that was not live at the loop head and that the function
/// may not drop: its scope ends with the iteration.
pub proof fn law_iteration_end_checks_new_locals(a: Seq<Attribute>, s: VisitorState, e: Expr, v: LiveVar)
    requires
        !s.diverging,
        !s.breaking,
        e.kind matches ExprKind::Loop(body) && crate::semantics::spec_visit_block(a, s.with_loopin(Some(s.map)), body)
            matches Ok((t, _)) && !t.diverging && !t.breaking && t.map.contains(v),
        !spec_has(s.map, v.id),
        !v.droppable,
    ensures
        spec_visit_expr(a, s, e) matches Ok((_, d)) && d.contains(error(v.span, Message::DroppedVar)),
{
    if let ExprKind::Loop(body) = e.kind {
        if let Ok((t, d1)) = crate::semantics::spec_visit_block(a, s.with_loopin(Some(s.map)), body) {
            crate::semantics::lemma_iteration_end_reports(t.map, s.map, v);
            let r = crate::semantics::spec_iteration_end(t.map, s.map);
            let k = choose|k: int| 0 <= k < r.len() && r[k] == error(v.span, Message::DroppedVar);
            assert((d1 + r)[d1.len() + k] == error(v.span, Message::DroppedVar));
        }
    }
}

/// Assigning to a local that is not tracked starts tracking it when its type
/// mentions a protected type, with the place of the assignment; otherwise
/// the tracked locals stay as they were.
pub proof fn law_assignment_tracks_only_protected(a: Seq<Attribute>, s: VisitorState, e: Expr)
    requires
        !s.diverging,
        !s.breaking,
        e.kind matches ExprKind::Assign(lhs, rhs) && lhs.kind matches ExprKind::Path(Some(id))
            && spec_visit_expr(a, s, *rhs) matches Ok((s1, _)) && !spec_has(s1.map, id),
    ensures
        e.kind matches ExprKind::Assign(lhs, rhs) && lhs.kind matches ExprKind::Path(Some(id))
            && spec_visit_expr(a, s, *rhs) matches Ok((s1, d1)) && spec_visit_expr(a, s, e) == Visit::Ok((
                s1.with_map(if spec_mentions_protected(lhs.ty) {
                    spec_insert(s1.map, LiveVar { id, span: e.span, droppable: spec_can_drop(a, lhs.ty) })
                } else {
                    s1.map
                }),
                d1,
            )),
{
}

/// The branch `b` completes normally from `s` and changes the live locals.
pub open spec fn spec_visit_block_ok_linear_change(a: Seq<Attribute>, s: VisitorState, b: Block) -> bool {
    crate::semantics::spec_visit_block(a, s, b) matches Ok((v, _)) && !v.diverging && !v.breaking
        && !crate::live::spec_same(v.map, s.map)
}

/// The two branches of an `if`, when neither diverges nor leaves its block,
/// must end with the same live locals, or the `if` is reported.
pub proof fn law_branches_must_agree(a: Seq<Attribute>, s: VisitorState, e: Expr)
    requires
        !s.diverging,
        !s.breaking,
        e.kind matches ExprKind::If(_, then_block, Some(els)) && ({
            &&& crate::semantics::spec_visit_block(a, s, then_block) matches Ok((v, _))
            &&& !v.diverging && !v.breaking
            &&& spec_visit_expr(a, crate::semantics::spec_update_loopout(s, e.span, v.loopout).0, *els) matches Ok((w, _))
            &&& !w.diverging && !w.breaking
            &&& !crate::live::spec_same(v.map, w.map)
        }),
    ensures
        spec_visit_expr(a, s, e) matches Ok((_, d)) && d.contains(error(e.span, Message::IfBranchesNotLinear)),
{
    assert(spec_visit_expr(a, s, e) == crate::semantics::spec_visit_if(a, s, e));
    if let ExprKind::If(_, then_block, Some(els)) = e.kind {
        if let Ok((v, d1)) = crate::semantics::spec_visit_block(a, s, then_block) {
            let (s1, du) = crate::semantics::spec_update_loopout(s, e.span, v.loopout);
            if let Ok((w, d3)) = spec_visit_expr(a, s1, *els) {
                let (s2, du2) = crate::semantics::spec_update_loopout(s1, e.span, w.loopout);
                let dn2 = seq![error(e.span, Message::IfBranchesNotLinear)];
                let d = d1 + du + d3 + du2 + dn2;
                assert(d[d.len() - 1] == error(e.span, Message::IfBranchesNotLinear));
                assert(crate::semantics::spec_visit_if(a, s, e) == crate::semantics::spec_join(s2, Some(w.with_breaking(false)), d));
            }
        }
    }
}

// ---------------------------------------------------------------- unmoved locals

/// A straight-line expression: paths, borrows, and other expressions (calls,
/// operators, literals, ...) built only of such parts.
pub open spec fn spec_straight_expr(e: Expr) -> bool
    decreases e, 1nat,
{
    match e.kind {
        ExprKind::Path(_) => true,
        ExprKind::AddrOf(inner) => spec_straight_expr(*inner),
        ExprKind::Other(es) => spec_straight_exprs(es@),
        _ => false,
    }
}

pub open spec fn spec_straight_exprs(es: Seq<Expr>) -> bool
    decreases es, 0nat,
{
    es.len() == 0 || (spec_straight_exprs(es.drop_last()) && spec_straight_expr(es.last()))
}

/// Whether evaluating the straight-line expression `e` moves the local `x`:
/// some path in it names `x` and is not directly borrowed.
pub open spec fn spec_moves(e: Expr, x: NodeId) -> bool
    decreases e, 1nat,
{
    match e.kind {
        ExprKind::Path(Some(id)) => id == x,
        ExprKind::AddrOf(inner) => match inner.kind {
            ExprKind::Path(_) => false,
            _ => spec_moves(*inner, x),
        },
        ExprKind::Other(es) => spec_any_moves(es@, x),
        _ => false,
    }
}

pub open spec fn spec_any_moves(es: Seq<Expr>, x: NodeId) -> bool
    decreases es, 0nat,
{
    es.len() > 0 && (spec_any_moves(es.drop_last(), x) || spec_moves(es.last(), x))
}

/// A straight-line statement: a plain `let` or an expression statement, whose
/// expressions are straight-line.
pub open spec fn spec_straight_stmt(st: Stmt) -> bool {
    match st.kind {
        StmtKind::Decl(Decl::Local(l)) => l.source == LocalSource::Normal && match l.init {
            Some(x) => spec_straight_expr(x),
            None => true,
        },
        StmtKind::Decl(Decl::Item(_)) => false,
        StmtKind::Expr(x) => spec_straight_expr(x),
        StmtKind::Semi(x) => spec_straight_expr(x),
    }
}

pub open spec fn spec_all_straight(ss: Seq<Stmt>) -> bool {
    forall|j: int| 0 <= j < ss.len() ==> #[trigger] spec_straight_stmt(ss[j])
}

/// Whether the statement `st` moves the local `x` or binds its id anew.
pub open spec fn spec_touches(st: Stmt, x: NodeId) -> bool {
    match st.kind {
        StmtKind::Decl(Decl::Local(l)) => spec_binds(l.pat, x) || match l.init {
            Some(e) => spec_moves(e, x),
            None => false,
        },
        StmtKind::Decl(Decl::Item(_)) => true,
        StmtKind::Expr(e) => spec_moves(e, x),
        StmtKind::Semi(e) => spec_moves(e, x),
    }
}

/// The pattern of a `let` statement.
pub open spec fn spec_let_pat(st: Stmt) -> Option<Pat> {
    match st.kind {
        StmtKind::Decl(Decl::Local(l)) => Some(l.pat),
        _ => None,
    }
}

/// From `s` to `s2` the control flags and loop records did not change, the
/// live set stayed a map, and, unless `touched`, the local `x` kept its entry.
pub open spec fn spec_keeps(s: VisitorState, s2: VisitorState, x: NodeId, touched: bool) -> bool {
    &&& s2.wf()
    &&& s2.diverging == s.diverging
    &&& s2.breaking == s.breaking
    &&& s2.loopin == s.loopin
    &&& s2.loopout == s.loopout
    &&& (!touched && spec_has(s.map, x)) ==> spec_has(s2.map, x) && spec_as_map(s2.map)[x] == spec_as_map(s.map)[x]
}

pub(crate) proof fn lemma_pat_keeps(a: Seq<Attribute>, rd: bool, s: VisitorState, p: Pat, x: NodeId)
    requires
        s.wf(),
    ensures
        spec_keeps(s, spec_add_pat(a, rd, s, p).0, x, spec_binds(p, x)),
    decreases p, 1nat,
{
    let (s1, _) = spec_pat_node(a, rd, s, p);
    if let PatKind::Ident(_) = p.kind {
        if spec_mentions_protected(p.ty) {
            lemma_insert(s.map, LiveVar { id: p.id, span: p.span, droppable: spec_can_drop(a, p.ty) });
        }
    }
    assert(spec_keeps(s, s1, x, spec_binds(p, x)));
    match p.kind {
        PatKind::Ident(Some(sub)) => {
            lemma_pat_keeps(a, rd, s1, *sub, x);
        },
        PatKind::Compound(ps) => {
            lemma_subpats_keep(a, rd, s1, ps@, x);
        },
        _ => {},
    }
}

proof fn lemma_subpats_keep(a: Seq<Attribute>, rd: bool, s: VisitorState, ps: Seq<Pat>, x: NodeId)
    requires
        s.wf(),
    ensures
        spec_keeps(s, spec_add_subpats(a, rd, s, ps).0, x, spec_any_binds(ps, x)),
    decreases ps, 0nat,
{
    if ps.len() > 0 {
        lemma_subpats_keep(a, rd, s, ps.drop_last(), x);
        let (s1, _) = spec_add_subpats(a, rd, s, ps.drop_last());
        lemma_pat_keeps(a, rd, s1, ps.last(), x);
    }
}

pub(crate) proof fn lemma_roots_keep(a: Seq<Attribute>, s: VisitorState, ps: Seq<Pat>, x: NodeId)
    requires
        s.wf(),
    ensures
        spec_keeps(s, spec_add_roots(a, s, ps).0, x, spec_any_binds(ps, x)),
    decreases ps.len(),
{
    if ps.len() > 0 {
        lemma_roots_keep(a, s, ps.drop_last(), x);
        let (s1, _) = spec_add_roots(a, s, ps.drop_last());
        lemma_pat_keeps(a, spec_can_drop(a, ps.last().ty), s1, ps.last(), x);
    }
}

proof fn lemma_straight_expr(a: Seq<Attribute>, s: VisitorState, e: Expr, x: NodeId)
    requires
        s.wf(),
        spec_straight_expr(e),
    ensures
        spec_visit_expr(a, s, e) matches Ok((s2, _)) && spec_keeps(s, s2, x, spec_moves(e, x)),
    decreases e, 1nat,
{
    if !(s.diverging || s.breaking) {
        match e.kind {
            ExprKind::Path(Some(id)) => {
                if spec_has(s.map, id) {
                    lemma_remove(s.map, id);
                }
            },
            ExprKind::AddrOf(inner) => {
                if !(inner.kind is Path) {
                    lemma_straight_expr(a, s, *inner, x);
                }
            },
            ExprKind::Other(es) => {
                assert(spec_visit_expr(a, s, e) == spec_walk_expr(a, s, e));
                assert(spec_walk_expr(a, s, e) == spec_visit_exprs(a, s, es@));
                lemma_straight_exprs(a, s, es@, x);
            },
            _ => {},
        }
    }
}

proof fn lemma_straight_exprs(a: Seq<Attribute>, s: VisitorState, es: Seq<Expr>, x: NodeId)
    requires
        s.wf(),
        spec_straight_exprs(es),
    ensures
        spec_visit_exprs(a, s, es) matches Ok((s2, _)) && spec_keeps(s, s2, x, spec_any_moves(es, x)),
    decreases es, 0nat,
{
    if es.len() > 0 {
        lemma_straight_exprs(a, s, es.drop_last(), x);
        let (s1, _) = spec_visit_exprs(a, s, es.drop_last())->Ok_0;
        lemma_straight_expr(a, s1, es.last(), x);
    }
}

proof fn lemma_straight_stmt(a: Seq<Attribute>, s: VisitorState, st: Stmt, x: NodeId)
    requires
        s.wf(),
        spec_straight_stmt(st),
    ensures
        spec_visit_stmt(a, s, st) matches Ok((s2, _)) && spec_keeps(s, s2, x, spec_touches(st, x)),
{
    if !s.diverging {
        match st.kind {
            StmtKind::Decl(d) => {
                if let Decl::Local(l) = d {
                    let s1 = match l.init {
                        Some(e) => {
                            lemma_straight_expr(a, s, e, x);
                            spec_visit_expr(a, s, e)->Ok_0.0
                        },
                        None => s,
                    };
                    lemma_pat_keeps(a, spec_can_drop(a, l.pat.ty), s1, l.pat, x);
                    assert(spec_visit_stmt(a, s, st) == spec_visit_decl(a, s, d));
                }
            },
            StmtKind::Expr(e) => {
                lemma_straight_expr(a, s, e, x);
            },
            StmtKind::Semi(e) => {
                lemma_straight_expr(a, s, e, x);
            },
        }
    }
}

proof fn lemma_straight_stmts(a: Seq<Attribute>, s: VisitorState, ss: Seq<Stmt>, x: NodeId)
    requires
        s.wf(),
        spec_all_straight(ss),
    ensures
        spec_visit_stmts(a, s, ss) matches Ok((s2, _)) && s2.wf() && s2.diverging == s.diverging && s2.breaking
            == s.breaking,
    decreases ss.len(),
{
    if ss.len() > 0 {
        assert(spec_all_straight(ss.drop_last()));
        lemma_straight_stmts(a, s, ss.drop_last(), x);
        let (s1, _) = spec_visit_stmts(a, s, ss.drop_last())->Ok_0;
        assert(spec_straight_stmt(ss[ss.len() - 1]));
        lemma_straight_stmt(a, s1, ss.last(), x);
    }
}

/// After the statements `ss`, where statement `k` binds the protected local
/// `p` and no later statement moves or rebinds it, `p` is live with its entry.
proof fn lemma_binding_survives(a: Seq<Attribute>, s: VisitorState, ss: Seq<Stmt>, k: int, p: Pat)
    requires
        s.wf(),
        !s.diverging,
        !s.breaking,
        spec_all_straight(ss),
        0 <= k < ss.len(),
        spec_let_pat(ss[k]) == Some(p),
        p.kind == PatKind::Ident(None),
        spec_mentions_protected(p.ty),
        forall|j: int| k < j < ss.len() ==> !spec_touches(#[trigger] ss[j], p.id),
    ensures
        spec_visit_stmts(a, s, ss) matches Ok((s2, _)) && !s2.diverging && s2.wf()
            && spec_tracks(s2.map, p.id, (p.span, spec_can_drop(a, p.ty))),
    decreases ss.len(),
{
    let init = ss.drop_last();
    assert(spec_all_straight(init));
    assert(spec_straight_stmt(ss[ss.len() - 1]));
    if k == ss.len() - 1 {
        lemma_straight_stmts(a, s, init, p.id);
        let (s1, _) = spec_visit_stmts(a, s, init)->Ok_0;
        let st = ss.last();
        if let StmtKind::Decl(Decl::Local(l)) = st.kind {
            let s2 = match l.init {
                Some(e) => {
                    lemma_straight_expr(a, s1, e, p.id);
                    spec_visit_expr(a, s1, e)->Ok_0.0
                },
                None => s1,
            };
            let v = LiveVar { id: p.id, span: p.span, droppable: spec_can_drop(a, p.ty) };
            lemma_insert(s2.map, v);
            assert(spec_add_root(a, s2, p).0.map == spec_insert(s2.map, v));
            assert(spec_visit_stmt(a, s1, st) == spec_visit_decl(a, s1, Decl::Local(l)));
        }
    } else {
        assert forall|j: int| k < j < init.len() implies !spec_touches(#[trigger] init[j], p.id) by {
            assert(init[j] == ss[j]);
        }
        lemma_binding_survives(a, s, init, k, p);
        let (s1, _) = spec_visit_stmts(a, s, init)->Ok_0;
        assert(!spec_touches(ss[ss.len() - 1], p.id));
        lemma_straight_stmt(a, s1, ss.last(), p.id);
    }
}

/// Each local must be moved before its scope ends: in a function whose body
/// is straight-line code (no branch, loop, jump or assignment), a protected
/// local bound by a `let` and never moved or rebound afterwards is reported as
/// "dropped var" at its binding, unless the function may drop its type.
pub proof fn law_unmoved_local_is_reported(f: FnItem, k: int, p: Pat)
    requires
        spec_all_straight(f.body.stmts@),
        0 <= k < f.body.stmts@.len(),
        spec_let_pat(f.body.stmts@[k]) == Some(p),
        p.kind == PatKind::Ident(None),
        spec_mentions_protected(p.ty),
        !spec_can_drop(f.attrs@, p.ty),
        forall|j: int| k < j < f.body.stmts@.len() ==> !spec_touches(#[trigger] f.body.stmts@[j], p.id),
        match f.body.expr {
            Some(e) => spec_straight_expr(*e) && !spec_moves(*e, p.id),
            None => true,
        },
    ensures
        spec_check_fn(f) matches Ok(d) && d.contains(error(p.span, Message::DroppedVar)),
{
    let a = f.attrs@;
    lemma_roots_keep(a, spec_initial(), f.params@, p.id);
    let (s1, d1) = spec_add_roots(a, spec_initial(), f.params@);
    lemma_binding_survives(a, s1, f.body.stmts@, k, p);
    let (s2, d2) = spec_visit_stmts(a, s1, f.body.stmts@)->Ok_0;
    let s3 = match f.body.expr {
        Some(e) => {
            lemma_straight_expr(a, s2, *e, p.id);
            spec_visit_expr(a, s2, *e)->Ok_0.0
        },
        None => s2,
    };
    assert(spec_walk_block(a, s1, f.body) matches Ok((s, _)) && s == s3);
    let (s4, d4) = spec_walk_fn(f)->Ok_0;
    assert(s4 == s3);
    lemma_tracked_entry(s3.map, p.id);
    law_end_of_body_checks_live_locals(f, s4, d4);
}

// ---------------------------------------------------------------- discards

/// A wildcard pattern that discards a value of a type mentioning a protected
/// type is reported, unless the function may drop the whole pattern's type.
pub proof fn law_wildcard_discard_is_reported(a: Seq<Attribute>, s: VisitorState, p: Pat)
    requires
        p.kind == PatKind::Wild,
        spec_mentions_protected(p.ty),
        !spec_can_drop(a, p.ty),
    ensures
        spec_add_root(a, s, p).1 == seq![error(p.span, Message::ProtectedTypeDropped)],
{
    assert(spec_add_root(a, s, p).1 =~= seq![error(p.span, Message::ProtectedTypeDropped)]);
}

/// A reachable statement `e;` that throws away a protected value is reported
/// (before what visiting `e` reports).
pub proof fn law_unused_protected_value_is_reported(a: Seq<Attribute>, s: VisitorState, st: Stmt)
    requires
        !s.diverging,
        st.kind matches StmtKind::Semi(x) && x.ty.protected,
    ensures
        spec_visit_stmt(a, s, st) matches Ok((_, d)) ==> d.len() > 0 && d[0] == error(st.span, Message::ProtectedValueUnused),
{
}

/// Assigning to a local that is still tracked is reported.
pub proof fn law_overwrite_is_reported(a: Seq<Attribute>, s: VisitorState, e: Expr)
    requires
        !s.diverging,
        !s.breaking,
        e.kind matches ExprKind::Assign(lhs, rhs) && lhs.kind matches ExprKind::Path(Some(id)) && ({
            &&& spec_visit_expr(a, s, *rhs) matches Ok((s1, _))
            &&& spec_has(s1.map, id)
        }),
    ensures
        spec_visit_expr(a, s, e) matches Ok((_, d)) && d.len() > 0 && d.last().message == Message::CannotOverwrite,
{
}

/// A `break` that leaves a loop with other live locals than an earlier exit
/// of that loop is reported.
pub proof fn law_breaks_must_agree(a: Seq<Attribute>, s: VisitorState, e: Expr)
    requires
        !s.diverging,
        !s.breaking,
        e.kind == ExprKind::Break(None),
        s.loopout matches Some(out) && !crate::live::spec_same(s.map, out),
    ensures
        spec_visit_expr(a, s, e) == Visit::Ok((s.with_breaking(true), seq![error(e.span, Message::DivergingBreak)])),
{
}

/// A `continue` that reaches the loop head with other live locals than the
/// loop started with is reported.
pub proof fn law_continues_must_agree(a: Seq<Attribute>, s: VisitorState, e: Expr)
    requires
        !s.diverging,
        !s.breaking,
        e.kind == ExprKind::Again(None),
        s.loopin matches Some(inc) && !crate::live::spec_same(s.map, inc),
    ensures
        spec_visit_expr(a, s, e) == Visit::Ok((s.with_breaking(true), seq![error(e.span, Message::DivergingContinue)])),
{
}

/// The two arms of a two-armed `match` (other than a `for` loop expansion),
/// when neither diverges, must end with the same live locals, or the `match`
/// is reported.
pub proof fn law_two_arms_must_agree(a: Seq<Attribute>, s: VisitorState, e: Expr)
    requires
        !s.diverging,
        !s.breaking,
        e.kind matches ExprKind::Match(scrutinee, arms, _) && arms@.len() == 2 && !crate::semantics::spec_is_for_expansion(arms@) && ({
            &&& spec_visit_expr(a, s, *scrutinee) matches Ok((s1, _))
            &&& crate::semantics::spec_visit_arm(a, s1, arms@[0]) matches Ok((v, _))
            &&& !v.diverging
            &&& crate::semantics::spec_visit_arm(a, crate::semantics::spec_update_loopout(s1, e.span, v.loopout).0, arms@[1]) matches Ok((w, _))
            &&& !w.diverging
            &&& !crate::live::spec_same(v.map, w.map)
        }),
    ensures
        spec_visit_expr(a, s, e) matches Ok((_, d)) && d.contains(error(e.span, Message::MatchArmsNotLinear)),
{
    assert(spec_visit_expr(a, s, e) == crate::semantics::spec_visit_match(a, s, e));
    if let ExprKind::Match(scrutinee, arms, _) = e.kind {
        if let Ok((s1, d1)) = spec_visit_expr(a, s, *scrutinee) {
            let aa = arms@;
            assert(aa.drop_last().drop_last() =~= Seq::<crate::ast::Arm>::empty());
            assert(aa.drop_last().last() == aa[0]);
            assert(aa.last() == aa[1]);
            let r0 = crate::semantics::spec_branch_arms(a, s1, e.span, aa.drop_last());
            assert(crate::semantics::spec_branch_arms(a, s1, e.span, aa.drop_last().drop_last()) == Ok::<(VisitorState, Option<VisitorState>, Seq<LiveVar>, Seq<Diagnostic>), crate::diag::Unsupported>((s1, None, seq![], seq![])));
            if let Ok((v, dv)) = crate::semantics::spec_visit_arm(a, s1, aa[0]) {
                let (s2, du) = crate::semantics::spec_update_loopout(s1, e.span, v.loopout);
                assert(r0 == Ok::<(VisitorState, Option<VisitorState>, Seq<LiveVar>, Seq<Diagnostic>), crate::diag::Unsupported>((s2, Some(v), v.map, seq![] + dv + du)));
                if let Ok((w, dw)) = crate::semantics::spec_visit_arm(a, s2, aa[1]) {
                    let (s3, du2) = crate::semantics::spec_update_loopout(s2, e.span, w.loopout);
                    let dd = seq![] + dv + du + dw + du2 + seq![error(e.span, Message::MatchArmsNotLinear)];
                    assert(dd[dd.len() - 1] == error(e.span, Message::MatchArmsNotLinear));
                    if let Ok((_, d)) = spec_visit_expr(a, s, e) {
                        let w2 = if !v.breaking { w.with_breaking(false) } else { w };
                        let tail = crate::semantics::spec_escape_reports(w2.map, s1.map, aa, e.span);
                        assert(d == d1 + dd + tail);
                        assert(d[d1.len() + dd.len() - 1] == error(e.span, Message::MatchArmsNotLinear));
                    }
                }
            }
        }
    }
}

/// A `for` loop whose body, when it breaks, leaves other live locals than
/// when it runs to its end is reported.
pub proof fn law_for_loop_exits_must_agree(a: Seq<Attribute>, s: VisitorState, e: Expr)
    requires
        !s.diverging,
        !s.breaking,
        e.kind matches ExprKind::Match(scrutinee, arms, _) && crate::semantics::spec_is_for_expansion(arms@) && ({
            &&& spec_visit_expr(a, s, *scrutinee) matches Ok((s1, _))
            &&& crate::semantics::spec_visit_block(a, s1, crate::semantics::spec_for_block(arms@)) matches Ok((t, _))
            &&& !t.diverging
            &&& t.loopout matches Some(hm) && !crate::live::spec_same(t.map, hm)
        }),
    ensures
        spec_visit_expr(a, s, e) matches Ok((_, d)) && d.last() == error(e.span, Message::NonLinearForLoop),
{
    assert(spec_visit_expr(a, s, e) == crate::semantics::spec_visit_match(a, s, e));
}

// ---------------------------------------------------------------- borrows

/// Borrowing a plain path changes nothing and reports nothing; borrowing any
/// other expression does to the live locals, and reports, exactly what
/// evaluating that expression does (a local moved inside `&e` is moved).
pub proof fn law_borrow_evaluates_its_operand(a: Seq<Attribute>, s: VisitorState, e: Expr)
    requires
        e.kind is AddrOf,
    ensures
        match e.kind {
            ExprKind::AddrOf(inner) => if inner.kind is Path {
                spec_visit_expr(a, s, e) == Visit::Ok((s, seq![]))
            } else {
                spec_visit_expr(a, s, e) == spec_visit_expr(a, s, *inner)
            },
            _ => true,
        },
{
    if let ExprKind::AddrOf(inner) = e.kind {
        if s.diverging || s.breaking {
            assert(spec_visit_expr(a, s, *inner) == Visit::Ok((s, seq![])));
        }
    }
}

// ---------------------------------------------------------------- wildcards at any depth

/// Whether `q` is `p` or one of its sub-patterns, at any depth.
pub open spec fn spec_occurs(q: Pat, p: Pat) -> bool
    decreases p, 1nat,
{
    p == q || match p.kind {
        PatKind::Ident(Some(sub)) => spec_occurs(q, *sub),
        PatKind::Compound(ps) => spec_occurs_in(q, ps@),
        _ => false,
    }
}

/// Whether `q` is one of `ps` or one of their sub-patterns.
pub open spec fn spec_occurs_in(q: Pat, ps: Seq<Pat>) -> bool
    decreases ps, 0nat,
{
    ps.len() > 0 && (spec_occurs_in(q, ps.drop_last()) || spec_occurs(q, ps.last()))
}

proof fn lemma_wild_reported(a: Seq<Attribute>, rd: bool, s: VisitorState, p: Pat, q: Pat)
    requires
        spec_occurs(q, p),
        q.kind == PatKind::Wild,
        spec_mentions_protected(q.ty),
        !rd,
    ensures
        spec_add_pat(a, rd, s, p).1.contains(error(q.span, Message::ProtectedTypeDropped)),
    decreases p, 1nat,
{
    let err = error(q.span, Message::ProtectedTypeDropped);
    let (s1, d1) = spec_pat_node(a, rd, s, p);
    if p == q {
        assert(d1 == seq![err]);
        assert(d1[0] == err);
    } else {
        match p.kind {
            PatKind::Ident(Some(sub)) => {
                lemma_wild_reported(a, rd, s1, *sub, q);
                crate::unmoved::lemma_contains_concat(d1, spec_add_pat(a, rd, s1, *sub).1, err);
            },
            PatKind::Compound(ps) => {
                lemma_subpats_wild_reported(a, rd, s1, ps@, q);
                crate::unmoved::lemma_contains_concat(d1, spec_add_subpats(a, rd, s1, ps@).1, err);
            },
            _ => {},
        }
    }
}

proof fn lemma_subpats_wild_reported(a: Seq<Attribute>, rd: bool, s: VisitorState, ps: Seq<Pat>, q: Pat)
    requires
        spec_occurs_in(q, ps),
        q.kind == PatKind::Wild,
        spec_mentions_protected(q.ty),
        !rd,
    ensures
        spec_add_subpats(a, rd, s, ps).1.contains(error(q.span, Message::ProtectedTypeDropped)),
    decreases ps, 0nat,
{
    let err = error(q.span, Message::ProtectedTypeDropped);
    let init = ps.drop_last();
    let (s1, d1) = spec_add_subpats(a, rd, s, init);
    let d2 = spec_add_pat(a, rd, s1, ps.last()).1;
    if spec_occurs_in(q, init) {
        lemma_subpats_wild_reported(a, rd, s, init, q);
        crate::unmoved::lemma_contains_concat(d1, d2, err);
    } else {
        lemma_wild_reported(a, rd, s1, ps.last(), q);
        crate::unmoved::lemma_contains_concat(d1, d2, err);
    }
}

/// A wildcard anywhere in a pattern, at any depth, whose type mentions a
/// protected type is reported as "Protected type is dropped" at the
/// wildcard, unless the function may drop the type of the whole pattern.
pub proof fn law_nested_wildcard_is_reported(a: Seq<Attribute>, s: VisitorState, p: Pat, q: Pat)
    requires
        spec_occurs(q, p),
        q.kind == PatKind::Wild,
        spec_mentions_protected(q.ty),
        !spec_can_drop(a, p.ty),
    ensures
        spec_add_root(a, s, p).1.contains(error(q.span, Message::ProtectedTypeDropped)),
{
    lemma_wild_reported(a, spec_can_drop(a, p.ty), s, p, q);
}

// ---------------------------------------------------------------- leaving a block after branches

/// After an `if` that control reaches, what follows is left by `break` or
/// `continue` exactly when each branch that does not diverge leaves its
/// block and not both diverge (a missing `else` is a branch that goes on);
/// control stops exactly when both branches diverge.
pub proof fn law_if_leaves_only_if_every_branch_leaves(a: Seq<Attribute>, s: VisitorState, e: Expr)
    requires
        !s.diverging,
        !s.breaking,
        e.kind is If,
    ensures
        match e.kind {
            ExprKind::If(_, then_block, els) => match crate::semantics::spec_visit_block(a, s, then_block) {
                Ok((v, _)) => match els {
                    None => spec_visit_expr(a, s, e) matches Ok((s2, _)) && !s2.breaking && !s2.diverging,
                    Some(x) => match spec_visit_expr(
                        a,
                        if !v.diverging { crate::semantics::spec_update_loopout(s, e.span, v.loopout).0 } else { s },
                        *x,
                    ) {
                        Ok((w, _)) => spec_visit_expr(a, s, e) matches Ok((s2, _))
                            && (s2.breaking <==> ((v.diverging || v.breaking) && (w.diverging || w.breaking)
                                && !(v.diverging && w.diverging)))
                            && (s2.diverging <==> (v.diverging && w.diverging)),
                        Err(_) => true,
                    },
                },
                Err(_) => true,
            },
            _ => true,
        },
{
    assert(spec_visit_expr(a, s, e) == crate::semantics::spec_visit_if(a, s, e));
}

/// The outcome of the arm at position `k` of a branching `match`, visited in
/// turn: from the state that the arms before it leave.
pub open spec fn spec_arm_result(a: Seq<Attribute>, s: VisitorState, span: crate::ast::Span, arms: Seq<crate::ast::Arm>, k: int) -> Visit {
    match crate::semantics::spec_branch_arms(a, s, span, arms.take(k)) {
        Ok((sk, _, _, _)) => crate::semantics::spec_visit_arm(a, sk, arms[k]),
        Err(u) => Err(u),
    }
}

/// Every arm among the first `n` of `arms`, visited in turn, leaves its
/// block or diverges.
pub open spec fn spec_arms_leave(a: Seq<Attribute>, s: VisitorState, span: crate::ast::Span, arms: Seq<crate::ast::Arm>, n: int) -> bool {
    forall|k: int| 0 <= k < n ==> (#[trigger] spec_arm_result(a, s, span, arms, k) matches Ok((v, _)) ==> v.diverging || v.breaking)
}

/// Every arm among the first `n` of `arms`, visited in turn, diverges.
pub open spec fn spec_arms_diverge(a: Seq<Attribute>, s: VisitorState, span: crate::ast::Span, arms: Seq<crate::ast::Arm>, n: int) -> bool {
    forall|k: int| 0 <= k < n ==> (#[trigger] spec_arm_result(a, s, span, arms, k) matches Ok((v, _)) ==> v.diverging)
}

proof fn lemma_arm_prefix(a: Seq<Attribute>, s: VisitorState, span: crate::ast::Span, arms: Seq<crate::ast::Arm>)
    requires
        arms.len() > 0,
    ensures
        forall|k: int| 0 <= k < arms.len() - 1 ==> #[trigger] spec_arm_result(a, s, span, arms, k)
            == spec_arm_result(a, s, span, arms.drop_last(), k),
        spec_arms_leave(a, s, span, arms, arms.len() - 1) == spec_arms_leave(a, s, span, arms.drop_last(), arms.len() - 1),
        spec_arms_diverge(a, s, span, arms, arms.len() - 1) == spec_arms_diverge(a, s, span, arms.drop_last(), arms.len() - 1),
{
    let init = arms.drop_last();
    assert forall|k: int| 0 <= k < arms.len() - 1 implies #[trigger] spec_arm_result(a, s, span, arms, k)
        == spec_arm_result(a, s, span, init, k) by {
        assert(arms.take(k) =~= init.take(k));
        assert(arms[k] == init[k]);
    }
    let n = arms.len() - 1;
    if spec_arms_leave(a, s, span, arms, n) {
        assert forall|k: int| 0 <= k < n implies (#[trigger] spec_arm_result(a, s, span, init, k) matches Ok((v, _))
            ==> v.diverging || v.breaking) by {
            assert(spec_arm_result(a, s, span, arms, k) == spec_arm_result(a, s, span, init, k));
        }
    }
    if spec_arms_leave(a, s, span, init, n) {
        assert forall|k: int| 0 <= k < n implies (#[trigger] spec_arm_result(a, s, span, arms, k) matches Ok((v, _))
            ==> v.diverging || v.breaking) by {
            assert(spec_arm_result(a, s, span, arms, k) == spec_arm_result(a, s, span, init, k));
        }
    }
    if spec_arms_diverge(a, s, span, arms, n) {
        assert forall|k: int| 0 <= k < n implies (#[trigger] spec_arm_result(a, s, span, init, k) matches Ok((v, _))
            ==> v.diverging) by {
            assert(spec_arm_result(a, s, span, arms, k) == spec_arm_result(a, s, span, init, k));
        }
    }
    if spec_arms_diverge(a, s, span, init, n) {
        assert forall|k: int| 0 <= k < n implies (#[trigger] spec_arm_result(a, s, span, arms, k) matches Ok((v, _))
            ==> v.diverging) by {
            assert(spec_arm_result(a, s, span, arms, k) == spec_arm_result(a, s, span, init, k));
        }
    }
}

proof fn lemma_arms_split(a: Seq<Attribute>, s: VisitorState, span: crate::ast::Span, arms: Seq<crate::ast::Arm>, n: int)
    requires
        n >= 1,
    ensures
        spec_arms_leave(a, s, span, arms, n) == (spec_arms_leave(a, s, span, arms, n - 1)
            && (spec_arm_result(a, s, span, arms, n - 1) matches Ok((v, _)) ==> v.diverging || v.breaking)),
        spec_arms_diverge(a, s, span, arms, n) == (spec_arms_diverge(a, s, span, arms, n - 1)
            && (spec_arm_result(a, s, span, arms, n - 1) matches Ok((v, _)) ==> v.diverging)),
{
    if spec_arms_leave(a, s, span, arms, n - 1) && (spec_arm_result(a, s, span, arms, n - 1) matches Ok((v, _)) ==> v.diverging || v.breaking) {
        assert forall|k: int| 0 <= k < n implies (#[trigger] spec_arm_result(a, s, span, arms, k) matches Ok((v, _)) ==> v.diverging || v.breaking) by {
            if k < n - 1 {
                assert(spec_arm_result(a, s, span, arms, k) matches Ok((v, _)) ==> v.diverging || v.breaking);
            }
        }
    }
    if spec_arms_diverge(a, s, span, arms, n - 1) && (spec_arm_result(a, s, span, arms, n - 1) matches Ok((v, _)) ==> v.diverging) {
        assert forall|k: int| 0 <= k < n implies (#[trigger] spec_arm_result(a, s, span, arms, k) matches Ok((v, _)) ==> v.diverging) by {
            if k < n - 1 {
                assert(spec_arm_result(a, s, span, arms, k) matches Ok((v, _)) ==> v.diverging);
            }
        }
    }
}

#[verifier::rlimit(30)]
proof fn lemma_arms_leave(a: Seq<Attribute>, s: VisitorState, span: crate::ast::Span, arms: Seq<crate::ast::Arm>)
    ensures
        crate::semantics::spec_branch_arms(a, s, span, arms) matches Ok((_, last, _, _)) ==> {
            &&& (last is None <==> spec_arms_diverge(a, s, span, arms, arms.len() as int))
            &&& (last matches Some(o) ==> (o.breaking <==> spec_arms_leave(a, s, span, arms, arms.len() as int)))
        },
    decreases arms.len(),
{
    if arms.len() > 0 {
        let init = arms.drop_last();
        let n = arms.len() - 1;
        lemma_arms_leave(a, s, span, init);
        lemma_arm_prefix(a, s, span, arms);
        lemma_arms_split(a, s, span, arms, arms.len() as int);
        assert(arms.take(n) =~= init);
        if let Ok((s1, last, c1, d1)) = crate::semantics::spec_branch_arms(a, s, span, init) {
            assert(spec_arm_result(a, s, span, arms, n) == crate::semantics::spec_visit_arm(a, s1, arms.last()));
            if last is None {
                assert(spec_arms_diverge(a, s, span, init, n));
                assert forall|k: int| 0 <= k < n implies (#[trigger] spec_arm_result(a, s, span, init, k) matches Ok((v, _))
                    ==> v.diverging || v.breaking) by {
                    assert(spec_arm_result(a, s, span, init, k) matches Ok((v, _)) ==> v.diverging);
                }
                assert(spec_arms_leave(a, s, span, init, n));
            }
        }
    } else {
        assert(spec_arms_diverge(a, s, span, arms, 0));
    }
}

/// After a branching `match` (not a `for` loop expansion) that control
/// reaches and that does not stop control, what follows is left by `break`
/// or `continue` exactly when every arm that does not diverge leaves its
/// block: if one arm goes on, so does the code after the `match`.
pub proof fn law_match_leaves_only_if_every_arm_leaves(a: Seq<Attribute>, s: VisitorState, e: Expr)
    requires
        !s.diverging,
        !s.breaking,
        e.kind matches ExprKind::Match(_, arms, _) && !crate::semantics::spec_is_for_expansion(arms@),
    ensures
        match e.kind {
            ExprKind::Match(scrutinee, arms, _) => match spec_visit_expr(a, s, *scrutinee) {
                Ok((s1, _)) => match spec_visit_expr(a, s, e) {
                    Ok((s2, _)) => !s2.diverging ==> (s2.breaking <==> spec_arms_leave(a, s1, e.span, arms@, arms@.len() as int)),
                    Err(_) => true,
                },
                Err(_) => true,
            },
            _ => true,
        },
{
    assert(spec_visit_expr(a, s, e) == crate::semantics::spec_visit_match(a, s, e));
    if let ExprKind::Match(scrutinee, arms, _) = e.kind {
        if let Ok((s1, _)) = spec_visit_expr(a, s, *scrutinee) {
            lemma_arms_leave(a, s1, e.span, arms@);
        }
    }
}

} // verus!


