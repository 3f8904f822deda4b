//! Each protected local must be moved before its scope ends. Whatever the
//! control flow after its binding (branches, loops, jumps, returns), a
//! tracked local that the rest of the function never moves (borrowing it is
//! no move) is reported as
//! "dropped var" at its binding: where a `return` leaves the function, or
//! where control reaches the end of the body.
use vstd::prelude::*;
use crate::ast::{Arm, Attribute, Block, Decl, Expr, ExprKind, FnItem, LocalSource, NodeId, Pat, PatKind, Stmt, StmtKind};
use crate::diag::{error, Diagnostic, Message};
use crate::live::{
    lemma_insert, lemma_pos_unique, lemma_remove, spec_as_map, spec_has, spec_insert, spec_remove,
    spec_unique, LiveVar,
};
use crate::semantics::{
    lemma_common, lemma_carried, lemma_kept_locals, prepend, spec_add_root, spec_add_roots,
    spec_any_binds, spec_arms_bind, spec_binds, spec_branch_arms, spec_check_fn, spec_dropped,
    spec_for_block, spec_initial, spec_is_for_expansion, spec_update_loopout,
    spec_visit_arm, spec_visit_block, spec_visit_blocks, spec_visit_decl, spec_visit_expr,
    spec_visit_exprs, spec_visit_if, spec_visit_match, spec_visit_stmt, spec_visit_stmts,
    spec_walk_arms, spec_walk_block, spec_walk_expr, spec_walk_fn, Visit, VisitorState,
};
use crate::ty::{spec_can_drop, spec_mentions_protected};

verus! {

// ---------------------------------------------------------------- code that never moves a local

/// The expression never moves the local `x`: no path resolves to it but
/// directly under a borrow `&`, nothing assigns to it, and no pattern binds it
/// anew; and every `match` in it has an arm.
pub open spec fn spec_unmoved_expr(e: Expr, x: NodeId) -> bool
    decreases e, 1nat,
{
    match e.kind {
        ExprKind::Path(p) => p != Some(x),
        ExprKind::Assign(lhs, rhs) => spec_unmoved_expr(*lhs, x) && spec_unmoved_expr(*rhs, x),
        ExprKind::AddrOf(inner) => match inner.kind {
            ExprKind::Path(_) => true,
            _ => spec_unmoved_expr(*inner, x),
        },
        ExprKind::If(cond, b, els) => spec_unmoved_expr(*cond, x) && spec_unmoved_block(b, x) && match els {
            Some(y) => spec_unmoved_expr(*y, x),
            None => true,
        },
        ExprKind::Match(scrutinee, arms, _) => spec_unmoved_expr(*scrutinee, x) && arms@.len() > 0
            && spec_unmoved_arms(arms@, x),
        ExprKind::Loop(b) => spec_unmoved_block(b, x),
        ExprKind::While(cond, b) => spec_unmoved_expr(*cond, x) && spec_unmoved_block(b, x),
        ExprKind::Ret(r) => match r {
            Some(y) => spec_unmoved_expr(*y, x),
            None => true,
        },
        ExprKind::Break(_) => true,
        ExprKind::Again(_) => true,
        ExprKind::Block(b) => spec_unmoved_block(b, x),
        ExprKind::Other(es) => spec_unmoved_exprs(es@, x),
    }
}

/// The expression is not a borrow of `x`. Where the check walks only the
/// parts of an expression (an arm's body, a block's trailing value), the path
/// under a borrow is visited as an expression of its own, which moves it.
pub open spec fn spec_walk_safe(e: Expr, x: NodeId) -> bool {
    match e.kind {
        ExprKind::AddrOf(inner) => match inner.kind {
            ExprKind::Path(p) => p != Some(x),
            _ => true,
        },
        _ => true,
    }
}

pub open spec fn spec_unmoved_exprs(es: Seq<Expr>, x: NodeId) -> bool
    decreases es, 0nat,
{
    es.len() == 0 || (spec_unmoved_exprs(es.drop_last(), x) && spec_unmoved_expr(es.last(), x))
}

pub open spec fn spec_unmoved_arm(arm: Arm, x: NodeId) -> bool
    decreases arm, 0nat,
{
    !spec_any_binds(arm.pats@, x) && spec_unmoved_expr(arm.body, x) && spec_walk_safe(arm.body, x) && match arm.guard {
        Some(g) => spec_unmoved_expr(g, x),
        None => true,
    }
}

pub open spec fn spec_unmoved_arms(arms: Seq<Arm>, x: NodeId) -> bool
    decreases arms, 0nat,
{
    arms.len() == 0 || (spec_unmoved_arms(arms.drop_last(), x) && spec_unmoved_arm(arms.last(), x))
}

pub open spec fn spec_unmoved_block(b: Block, x: NodeId) -> bool
    decreases b, 0nat,
{
    spec_unmoved_stmts(b.stmts@, x) && match b.expr {
        Some(y) => spec_unmoved_expr(*y, x) && spec_walk_safe(*y, x),
        None => true,
    }
}

pub open spec fn spec_unmoved_blocks(bs: Seq<Block>, x: NodeId) -> bool
    decreases bs, 0nat,
{
    bs.len() == 0 || (spec_unmoved_blocks(bs.drop_last(), x) && spec_unmoved_block(bs.last(), x))
}

pub open spec fn spec_unmoved_stmt(st: Stmt, x: NodeId) -> bool
    decreases st, 0nat,
{
    match st.kind {
        StmtKind::Decl(Decl::Local(l)) => !spec_binds(l.pat, x) && match l.init {
            Some(y) => spec_unmoved_expr(y, x),
            None => true,
        },
        StmtKind::Decl(Decl::Item(bodies)) => spec_unmoved_blocks(bodies@, x),
        StmtKind::Expr(y) => spec_unmoved_expr(y, x),
        StmtKind::Semi(y) => spec_unmoved_expr(y, x),
    }
}

pub open spec fn spec_unmoved_stmts(ss: Seq<Stmt>, x: NodeId) -> bool
    decreases ss, 0nat,
{
    ss.len() == 0 || (spec_unmoved_stmts(ss.drop_last(), x) && spec_unmoved_stmt(ss.last(), x))
}

// ---------------------------------------------------------------- a live local

/// `s` tracks the entry `v`, also in a recorded loop exit, and its maps have
/// no repeated ids.
pub open spec fn spec_holds(s: VisitorState, v: LiveVar) -> bool {
    &&& s.wf()
    &&& s.map.contains(v)
    &&& (s.loopout matches Some(o) ==> o.contains(v))
}

/// A walk from `s` after which `v` is still tracked, and which reports `v`
/// as "dropped var" if it makes control stop where it could go on before.
pub open spec fn spec_keeps_live(s: VisitorState, r: Visit, v: LiveVar) -> bool {
    match r {
        Ok((s2, d)) => spec_holds(s2, v) && (s2.diverging && !s.diverging ==> d.contains(error(v.span, Message::DroppedVar))),
        Err(_) => true,
    }
}

pub(crate) proof fn lemma_contains_concat(d1: Seq<Diagnostic>, d2: Seq<Diagnostic>, x: Diagnostic)
    requires
        d1.contains(x) || d2.contains(x),
    ensures
        (d1 + d2).contains(x),
{
    if d1.contains(x) {
        let k = choose|k: int| 0 <= k < d1.len() && d1[k] == x;
        assert((d1 + d2)[k] == x);
    } else {
        let k = choose|k: int| 0 <= k < d2.len() && d2[k] == x;
        assert((d1 + d2)[d1.len() + k] == x);
    }
}

proof fn lemma_chain(s: VisitorState, s1: VisitorState, d1: Seq<Diagnostic>, r: Visit, v: LiveVar)
    requires
        spec_keeps_live(s, Visit::Ok((s1, d1)), v),
        spec_keeps_live(s1, r, v),
    ensures
        spec_keeps_live(s, prepend(d1, r), v),
{
    if let Ok((s2, d2)) = r {
        if s2.diverging && !s.diverging {
            lemma_contains_concat(d1, d2, error(v.span, Message::DroppedVar));
        }
    }
}

/// In a map without repeated ids, `v` is an entry exactly when its id is
/// tracked with its place and drop permission.
proof fn lemma_entry(m: Seq<LiveVar>, v: LiveVar)
    requires
        spec_unique(m),
    ensures
        m.contains(v) <==> (spec_has(m, v.id) && spec_as_map(m)[v.id] == (v.span, v.droppable)),
{
    if m.contains(v) {
        let j = choose|j: int| 0 <= j < m.len() && m[j] == v;
        lemma_pos_unique(m, j);
    }
    if spec_has(m, v.id) && spec_as_map(m)[v.id] == (v.span, v.droppable) {
        let p = crate::live::spec_pos(m, v.id);
        assert(m[p].id == v.id);
        assert(m[p] == v);
    }
}

proof fn lemma_insert_keeps(m: Seq<LiveVar>, w: LiveVar, v: LiveVar)
    requires
        spec_unique(m),
        m.contains(v),
        w.id != v.id,
    ensures
        spec_insert(m, w).contains(v),
{
    lemma_insert(m, w);
    lemma_entry(m, v);
    lemma_entry(spec_insert(m, w), v);
}

proof fn lemma_remove_keeps(m: Seq<LiveVar>, id: NodeId, v: LiveVar)
    requires
        spec_unique(m),
        m.contains(v),
        id != v.id,
    ensures
        spec_remove(m, id).contains(v),
{
    lemma_remove(m, id);
    lemma_entry(m, v);
    lemma_entry(spec_remove(m, id), v);
}

proof fn lemma_roots_live(a: Seq<Attribute>, s: VisitorState, ps: Seq<Pat>, v: LiveVar)
    requires
        spec_holds(s, v),
        !spec_any_binds(ps, v.id),
    ensures
        spec_holds(spec_add_roots(a, s, ps).0, v),
        spec_add_roots(a, s, ps).0.diverging == s.diverging,
{
    crate::laws::lemma_roots_keep(a, s, ps, v.id);
    lemma_entry(s.map, v);
    lemma_entry(spec_add_roots(a, s, ps).0.map, v);
}

proof fn lemma_root_live(a: Seq<Attribute>, s: VisitorState, p: Pat, v: LiveVar)
    requires
        spec_holds(s, v),
        !spec_binds(p, v.id),
    ensures
        spec_holds(spec_add_root(a, s, p).0, v),
        spec_add_root(a, s, p).0.diverging == s.diverging,
{
    crate::laws::lemma_pat_keeps(a, spec_can_drop(a, p.ty), s, p, v.id);
    assert(spec_add_root(a, s, p) == crate::semantics::spec_add_pat(a, spec_can_drop(a, p.ty), s, p));
    lemma_entry(s.map, v);
    lemma_entry(spec_add_root(a, s, p).0.map, v);
}

proof fn lemma_arms_unmoved(arms: Seq<Arm>, x: NodeId)
    requires
        spec_unmoved_arms(arms, x),
    ensures
        !spec_arms_bind(arms, x),
    decreases arms.len(),
{
    if arms.len() > 0 {
        assert(spec_unmoved_arms(arms.drop_last(), x) && spec_unmoved_arm(arms.last(), x));
        assert(!spec_any_binds(arms.last().pats@, x));
        lemma_arms_unmoved(arms.drop_last(), x);
    }
}


// ---------------------------------------------------------------- the walk keeps the local

proof fn lemma_live_expr(a: Seq<Attribute>, s: VisitorState, e: Expr, v: LiveVar)
    requires
        spec_holds(s, v),
        !v.droppable,
        spec_unmoved_expr(e, v.id),
    ensures
        spec_keeps_live(s, spec_visit_expr(a, s, e), v),
    decreases e, 2nat,
{
    crate::invariants::lemma_expr(a, s, e);
    if !(s.diverging || s.breaking) {
        match e.kind {
            ExprKind::Assign(lhs, rhs) => {
                lemma_live_expr(a, s, *rhs, v);
                if let Ok((s1, d1)) = spec_visit_expr(a, s, *rhs) {
                    if let ExprKind::Path(Some(id)) = lhs.kind {
                        if spec_has(s1.map, id) {
                            let c = seq![error(lhs.span, Message::CannotOverwrite)];
                            assert(d1.push(error(lhs.span, Message::CannotOverwrite)) == d1 + c);
                            if s1.diverging && !s.diverging {
                                lemma_contains_concat(d1, c, error(v.span, Message::DroppedVar));
                            }
                        } else if spec_mentions_protected(lhs.ty) {
                            lemma_insert_keeps(s1.map, LiveVar { id, span: e.span, droppable: spec_can_drop(a, lhs.ty) }, v);
                        }
                    }
                }
            },
            ExprKind::Path(Some(id)) => {
                if spec_has(s.map, id) {
                    lemma_remove_keeps(s.map, id, v);
                }
            },
            ExprKind::AddrOf(inner) => {
                if !(inner.kind is Path) {
                    lemma_live_expr(a, s, *inner, v);
                }
            },
            ExprKind::If(_, _, _) => {
                lemma_live_if(a, s, e, v);
            },
            ExprKind::Match(_, _, _) => {
                lemma_live_match(a, s, e, v);
            },
            ExprKind::Ret(r) => {
                if let Some(y) = r {
                    lemma_live_expr(a, s, *y, v);
                }
                if let Ok((s1, d1)) = match r {
                    Some(y) => spec_visit_expr(a, s, *y),
                    None => Visit::Ok((s, seq![])),
                } {
                    crate::laws::law_exit_reports_undroppable_locals(s1.map);
                    lemma_contains_concat(d1, spec_dropped(s1.map), error(v.span, Message::DroppedVar));
                }
            },
            ExprKind::Loop(body) => {
                let s0 = s.with_loopin(Some(s.map));
                lemma_live_block(a, s0, body, v);
            },
            ExprKind::Break(_) => {},
            ExprKind::Again(_) => {},
            ExprKind::While(_, _) => {},
            _ => {
                lemma_live_walk_expr(a, s, e, v);
            },
        }
    }
}

#[verifier::rlimit(30)]
proof fn lemma_live_if(a: Seq<Attribute>, s: VisitorState, e: Expr, v: LiveVar)
    requires
        spec_holds(s, v),
        !v.droppable,
        spec_unmoved_expr(e, v.id),
        e.kind is If,
    ensures
        spec_keeps_live(s, spec_visit_if(a, s, e), v),
    decreases e, 1nat,
{
    crate::invariants::lemma_if(a, s, e);
    if let ExprKind::If(_, then_block, els) = e.kind {
        lemma_live_block(a, s, then_block, v);
        if let Ok((t, d1)) = spec_visit_block(a, s, then_block) {
            let s1 = if !t.diverging { spec_update_loopout(s, e.span, t.loopout).0 } else { s };
            let d2 = if !t.diverging { spec_update_loopout(s, e.span, t.loopout).1 } else { seq![] };
            assert(spec_holds(s1, v));
            if let Some(x) = els {
                lemma_live_expr(a, s1, *x, v);
                if let Ok((w, d3)) = spec_visit_expr(a, s1, *x) {
                    if !w.diverging {
                        if !t.diverging && t.breaking && !w.breaking {
                            lemma_kept_locals(w.map, s.map);
                            lemma_entry(s.map, v);
                        }
                    } else if t.diverging && !s.diverging {
                        lemma_contains_concat(d1, d2, error(v.span, Message::DroppedVar));
                        lemma_contains_concat(d1 + d2, d3, error(v.span, Message::DroppedVar));
                    }
                }
            }
        }
    }
}

#[verifier::rlimit(30)]
proof fn lemma_live_match(a: Seq<Attribute>, s: VisitorState, e: Expr, v: LiveVar)
    requires
        spec_holds(s, v),
        !v.droppable,
        spec_unmoved_expr(e, v.id),
        e.kind is Match,
    ensures
        spec_keeps_live(s, spec_visit_match(a, s, e), v),
    decreases e, 1nat,
{
    crate::invariants::lemma_match(a, s, e);
    if let ExprKind::Match(scrutinee, arms, _) = e.kind {
        lemma_live_expr(a, s, *scrutinee, v);
        if let Ok((s1, d1)) = spec_visit_expr(a, s, *scrutinee) {
            let err = error(v.span, Message::DroppedVar);
            assert(spec_unmoved_arms(arms@, v.id) && arms@.len() > 0);
            if spec_is_for_expansion(arms@) {
                assert(spec_unmoved_arms(arms@.drop_last(), v.id) && spec_unmoved_arm(arms@.last(), v.id));
                assert(arms@.last() == arms@[0]);
                assert(spec_unmoved_expr(arms@[0].body, v.id));
                let s0 = s1;
                lemma_live_block(a, s0, spec_for_block(arms@), v);
                if let Ok((t, d2)) = spec_visit_block(a, s0, spec_for_block(arms@)) {
                    let dn = seq![crate::diag::note(e.span, Message::ForLoopExpansion)];
                    if !s.diverging {
                        if s1.diverging {
                            lemma_contains_concat(d1, dn, err);
                            lemma_contains_concat(d1 + dn, d2, err);
                            lemma_contains_concat(d1 + dn + d2, seq![error(e.span, Message::NonLinearForLoop)], err);
                        } else if t.diverging {
                            lemma_contains_concat(d1 + dn, d2, err);
                        }
                    }
                }
            } else {
                lemma_live_branch_arms(a, s1, e.span, arms@, v);
                crate::invariants::lemma_expr(a, s, *scrutinee);
                crate::invariants::lemma_branch_arms(a, s1, e.span, arms@);
                if let Ok((s2, last, c, d2)) = spec_branch_arms(a, s1, e.span, arms@) {
                    match last {
                        None => {
                            if !s.diverging {
                                lemma_contains_concat(d1, d2, err);
                            }
                        },
                        Some(o) => {
                            lemma_arms_unmoved(arms@, v.id);
                            lemma_carried(o.map, c, s1.map, arms@);
                            lemma_entry(s1.map, v);
                            if s1.diverging && !s.diverging {
                                lemma_contains_concat(d1, d2, err);
                                lemma_contains_concat(d1 + d2, crate::semantics::spec_escape_reports(o.map, s1.map, arms@, e.span), err);
                            }
                        },
                    }
                }
            }
        }
    }
}

proof fn lemma_live_branch_arms(a: Seq<Attribute>, s: VisitorState, span: crate::ast::Span, arms: Seq<Arm>, v: LiveVar)
    requires
        spec_holds(s, v),
        !v.droppable,
        spec_unmoved_arms(arms, v.id),
    ensures
        spec_branch_arms(a, s, span, arms) matches Ok((s2, last, c, d)) ==> spec_holds(s2, v) && s2.diverging == s.diverging
            && (last matches Some(o) ==> c.contains(v) && o.map.contains(v))
            && (last is None && arms.len() > 0 && !s.diverging ==> d.contains(error(v.span, Message::DroppedVar))),
    decreases arms, 0nat,
{
    if arms.len() > 0 {
        let init = arms.drop_last();
        lemma_live_branch_arms(a, s, span, init, v);
        crate::invariants::lemma_branch_arms(a, s, span, init);
        if let Ok((s1, last, c1, d1)) = spec_branch_arms(a, s, span, init) {
            lemma_live_arm(a, s1, arms.last(), v);
            if let Ok((w, d2)) = spec_visit_arm(a, s1, arms.last()) {
                let err = error(v.span, Message::DroppedVar);
                if !w.diverging {
                    if last is Some {
                        lemma_common(c1, w.map);
                    }
                } else if last is None && !s.diverging {
                    if init.len() > 0 {
                        lemma_contains_concat(d1, d2, err);
                    } else {
                        assert(s1 == s);
                        lemma_contains_concat(d1, d2, err);
                    }
                }
            }
        }
    }
}

proof fn lemma_live_arm(a: Seq<Attribute>, s: VisitorState, arm: Arm, v: LiveVar)
    requires
        spec_holds(s, v),
        !v.droppable,
        spec_unmoved_arm(arm, v.id),
    ensures
        spec_keeps_live(s, spec_visit_arm(a, s, arm), v),
    decreases arm, 0nat,
{
    lemma_roots_live(a, s, arm.pats@, v);
    let (s1, d1) = spec_add_roots(a, s, arm.pats@);
    lemma_live_walk_expr(a, s1, arm.body, v);
    lemma_chain(s, s1, d1, spec_walk_expr(a, s1, arm.body), v);
}

proof fn lemma_live_walk_arms(a: Seq<Attribute>, s: VisitorState, arms: Seq<Arm>, v: LiveVar)
    requires
        spec_holds(s, v),
        !v.droppable,
        spec_unmoved_arms(arms, v.id),
    ensures
        spec_keeps_live(s, spec_walk_arms(a, s, arms), v),
    decreases arms, 0nat,
{
    if arms.len() > 0 {
        lemma_live_walk_arms(a, s, arms.drop_last(), v);
        if let Ok((s1, d1)) = spec_walk_arms(a, s, arms.drop_last()) {
            lemma_live_arm(a, s1, arms.last(), v);
            lemma_chain(s, s1, d1, spec_visit_arm(a, s1, arms.last()), v);
        }
    }
}

proof fn lemma_live_exprs(a: Seq<Attribute>, s: VisitorState, es: Seq<Expr>, v: LiveVar)
    requires
        spec_holds(s, v),
        !v.droppable,
        spec_unmoved_exprs(es, v.id),
    ensures
        spec_keeps_live(s, spec_visit_exprs(a, s, es), v),
    decreases es, 0nat,
{
    if es.len() > 0 {
        lemma_live_exprs(a, s, es.drop_last(), v);
        if let Ok((s1, d1)) = spec_visit_exprs(a, s, es.drop_last()) {
            lemma_live_expr(a, s1, es.last(), v);
            lemma_chain(s, s1, d1, spec_visit_expr(a, s1, es.last()), v);
        }
    }
}

proof fn lemma_live_walk_expr(a: Seq<Attribute>, s: VisitorState, e: Expr, v: LiveVar)
    requires
        spec_holds(s, v),
        !v.droppable,
        spec_unmoved_expr(e, v.id),
        spec_walk_safe(e, v.id),
    ensures
        spec_keeps_live(s, spec_walk_expr(a, s, e), v),
    decreases e, 0nat,
{
    match e.kind {
        ExprKind::Assign(lhs, rhs) => {
            lemma_live_expr(a, s, *rhs, v);
            if let Ok((s1, d1)) = spec_visit_expr(a, s, *rhs) {
                lemma_live_expr(a, s1, *lhs, v);
                lemma_chain(s, s1, d1, spec_visit_expr(a, s1, *lhs), v);
            }
        },
        ExprKind::AddrOf(inner) => {
            assert(spec_unmoved_expr(*inner, v.id));
            lemma_live_expr(a, s, *inner, v);
        },
        ExprKind::If(cond, then_block, els) => {
            lemma_live_expr(a, s, *cond, v);
            if let Ok((s1, d1)) = spec_visit_expr(a, s, *cond) {
                lemma_live_block(a, s1, then_block, v);
                lemma_chain(s, s1, d1, spec_visit_block(a, s1, then_block), v);
                if let Ok((s2, d2)) = spec_visit_block(a, s1, then_block) {
                    if let Some(x) = els {
                        lemma_live_expr(a, s2, *x, v);
                        lemma_chain(s, s2, d1 + d2, spec_visit_expr(a, s2, *x), v);
                    }
                }
            }
        },
        ExprKind::Match(scrutinee, arms, _) => {
            lemma_live_expr(a, s, *scrutinee, v);
            if let Ok((s1, d1)) = spec_visit_expr(a, s, *scrutinee) {
                lemma_live_walk_arms(a, s1, arms@, v);
                lemma_chain(s, s1, d1, spec_walk_arms(a, s1, arms@), v);
            }
        },
        ExprKind::Loop(body) => {
            lemma_live_block(a, s, body, v);
        },
        ExprKind::While(cond, body) => {
            lemma_live_expr(a, s, *cond, v);
            if let Ok((s1, d1)) = spec_visit_expr(a, s, *cond) {
                lemma_live_block(a, s1, body, v);
                lemma_chain(s, s1, d1, spec_visit_block(a, s1, body), v);
            }
        },
        ExprKind::Ret(r) => {
            if let Some(x) = r {
                lemma_live_expr(a, s, *x, v);
            }
        },
        ExprKind::Block(b) => {
            lemma_live_block(a, s, b, v);
        },
        ExprKind::Other(es) => {
            lemma_live_exprs(a, s, es@, v);
        },
        _ => {},
    }
}

proof fn lemma_live_block(a: Seq<Attribute>, s: VisitorState, b: Block, v: LiveVar)
    requires
        spec_holds(s, v),
        !v.droppable,
        spec_unmoved_block(b, v.id),
    ensures
        spec_keeps_live(s, spec_visit_block(a, s, b), v),
    decreases b, 1nat,
{
    lemma_live_walk_block(a, s, b, v);
    if let Ok((s1, d1)) = spec_walk_block(a, s, b) {
        if let Some(x) = b.expr {
            lemma_live_walk_expr(a, s1, *x, v);
            lemma_chain(s, s1, d1, spec_walk_expr(a, s1, *x), v);
        }
    }
}

proof fn lemma_live_walk_block(a: Seq<Attribute>, s: VisitorState, b: Block, v: LiveVar)
    requires
        spec_holds(s, v),
        !v.droppable,
        spec_unmoved_stmts(b.stmts@, v.id),
        match b.expr {
            Some(y) => spec_unmoved_expr(*y, v.id),
            None => true,
        },
    ensures
        spec_keeps_live(s, spec_walk_block(a, s, b), v),
    decreases b, 0nat,
{
    lemma_live_stmts(a, s, b.stmts@, v);
    if let Ok((s1, d1)) = spec_visit_stmts(a, s, b.stmts@) {
        if let Some(x) = b.expr {
            lemma_live_expr(a, s1, *x, v);
            lemma_chain(s, s1, d1, spec_visit_expr(a, s1, *x), v);
        }
    }
}

proof fn lemma_live_stmts(a: Seq<Attribute>, s: VisitorState, ss: Seq<Stmt>, v: LiveVar)
    requires
        spec_holds(s, v),
        !v.droppable,
        spec_unmoved_stmts(ss, v.id),
    ensures
        spec_keeps_live(s, spec_visit_stmts(a, s, ss), v),
    decreases ss, 0nat,
{
    if ss.len() > 0 {
        lemma_live_stmts(a, s, ss.drop_last(), v);
        if let Ok((s1, d1)) = spec_visit_stmts(a, s, ss.drop_last()) {
            lemma_live_stmt(a, s1, ss.last(), v);
            lemma_chain(s, s1, d1, spec_visit_stmt(a, s1, ss.last()), v);
        }
    }
}

proof fn lemma_live_blocks(a: Seq<Attribute>, s: VisitorState, bs: Seq<Block>, v: LiveVar)
    requires
        spec_holds(s, v),
        !v.droppable,
        spec_unmoved_blocks(bs, v.id),
    ensures
        spec_keeps_live(s, spec_visit_blocks(a, s, bs), v),
    decreases bs, 0nat,
{
    if bs.len() > 0 {
        lemma_live_blocks(a, s, bs.drop_last(), v);
        if let Ok((s1, d1)) = spec_visit_blocks(a, s, bs.drop_last()) {
            lemma_live_block(a, s1, bs.last(), v);
            lemma_chain(s, s1, d1, spec_visit_block(a, s1, bs.last()), v);
        }
    }
}

proof fn lemma_live_stmt(a: Seq<Attribute>, s: VisitorState, st: Stmt, v: LiveVar)
    requires
        spec_holds(s, v),
        !v.droppable,
        spec_unmoved_stmt(st, v.id),
    ensures
        spec_keeps_live(s, spec_visit_stmt(a, s, st), v),
    decreases st, 1nat,
{
    if !s.diverging {
        match st.kind {
            StmtKind::Decl(d) => {
                lemma_live_decl(a, s, d, v);
            },
            StmtKind::Expr(x) => {
                lemma_live_expr(a, s, x, v);
            },
            StmtKind::Semi(x) => {
                lemma_live_expr(a, s, x, v);
                let d0 = if x.ty.protected { seq![error(st.span, Message::ProtectedValueUnused)] } else { seq![] };
                lemma_chain(s, s, d0, spec_visit_expr(a, s, x), v);
            },
        }
    }
}

proof fn lemma_live_decl(a: Seq<Attribute>, s: VisitorState, d: Decl, v: LiveVar)
    requires
        spec_holds(s, v),
        !v.droppable,
        spec_unmoved_stmt(Stmt { span: crate::ast::Span { lo: 0, hi: 0 }, kind: StmtKind::Decl(d) }, v.id),
    ensures
        spec_keeps_live(s, spec_visit_decl(a, s, d), v),
    decreases d, 0nat,
{
    match d {
        Decl::Local(l) => {
            if l.source != LocalSource::ForLoop {
                if let Some(x) = l.init {
                    lemma_live_expr(a, s, x, v);
                }
                if let Ok((s1, d1)) = match l.init {
                    Some(x) => spec_visit_expr(a, s, x),
                    None => Visit::Ok((s, seq![])),
                } {
                    lemma_root_live(a, s1, l.pat, v);
                    let (s2, d2) = spec_add_root(a, s1, l.pat);
                    if s1.diverging && !s.diverging {
                        lemma_contains_concat(d1, d2, error(v.span, Message::DroppedVar));
                    }
                }
            }
        },
        Decl::Item(bodies) => {
            lemma_live_blocks(a, s, bodies@, v);
        },
    }
}


// ---------------------------------------------------------------- bindings and functions

/// The entry with which a binding pattern starts to be tracked.
pub open spec fn spec_bound(a: Seq<Attribute>, p: Pat) -> LiveVar {
    LiveVar { id: p.id, span: p.span, droppable: spec_can_drop(a, p.ty) }
}

/// The sub-pattern of `p` whose binding of `x` is tracked once `p` is
/// walked: the last binding of `x` in the order of the walk, if any.
pub open spec fn spec_binder(p: Pat, x: NodeId) -> Option<Pat>
    decreases p, 1nat,
{
    let below = match p.kind {
        PatKind::Ident(Some(sub)) => spec_binder(*sub, x),
        PatKind::Compound(ps) => spec_binders(ps@, x),
        _ => None,
    };
    if below is Some {
        below
    } else if p.kind is Ident && p.id == x {
        Some(p)
    } else {
        None
    }
}

/// The last binding of `x` in the sub-patterns `ps`, walked in order.
pub open spec fn spec_binders(ps: Seq<Pat>, x: NodeId) -> Option<Pat>
    decreases ps, 0nat,
{
    if ps.len() == 0 {
        None
    } else if spec_binder(ps.last(), x) is Some {
        spec_binder(ps.last(), x)
    } else {
        spec_binders(ps.drop_last(), x)
    }
}

proof fn lemma_binder_binds(p: Pat, x: NodeId)
    ensures
        (spec_binder(p, x) is Some) == spec_binds(p, x),
        spec_binder(p, x) matches Some(q) ==> q.id == x && q.kind is Ident,
    decreases p, 1nat,
{
    match p.kind {
        PatKind::Ident(Some(sub)) => {
            lemma_binder_binds(*sub, x);
        },
        PatKind::Compound(ps) => {
            lemma_binders_binds(ps@, x);
        },
        _ => {},
    }
}

proof fn lemma_binders_binds(ps: Seq<Pat>, x: NodeId)
    ensures
        (spec_binders(ps, x) is Some) == spec_any_binds(ps, x),
        spec_binders(ps, x) matches Some(q) ==> q.id == x && q.kind is Ident,
    decreases ps, 0nat,
{
    if ps.len() > 0 {
        lemma_binder_binds(ps.last(), x);
        lemma_binders_binds(ps.drop_last(), x);
    }
}

/// A sub-pattern of `p` that binds `x` after every other binding of `x` in
/// `p` leaves its entry tracked once `p` is walked.
proof fn lemma_binder_live(a: Seq<Attribute>, rd: bool, s: VisitorState, p: Pat, q: Pat)
    requires
        s.wf(),
        spec_binder(p, q.id) == Some(q),
        spec_mentions_protected(q.ty),
    ensures
        crate::semantics::spec_add_pat(a, rd, s, p).0.map.contains(spec_bound(a, q)),
    decreases p, 1nat,
{
    let x = q.id;
    let (s1, _) = crate::semantics::spec_pat_node(a, rd, s, p);
    if let PatKind::Ident(_) = p.kind {
        if spec_mentions_protected(p.ty) {
            lemma_insert(s.map, spec_bound(a, p));
            lemma_entry(spec_insert(s.map, spec_bound(a, p)), spec_bound(a, p));
        }
    }
    assert(s1.wf());
    match p.kind {
        PatKind::Ident(Some(sub)) => {
            lemma_binder_binds(*sub, x);
            if spec_binder(*sub, x) is Some {
                lemma_binder_live(a, rd, s1, *sub, q);
            } else {
                assert(q == p);
                crate::laws::lemma_pat_keeps(a, rd, s1, *sub, x);
                let s2 = crate::semantics::spec_add_pat(a, rd, s1, *sub).0;
                lemma_entry(s1.map, spec_bound(a, q));
                lemma_entry(s2.map, spec_bound(a, q));
            }
        },
        PatKind::Compound(ps) => {
            lemma_subpats_binder_live(a, rd, s1, ps@, q);
        },
        _ => {},
    }
}

proof fn lemma_subpats_binder_live(a: Seq<Attribute>, rd: bool, s: VisitorState, ps: Seq<Pat>, q: Pat)
    requires
        s.wf(),
        spec_binders(ps, q.id) == Some(q),
        spec_mentions_protected(q.ty),
    ensures
        crate::semantics::spec_add_subpats(a, rd, s, ps).0.map.contains(spec_bound(a, q)),
    decreases ps, 0nat,
{
    let x = q.id;
    let init = ps.drop_last();
    crate::invariants::lemma_subpats(a, rd, s, init);
    let (s1, _) = crate::semantics::spec_add_subpats(a, rd, s, init);
    lemma_binder_binds(ps.last(), x);
    if spec_binder(ps.last(), x) is Some {
        lemma_binder_live(a, rd, s1, ps.last(), q);
    } else {
        lemma_subpats_binder_live(a, rd, s, init, q);
        crate::laws::lemma_pat_keeps(a, rd, s1, ps.last(), x);
        let s2 = crate::semantics::spec_add_pat(a, rd, s1, ps.last()).0;
        lemma_entry(s1.map, spec_bound(a, q));
        lemma_entry(s2.map, spec_bound(a, q));
    }
}

proof fn lemma_bind_live(a: Seq<Attribute>, s: VisitorState, p: Pat, q: Pat)
    requires
        s.wf(),
        s.loopout is None,
        spec_binder(p, q.id) == Some(q),
        spec_mentions_protected(q.ty),
    ensures
        spec_holds(spec_add_root(a, s, p).0, spec_bound(a, q)),
        spec_add_root(a, s, p).0.diverging == s.diverging,
{
    let rd = spec_can_drop(a, p.ty);
    assert(spec_add_root(a, s, p) == crate::semantics::spec_add_pat(a, rd, s, p));
    lemma_binder_live(a, rd, s, p, q);
    crate::invariants::lemma_pat(a, rd, s, p);
    crate::laws::lemma_pat_keeps(a, rd, s, p, q.id);
}

/// After the statements `ss`, the first `k + 1` of which leave `v` tracked
/// with control going on, and the rest of which never name it, `v` is still
/// tracked, and reported if control stopped.
proof fn lemma_live_after(a: Seq<Attribute>, s: VisitorState, ss: Seq<Stmt>, k: int, v: LiveVar)
    requires
        0 <= k < ss.len(),
        spec_visit_stmts(a, s, ss.take(k + 1)) matches Ok((sk, _)) && spec_holds(sk, v) && !sk.diverging,
        !v.droppable,
        forall|j: int| k < j < ss.len() ==> spec_unmoved_stmt(#[trigger] ss[j], v.id),
    ensures
        spec_visit_stmts(a, s, ss) matches Ok((s2, d)) ==> spec_holds(s2, v)
            && (s2.diverging ==> d.contains(error(v.span, Message::DroppedVar))),
    decreases ss.len(),
{
    if ss.len() == k + 1 {
        assert(ss.take(k + 1) =~= ss);
    } else {
        let init = ss.drop_last();
        assert(init.take(k + 1) =~= ss.take(k + 1));
        assert forall|j: int| k < j < init.len() implies spec_unmoved_stmt(#[trigger] init[j], v.id) by {
            assert(init[j] == ss[j]);
        }
        lemma_live_after(a, s, init, k, v);
        if let Ok((s1, d1)) = spec_visit_stmts(a, s, init) {
            assert(spec_unmoved_stmt(ss[ss.len() - 1], v.id));
            lemma_live_stmt(a, s1, ss.last(), v);
            if let Ok((s2, d2)) = spec_visit_stmt(a, s1, ss.last()) {
                if s2.diverging {
                    lemma_contains_concat(d1, d2, error(v.span, Message::DroppedVar));
                }
            }
        }
    }
}

/// When the walk of a function's body keeps `v` tracked and reports it if
/// control stopped, checking the function reports it.
proof fn lemma_reported_at_exit(f: FnItem, v: LiveVar)
    requires
        !v.droppable,
        spec_walk_fn(f) matches Ok((s, d)) ==> s.map.contains(v) && (s.diverging ==> d.contains(error(v.span, Message::DroppedVar))),
    ensures
        spec_check_fn(f) matches Ok(d) ==> d.contains(error(v.span, Message::DroppedVar)),
{
    if let Ok((s, d)) = spec_walk_fn(f) {
        if !s.diverging {
            crate::laws::law_end_of_body_checks_live_locals(f, s, d);
        }
    }
}

/// Each local must be moved before its scope ends, whatever the control flow
/// after its binding: when control reaches and completes the `let` at
/// position `k` of a function's body, whose pattern binds (at the
/// sub-pattern `q`, anywhere in the pattern) a protected local that the
/// function may not drop, and the rest of the function never moves that
/// local (borrowing it is no move), checking the function reports it as
/// "dropped var" at its binding: at every `return` that leaves the function,
/// or at the end of the body. (A recorded loop exit at the binding would
/// stand for a `break` outside any loop.)
pub proof fn law_never_moved_local_is_reported(f: FnItem, k: int, q: Pat)
    requires
        0 <= k < f.body.stmts@.len(),
        f.body.stmts@[k].kind matches StmtKind::Decl(Decl::Local(l)) && spec_binder(l.pat, q.id) == Some(q),
        spec_mentions_protected(q.ty),
        !spec_can_drop(f.attrs@, q.ty),
        match spec_visit_stmts(f.attrs@, spec_add_roots(f.attrs@, spec_initial(), f.params@).0, f.body.stmts@.take(k)) {
            Ok((sk, _)) => !sk.diverging && !sk.breaking && match spec_visit_stmt(f.attrs@, sk, f.body.stmts@[k]) {
                Ok((sk1, _)) => !sk1.diverging && sk1.loopout is None,
                Err(_) => false,
            },
            Err(_) => false,
        },
        forall|j: int| k < j < f.body.stmts@.len() ==> spec_unmoved_stmt(#[trigger] f.body.stmts@[j], q.id),
        match f.body.expr {
            Some(x) => spec_unmoved_expr(*x, q.id),
            None => true,
        },
    ensures
        spec_check_fn(f) matches Ok(d) ==> d.contains(error(q.span, Message::DroppedVar)),
{
    let a = f.attrs@;
    let ss = f.body.stmts@;
    let v = spec_bound(a, q);
    let s1 = spec_add_roots(a, spec_initial(), f.params@).0;
    assert(spec_initial().wf());
    crate::invariants::lemma_roots(a, spec_initial(), f.params@);
    crate::invariants::lemma_stmts(a, s1, ss.take(k));
    if let Ok((sk, dk)) = spec_visit_stmts(a, s1, ss.take(k)) {
        assert(ss.take(k + 1).drop_last() =~= ss.take(k));
        assert(ss.take(k + 1).last() == ss[k]);
        lemma_let_binds(a, sk, ss[k], q);
        lemma_live_after(a, s1, ss, k, v);
        lemma_body_end(f, s1, v);
        lemma_reported_at_exit(f, v);
    }
}

/// A reached `let` that completes, with no loop exit recorded, leaves the
/// local bound at `q` tracked.
proof fn lemma_let_binds(a: Seq<Attribute>, s: VisitorState, st: Stmt, q: Pat)
    requires
        s.wf(),
        !s.diverging,
        st.kind matches StmtKind::Decl(Decl::Local(l)) && spec_binder(l.pat, q.id) == Some(q),
        spec_mentions_protected(q.ty),
        spec_visit_stmt(a, s, st) matches Ok((s1, _)) && s1.loopout is None,
    ensures
        spec_visit_stmt(a, s, st) matches Ok((s1, _)) && spec_holds(s1, spec_bound(a, q)),
{
    if let StmtKind::Decl(Decl::Local(l)) = st.kind {
        assert(spec_visit_stmt(a, s, st) == spec_visit_decl(a, s, Decl::Local(l)));
        crate::invariants::lemma_stmt(a, s, st);
        let s_init = match l.init {
            Some(x) => spec_visit_expr(a, s, x)->Ok_0.0,
            None => s,
        };
        match l.init {
            Some(x) => {
                crate::invariants::lemma_expr(a, s, x);
            },
            None => {},
        }
        if let Ok((s1, _)) = spec_visit_stmt(a, s, st) {
            assert(s1 == spec_add_root(a, s_init, l.pat).0);
            crate::invariants::lemma_pat(a, spec_can_drop(a, l.pat.ty), s_init, l.pat);
            lemma_bind_live(a, s_init, l.pat, q);
        }
    }
}

/// After the statements of the body keep `v` tracked (and report it if
/// control stopped), so does the whole body, whose trailing value never moves
/// it.
proof fn lemma_body_end(f: FnItem, s1: VisitorState, v: LiveVar)
    requires
        !v.droppable,
        s1 == spec_add_roots(f.attrs@, spec_initial(), f.params@).0,
        spec_visit_stmts(f.attrs@, s1, f.body.stmts@) matches Ok((s2, d)) ==> spec_holds(s2, v)
            && (s2.diverging ==> d.contains(error(v.span, Message::DroppedVar))),
        match f.body.expr {
            Some(x) => spec_unmoved_expr(*x, v.id),
            None => true,
        },
    ensures
        spec_walk_fn(f) matches Ok((s, d)) ==> s.map.contains(v) && (s.diverging ==> d.contains(error(v.span, Message::DroppedVar))),
{
    let a = f.attrs@;
    if let Ok((s2, d2)) = spec_visit_stmts(a, s1, f.body.stmts@) {
        let r = match f.body.expr {
            Some(x) => spec_visit_expr(a, s2, *x),
            None => Visit::Ok((s2, seq![])),
        };
        if let Some(x) = f.body.expr {
            lemma_live_expr(a, s2, *x, v);
        }
        if let Ok((s3, d3)) = r {
            if s3.diverging {
                lemma_contains_concat(d2, d3, error(v.span, Message::DroppedVar));
            }
        }
        assert(spec_walk_block(a, s1, f.body) == prepend(d2, r));
        let d0 = spec_add_roots(a, spec_initial(), f.params@).1;
        if let Ok((s3, d3)) = spec_walk_block(a, s1, f.body) {
            if s3.diverging {
                lemma_contains_concat(d0, d3, error(v.span, Message::DroppedVar));
            }
        }
    }
}

/// A parameter must be moved before the function ends: a protected local
/// bound by the parameter at position `k` (at the sub-pattern `q`, anywhere in
/// its pattern), of a type the function may not drop, that no other
/// parameter binds and that the body never moves (borrowing it is no move),
/// is reported as "dropped var" at its binding, whatever the control flow of
/// the body.
pub proof fn law_never_moved_parameter_is_reported(f: FnItem, k: int, q: Pat)
    requires
        0 <= k < f.params@.len(),
        spec_binder(f.params@[k], q.id) == Some(q),
        spec_mentions_protected(q.ty),
        !spec_can_drop(f.attrs@, q.ty),
        forall|j: int| 0 <= j < f.params@.len() && j != k ==> !spec_binds(#[trigger] f.params@[j], q.id),
        spec_unmoved_stmts(f.body.stmts@, q.id),
        match f.body.expr {
            Some(x) => spec_unmoved_expr(*x, q.id),
            None => true,
        },
    ensures
        spec_check_fn(f) matches Ok(d) ==> d.contains(error(q.span, Message::DroppedVar)),
{
    let a = f.attrs@;
    let v = spec_bound(a, q);
    assert(spec_initial().wf());
    lemma_params_live(a, spec_initial(), f.params@, k, q);
    let (s1, d1) = spec_add_roots(a, spec_initial(), f.params@);
    lemma_live_walk_block(a, s1, f.body, v);
    if let Ok((s3, d3)) = spec_walk_block(a, s1, f.body) {
        if s3.diverging {
            lemma_contains_concat(d1, d3, error(v.span, Message::DroppedVar));
        }
    }
    lemma_reported_at_exit(f, v);
}

proof fn lemma_params_live(a: Seq<Attribute>, s: VisitorState, ps: Seq<Pat>, k: int, q: Pat)
    requires
        s.wf(),
        s.loopout is None,
        !s.diverging,
        0 <= k < ps.len(),
        spec_binder(ps[k], q.id) == Some(q),
        spec_mentions_protected(q.ty),
        forall|j: int| 0 <= j < ps.len() && j != k ==> !spec_binds(#[trigger] ps[j], q.id),
    ensures
        spec_holds(spec_add_roots(a, s, ps).0, spec_bound(a, q)),
        !spec_add_roots(a, s, ps).0.diverging,
    decreases ps.len(),
{
    let init = ps.drop_last();
    let (s1, _) = spec_add_roots(a, s, init);
    crate::invariants::lemma_roots(a, s, init);
    crate::laws::lemma_roots_keep(a, s, init, q.id);
    if k == ps.len() - 1 {
        lemma_bind_live(a, s1, ps.last(), q);
    } else {
        assert(init[k] == ps[k]);
        assert forall|j: int| 0 <= j < init.len() && j != k implies !spec_binds(#[trigger] init[j], q.id) by {
            assert(init[j] == ps[j]);
        }
        lemma_params_live(a, s, init, k, q);
        assert(!spec_binds(ps[ps.len() - 1], q.id));
        lemma_root_live(a, s1, ps.last(), spec_bound(a, q));
    }
}

} // verus!
