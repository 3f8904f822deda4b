//! What every step of the check keeps: the tracked locals (and those recorded
//! at a loop's head and exit) form a map, with no id twice; and the live
//! locals with which a loop is left are fixed by its first exit and never
//! change afterwards, so branches never disagree on them and the "Diverging
//! loopout" error is never reported.
use vstd::prelude::*;
use crate::ast::{Arm, Attribute, Block, Decl, Expr, ExprKind, FnItem, Pat, PatKind, Span, Stmt, StmtKind};
use crate::diag::{Diagnostic, Message};
use crate::live::{spec_same, spec_unique, LiveVar};
use crate::semantics::{
    lemma_common, lemma_carried, lemma_kept_locals, spec_branch_escapes, spec_escape_reports,
    spec_iteration_end, spec_kept_locals,
    prepend, spec_add_pat, spec_add_roots, spec_add_subpats, spec_branch_arms, spec_check_fn,
    spec_dropped, spec_for_block, spec_initial, spec_is_for_expansion, spec_pat_node,
    spec_update_loopout, spec_visit_arm, spec_visit_block, spec_visit_blocks, spec_visit_decl,
    spec_visit_expr, spec_visit_exprs, spec_visit_if, spec_visit_match, spec_visit_stmt,
    spec_visit_stmts, spec_walk_arms, spec_walk_block, spec_walk_expr, spec_walk_fn, Visit, VisitorState,
};

verus! {

/// No diagnostic of `d` is "Diverging loopout".
pub open spec fn spec_no_loopout_report(d: Seq<Diagnostic>) -> bool {
    forall|i: int| 0 <= i < d.len() ==> #[trigger] d[i].message != Message::DivergingLoopout
}

/// A walk from `s` that keeps a recorded loop exit, keeps the maps of the
/// state free of repeated ids, and does not report "Diverging loopout".
pub open spec fn spec_stable(s: VisitorState, r: Visit) -> bool {
    match r {
        Ok((s2, d)) => (s.loopout is Some ==> s2.loopout == s.loopout) && spec_no_loopout_report(d) && (s.wf()
            ==> s2.wf()),
        Err(_) => true,
    }
}

proof fn lemma_concat(d1: Seq<Diagnostic>, d2: Seq<Diagnostic>)
    requires
        spec_no_loopout_report(d1),
        spec_no_loopout_report(d2),
    ensures
        spec_no_loopout_report(d1 + d2),
{
    assert forall|i: int| 0 <= i < (d1 + d2).len() implies #[trigger] (d1 + d2)[i].message != Message::DivergingLoopout by {
        if i < d1.len() {
            assert((d1 + d2)[i] == d1[i]);
        } else {
            assert((d1 + d2)[i] == d2[i - d1.len()]);
        }
    }
}

proof fn lemma_chain(s: VisitorState, s1: VisitorState, d1: Seq<Diagnostic>, r: Visit)
    requires
        spec_stable(s, Visit::Ok((s1, d1))),
        spec_stable(s1, r),
    ensures
        spec_stable(s, prepend(d1, r)),
{
    if let Ok((s2, d2)) = r {
        lemma_concat(d1, d2);
    }
}

/// The scope checks report only "dropped var" and "Match arms are not
/// linear".
proof fn lemma_scope_reports(m: Seq<LiveVar>, pre: Seq<LiveVar>, arms: Seq<Arm>, span: Span)
    ensures
        spec_no_loopout_report(spec_iteration_end(m, pre)),
        spec_no_loopout_report(spec_escape_reports(m, pre, arms, span)),
        spec_no_loopout_report(spec_branch_escapes(m, pre, span)),
    decreases m.len(),
{
    if m.len() > 0 {
        let p = m.drop_last();
        lemma_scope_reports(p, pre, arms, span);
        let e1 = seq![crate::diag::error(m.last().span, Message::DroppedVar)];
        let e2 = seq![crate::diag::error(span, Message::MatchArmsNotLinear)];
        assert(spec_no_loopout_report(e1));
        assert(spec_no_loopout_report(e2));
        assert(spec_no_loopout_report(Seq::<Diagnostic>::empty()));
        lemma_concat(spec_iteration_end(p, pre), e1);
        lemma_concat(spec_iteration_end(p, pre), Seq::<Diagnostic>::empty());
        lemma_concat(spec_escape_reports(p, pre, arms, span), e2);
        lemma_concat(spec_escape_reports(p, pre, arms, span), Seq::<Diagnostic>::empty());
        lemma_concat(spec_branch_escapes(p, pre, span), e2);
        lemma_concat(spec_branch_escapes(p, pre, span), Seq::<Diagnostic>::empty());
    }
}

proof fn lemma_same_refl(m: Seq<LiveVar>)
    ensures
        spec_same(m, m),
{
}

/// Recording the exit of a branch that kept the recorded exit reports nothing.
proof fn lemma_update(s: VisitorState, span: Span, lo: Option<Seq<LiveVar>>)
    requires
        s.loopout is Some ==> lo == s.loopout,
    ensures
        spec_update_loopout(s, span, lo).1 == Seq::<Diagnostic>::empty(),
        spec_update_loopout(s, span, lo).0 == (if s.loopout is Some { s } else { s.with_loopout(lo) }),
{
    if let Some(cur) = s.loopout {
        lemma_same_refl(cur);
    }
}

// ---------------------------------------------------------------- patterns

pub(crate) proof fn lemma_pat(a: Seq<Attribute>, rd: bool, s: VisitorState, p: Pat)
    ensures
        spec_add_pat(a, rd, s, p).0.loopout == s.loopout,
        s.wf() ==> spec_add_pat(a, rd, s, p).0.wf(),
        spec_no_loopout_report(spec_add_pat(a, rd, s, p).1),
    decreases p, 1nat,
{
    let (s1, d1) = spec_pat_node(a, rd, s, p);
    if let PatKind::Ident(_) = p.kind {
        if crate::ty::spec_mentions_protected(p.ty) && s.wf() {
            crate::live::lemma_insert(s.map, LiveVar { id: p.id, span: p.span, droppable: crate::ty::spec_can_drop(a, p.ty) });
        }
    }
    match p.kind {
        PatKind::Ident(Some(sub)) => {
            lemma_pat(a, rd, s1, *sub);
            lemma_concat(d1, spec_add_pat(a, rd, s1, *sub).1);
        },
        PatKind::Compound(ps) => {
            lemma_subpats(a, rd, s1, ps@);
            lemma_concat(d1, spec_add_subpats(a, rd, s1, ps@).1);
        },
        _ => {},
    }
}

pub(crate) proof fn lemma_subpats(a: Seq<Attribute>, rd: bool, s: VisitorState, ps: Seq<Pat>)
    ensures
        spec_add_subpats(a, rd, s, ps).0.loopout == s.loopout,
        s.wf() ==> spec_add_subpats(a, rd, s, ps).0.wf(),
        spec_no_loopout_report(spec_add_subpats(a, rd, s, ps).1),
    decreases ps, 0nat,
{
    if ps.len() > 0 {
        lemma_subpats(a, rd, s, ps.drop_last());
        let (s1, d1) = spec_add_subpats(a, rd, s, ps.drop_last());
        lemma_pat(a, rd, s1, ps.last());
        lemma_concat(d1, spec_add_pat(a, rd, s1, ps.last()).1);
    }
}

pub(crate) proof fn lemma_roots(a: Seq<Attribute>, s: VisitorState, ps: Seq<Pat>)
    ensures
        spec_add_roots(a, s, ps).0.loopout == s.loopout,
        s.wf() ==> spec_add_roots(a, s, ps).0.wf(),
        spec_no_loopout_report(spec_add_roots(a, s, ps).1),
    decreases ps.len(),
{
    if ps.len() > 0 {
        lemma_roots(a, s, ps.drop_last());
        let (s1, d1) = spec_add_roots(a, s, ps.drop_last());
        let rd = crate::ty::spec_can_drop(a, ps.last().ty);
        lemma_pat(a, rd, s1, ps.last());
        lemma_concat(d1, spec_add_pat(a, rd, s1, ps.last()).1);
    }
}

// ---------------------------------------------------------------- expressions

pub(crate) proof fn lemma_expr(a: Seq<Attribute>, s: VisitorState, e: Expr)
    ensures
        spec_stable(s, spec_visit_expr(a, s, e)),
    decreases e, 2nat,
{
    if !(s.diverging || s.breaking) {
        match e.kind {
            ExprKind::Assign(_, rhs) => {
                lemma_expr(a, s, *rhs);
                if let Ok((s1, d1)) = spec_visit_expr(a, s, *rhs) {
                    if let ExprKind::Assign(lhs, _) = e.kind {
                        lemma_concat(d1, seq![crate::diag::error(lhs.span, Message::CannotOverwrite)]);
                        assert(d1.push(crate::diag::error(lhs.span, Message::CannotOverwrite)) == d1 + seq![
                            crate::diag::error(lhs.span, Message::CannotOverwrite),
                        ]);
                    }
                }
            },
            ExprKind::AddrOf(inner) => {
                if !(inner.kind is Path) {
                    lemma_expr(a, s, *inner);
                }
            },
            ExprKind::If(_, _, _) => {
                lemma_if(a, s, e);
            },
            ExprKind::Match(_, _, _) => {
                lemma_match(a, s, e);
            },
            ExprKind::Ret(r) => {
                if let Some(x) = r {
                    lemma_expr(a, s, *x);
                }
                if let Ok((s1, d1)) = match r {
                    Some(x) => spec_visit_expr(a, s, *x),
                    None => Visit::Ok((s, seq![])),
                } {
                    crate::laws::law_exit_reports_undroppable_locals(s1.map);
                    assert(spec_no_loopout_report(spec_dropped(s1.map))) by {
                        assert forall|i: int| 0 <= i < spec_dropped(s1.map).len() implies #[trigger] spec_dropped(s1.map)[i].message != Message::DivergingLoopout by {
                            let v = choose|v: LiveVar| s1.map.contains(v) && !v.droppable && spec_dropped(s1.map)[i] == crate::diag::error(v.span, Message::DroppedVar);
                        }
                    }
                    lemma_concat(d1, spec_dropped(s1.map));
                }
            },
            ExprKind::Loop(body) => {
                lemma_block(a, s.with_loopin(Some(s.map)), body);
                if let Ok((t, d)) = spec_visit_block(a, s.with_loopin(Some(s.map)), body) {
                    lemma_scope_reports(t.map, s.map, Seq::<Arm>::empty(), e.span);
                    lemma_concat(d, spec_iteration_end(t.map, s.map));
                }
            },
            ExprKind::Path(Some(_)) => {},
            ExprKind::Break(_) => {},
            ExprKind::Again(_) => {},
            ExprKind::While(_, _) => {},
            _ => {
                lemma_walk_expr(a, s, e);
            },
        }
    }
}

pub(crate) proof fn lemma_if(a: Seq<Attribute>, s: VisitorState, e: Expr)
    requires
        e.kind is If,
    ensures
        spec_stable(s, spec_visit_if(a, s, e)),
    decreases e, 1nat,
{
    let empty = Seq::<Diagnostic>::empty();
    assert(spec_no_loopout_report(empty));
    if let ExprKind::If(_, then_block, els) = e.kind {
        lemma_block(a, s, then_block);
        if let Ok((v, d1)) = spec_visit_block(a, s, then_block) {
            if !v.diverging {
                lemma_update(s, e.span, v.loopout);
            }
            let s1 = if !v.diverging { spec_update_loopout(s, e.span, v.loopout).0 } else { s };
            assert(d1 + empty =~= d1);
            match els {
                None => {
                    let dn = seq![crate::diag::error(e.span, Message::IfBranchNotLinear)];
                    assert(spec_no_loopout_report(dn));
                    lemma_concat(d1, dn);
                },
                Some(x) => {
                    lemma_expr(a, s1, *x);
                    if let Ok((w, d3)) = spec_visit_expr(a, s1, *x) {
                        lemma_concat(d1, d3);
                        if !w.diverging {
                            lemma_update(s1, e.span, w.loopout);
                            assert(d1 + empty + d3 + empty =~= d1 + d3);
                            let dn2 = seq![crate::diag::error(e.span, Message::IfBranchesNotLinear)];
                            assert(spec_no_loopout_report(dn2));
                            lemma_concat(d1 + d3, dn2);
                            lemma_scope_reports(w.map, s.map, Seq::<Arm>::empty(), e.span);
                            lemma_concat(d1 + d3, spec_branch_escapes(w.map, s.map, e.span));
                            if s.wf() {
                                lemma_kept_locals(w.map, s.map);
                            }
                        } else {
                            assert(d1 + empty + d3 =~= d1 + d3);
                        }
                    }
                },
            }
        }
    }
}

pub(crate) proof fn lemma_match(a: Seq<Attribute>, s: VisitorState, e: Expr)
    requires
        e.kind is Match,
    ensures
        spec_stable(s, spec_visit_match(a, s, e)),
    decreases e, 1nat,
{
    if let ExprKind::Match(scrutinee, arms, _) = e.kind {
        lemma_expr(a, s, *scrutinee);
        if let Ok((s1, d1)) = spec_visit_expr(a, s, *scrutinee) {
            if spec_is_for_expansion(arms@) {
                lemma_block(a, s1, spec_for_block(arms@));
                if let Ok((t, d2)) = spec_visit_block(a, s1, spec_for_block(arms@)) {
                    let dn = seq![crate::diag::note(e.span, Message::ForLoopExpansion)];
                    let de = seq![crate::diag::error(e.span, Message::NonLinearForLoop)];
                    assert(spec_no_loopout_report(dn));
                    assert(spec_no_loopout_report(de));
                    lemma_concat(d1, dn);
                    lemma_concat(d1 + dn, d2);
                    lemma_concat(d1 + dn + d2, de);
                }
            } else {
                lemma_branch_arms(a, s1, e.span, arms@);
                if let Ok((s2, last, c, d2)) = spec_branch_arms(a, s1, e.span, arms@) {
                    lemma_concat(d1, d2);
                    if let Some(o) = last {
                        lemma_scope_reports(o.map, s1.map, arms@, e.span);
                        lemma_concat(d1 + d2, spec_escape_reports(o.map, s1.map, arms@, e.span));
                        if s.wf() {
                            lemma_carried(o.map, c, s1.map, arms@);
                        }
                    }
                }
            }
        }
    }
}

pub(crate) proof fn lemma_branch_arms(a: Seq<Attribute>, s: VisitorState, span: Span, arms: Seq<Arm>)
    ensures
        spec_branch_arms(a, s, span, arms) matches Ok((s2, last, c, d)) ==> (s.loopout is Some ==> s2.loopout == s.loopout)
            && spec_no_loopout_report(d) && (s.wf() ==> s2.wf() && (last matches Some(l) ==> l.wf()) && spec_unique(c)),
    decreases arms, 0nat,
{
    if arms.len() > 0 {
        lemma_branch_arms(a, s, span, arms.drop_last());
        if let Ok((s1, last, c1, d1)) = spec_branch_arms(a, s, span, arms.drop_last()) {
            lemma_arm(a, s1, arms.last());
            if let Ok((v, d2)) = spec_visit_arm(a, s1, arms.last()) {
                lemma_concat(d1, d2);
                if !v.diverging {
                    if s.wf() && last is Some {
                        lemma_common(c1, v.map);
                    }
                    lemma_update(s1, span, v.loopout);
                    let dm = seq![crate::diag::error(span, Message::MatchArmsNotLinear)];
                    assert(spec_no_loopout_report(dm));
                    lemma_concat(d1 + d2, Seq::<Diagnostic>::empty());
                    lemma_concat(d1 + d2 + Seq::<Diagnostic>::empty(), dm);
                    lemma_concat(d1 + d2 + Seq::<Diagnostic>::empty(), Seq::<Diagnostic>::empty());
                }
            }
        }
    }
}

pub(crate) proof fn lemma_arm(a: Seq<Attribute>, s: VisitorState, arm: Arm)
    ensures
        spec_stable(s, spec_visit_arm(a, s, arm)),
    decreases arm, 0nat,
{
    lemma_roots(a, s, arm.pats@);
    let (s1, d1) = spec_add_roots(a, s, arm.pats@);
    lemma_walk_expr(a, s1, arm.body);
    lemma_chain(s, s1, d1, spec_walk_expr(a, s1, arm.body));
}

pub(crate) proof fn lemma_walk_arms(a: Seq<Attribute>, s: VisitorState, arms: Seq<Arm>)
    ensures
        spec_stable(s, spec_walk_arms(a, s, arms)),
    decreases arms, 0nat,
{
    if arms.len() > 0 {
        lemma_walk_arms(a, s, arms.drop_last());
        if let Ok((s1, d1)) = spec_walk_arms(a, s, arms.drop_last()) {
            lemma_arm(a, s1, arms.last());
            lemma_chain(s, s1, d1, spec_visit_arm(a, s1, arms.last()));
        }
    }
}

pub(crate) proof fn lemma_exprs(a: Seq<Attribute>, s: VisitorState, es: Seq<Expr>)
    ensures
        spec_stable(s, spec_visit_exprs(a, s, es)),
    decreases es, 0nat,
{
    if es.len() > 0 {
        lemma_exprs(a, s, es.drop_last());
        if let Ok((s1, d1)) = spec_visit_exprs(a, s, es.drop_last()) {
            lemma_expr(a, s1, es.last());
            lemma_chain(s, s1, d1, spec_visit_expr(a, s1, es.last()));
        }
    }
}

pub(crate) proof fn lemma_walk_expr(a: Seq<Attribute>, s: VisitorState, e: Expr)
    ensures
        spec_stable(s, spec_walk_expr(a, s, e)),
    decreases e, 0nat,
{
    match e.kind {
        ExprKind::Assign(lhs, rhs) => {
            lemma_expr(a, s, *rhs);
            if let Ok((s1, d1)) = spec_visit_expr(a, s, *rhs) {
                lemma_expr(a, s1, *lhs);
                lemma_chain(s, s1, d1, spec_visit_expr(a, s1, *lhs));
            }
        },
        ExprKind::AddrOf(inner) => {
            lemma_expr(a, s, *inner);
        },
        ExprKind::If(cond, then_block, els) => {
            lemma_expr(a, s, *cond);
            if let Ok((s1, d1)) = spec_visit_expr(a, s, *cond) {
                lemma_block(a, s1, then_block);
                if let Ok((s2, d2)) = spec_visit_block(a, s1, then_block) {
                    lemma_concat(d1, d2);
                    if let Some(x) = els {
                        lemma_expr(a, s2, *x);
                        lemma_chain(s, s2, d1 + d2, spec_visit_expr(a, s2, *x));
                    }
                }
            }
        },
        ExprKind::Match(scrutinee, arms, _) => {
            lemma_expr(a, s, *scrutinee);
            if let Ok((s1, d1)) = spec_visit_expr(a, s, *scrutinee) {
                lemma_walk_arms(a, s1, arms@);
                lemma_chain(s, s1, d1, spec_walk_arms(a, s1, arms@));
            }
        },
        ExprKind::Loop(body) => {
            lemma_block(a, s, body);
        },
        ExprKind::While(cond, body) => {
            lemma_expr(a, s, *cond);
            if let Ok((s1, d1)) = spec_visit_expr(a, s, *cond) {
                lemma_block(a, s1, body);
                lemma_chain(s, s1, d1, spec_visit_block(a, s1, body));
            }
        },
        ExprKind::Ret(r) => {
            if let Some(x) = r {
                lemma_expr(a, s, *x);
            }
        },
        ExprKind::Block(b) => {
            lemma_block(a, s, b);
        },
        ExprKind::Other(es) => {
            lemma_exprs(a, s, es@);
        },
        _ => {},
    }
}

// ---------------------------------------------------------------- blocks

pub(crate) proof fn lemma_block(a: Seq<Attribute>, s: VisitorState, b: Block)
    ensures
        spec_stable(s, spec_visit_block(a, s, b)),
    decreases b, 1nat,
{
    lemma_walk_block(a, s, b);
    if let Ok((s1, d1)) = spec_walk_block(a, s, b) {
        if let Some(x) = b.expr {
            lemma_walk_expr(a, s1, *x);
            lemma_chain(s, s1, d1, spec_walk_expr(a, s1, *x));
        }
    }
}

pub(crate) proof fn lemma_walk_block(a: Seq<Attribute>, s: VisitorState, b: Block)
    ensures
        spec_stable(s, spec_walk_block(a, s, b)),
    decreases b, 0nat,
{
    lemma_stmts(a, s, b.stmts@);
    if let Ok((s1, d1)) = spec_visit_stmts(a, s, b.stmts@) {
        if let Some(x) = b.expr {
            lemma_expr(a, s1, *x);
            lemma_chain(s, s1, d1, spec_visit_expr(a, s1, *x));
        }
    }
}

pub(crate) proof fn lemma_stmts(a: Seq<Attribute>, s: VisitorState, ss: Seq<Stmt>)
    ensures
        spec_stable(s, spec_visit_stmts(a, s, ss)),
    decreases ss, 0nat,
{
    if ss.len() > 0 {
        lemma_stmts(a, s, ss.drop_last());
        if let Ok((s1, d1)) = spec_visit_stmts(a, s, ss.drop_last()) {
            lemma_stmt(a, s1, ss.last());
            lemma_chain(s, s1, d1, spec_visit_stmt(a, s1, ss.last()));
        }
    }
}

pub(crate) proof fn lemma_blocks(a: Seq<Attribute>, s: VisitorState, bs: Seq<Block>)
    ensures
        spec_stable(s, spec_visit_blocks(a, s, bs)),
    decreases bs, 0nat,
{
    if bs.len() > 0 {
        lemma_blocks(a, s, bs.drop_last());
        if let Ok((s1, d1)) = spec_visit_blocks(a, s, bs.drop_last()) {
            lemma_block(a, s1, bs.last());
            lemma_chain(s, s1, d1, spec_visit_block(a, s1, bs.last()));
        }
    }
}

pub(crate) proof fn lemma_stmt(a: Seq<Attribute>, s: VisitorState, st: Stmt)
    ensures
        spec_stable(s, spec_visit_stmt(a, s, st)),
    decreases st, 1nat,
{
    if !s.diverging {
        match st.kind {
            StmtKind::Decl(d) => {
                lemma_decl(a, s, d);
            },
            StmtKind::Expr(x) => {
                lemma_expr(a, s, x);
            },
            StmtKind::Semi(x) => {
                lemma_expr(a, s, x);
                let d0 = if x.ty.protected {
                    seq![crate::diag::error(st.span, Message::ProtectedValueUnused)]
                } else {
                    seq![]
                };
                assert(spec_no_loopout_report(d0));
                lemma_chain(s, s, d0, spec_visit_expr(a, s, x));
            },
        }
    }
}

pub(crate) proof fn lemma_decl(a: Seq<Attribute>, s: VisitorState, d: Decl)
    ensures
        spec_stable(s, spec_visit_decl(a, s, d)),
    decreases d, 0nat,
{
    match d {
        Decl::Local(l) => {
            if let Some(x) = l.init {
                lemma_expr(a, s, x);
            }
            let r = match l.init {
                Some(x) => spec_visit_expr(a, s, x),
                None => Visit::Ok((s, seq![])),
            };
            if let Ok((s1, d1)) = r {
                let rd = crate::ty::spec_can_drop(a, l.pat.ty);
                lemma_pat(a, rd, s1, l.pat);
                lemma_concat(d1, spec_add_pat(a, rd, s1, l.pat).1);
            }
        },
        Decl::Item(bodies) => {
            lemma_blocks(a, s, bodies@);
        },
    }
}

/// Checking a function never reports "Diverging loopout": every branch that
/// leaves a loop either records the loop's exit or finds it already recorded
/// with the same live locals, since a recorded exit never changes.
pub proof fn law_loop_exit_is_never_contradicted(f: FnItem)
    ensures
        spec_check_fn(f) is Ok ==> spec_no_loopout_report(spec_check_fn(f)->Ok_0),
{
    let a = f.attrs@;
    lemma_roots(a, spec_initial(), f.params@);
    let (s1, d1) = spec_add_roots(a, spec_initial(), f.params@);
    lemma_walk_block(a, s1, f.body);
    if let Ok((s2, d2)) = spec_walk_block(a, s1, f.body) {
        lemma_concat(d1, d2);
        crate::laws::law_exit_reports_undroppable_locals(s2.map);
        assert(spec_no_loopout_report(spec_dropped(s2.map))) by {
            assert forall|i: int| 0 <= i < spec_dropped(s2.map).len() implies #[trigger] spec_dropped(s2.map)[i].message != Message::DivergingLoopout by {
                let v = choose|v: LiveVar| s2.map.contains(v) && !v.droppable && spec_dropped(s2.map)[i] == crate::diag::error(v.span, Message::DroppedVar);
            }
        }
        lemma_concat(d1 + d2, spec_dropped(s2.map));
    }
}

/// The tracked locals always form a map: after walking any function, no
/// binding id is tracked twice, nor recorded twice at a loop's head or exit.
pub proof fn law_tracked_locals_form_a_map(f: FnItem)
    ensures
        spec_walk_fn(f) matches Ok((s, _)) ==> s.wf(),
{
    let a = f.attrs@;
    assert(spec_initial().wf());
    lemma_roots(a, spec_initial(), f.params@);
    let (s1, d1) = spec_add_roots(a, spec_initial(), f.params@);
    lemma_walk_block(a, s1, f.body);
}

// ---------------------------------------------------------------- scopes and exits

/// The exit records of a sequence of branches that leave a loop, in order.
pub open spec fn spec_update_all(s: VisitorState, ups: Seq<(Span, Option<Seq<LiveVar>>)>) -> (VisitorState, Seq<Diagnostic>)
    decreases ups.len(),
{
    if ups.len() == 0 {
        (s, seq![])
    } else {
        let (s1, d1) = spec_update_all(s, ups.drop_last());
        let (s2, d2) = spec_update_loopout(s1, ups.last().0, ups.last().1);
        (s2, d1 + d2)
    }
}

/// A loop's recorded exit is never replaced: after any sequence of exit
/// records, a recorded exit is still the one recorded, the first exit that
/// is recorded stays, and nothing else of the state changes.
pub proof fn law_recorded_exit_is_never_replaced(s: VisitorState, ups: Seq<(Span, Option<Seq<LiveVar>>)>)
    ensures
        s.loopout is Some ==> spec_update_all(s, ups).0.loopout == s.loopout,
        s.loopout is None && ups.len() > 0 && ups[0].1 is Some ==> spec_update_all(s, ups).0.loopout == ups[0].1,
        spec_update_all(s, ups).0 == s.with_loopout(spec_update_all(s, ups).0.loopout),
    decreases ups.len(),
{
    if ups.len() > 0 {
        law_recorded_exit_is_never_replaced(s, ups.drop_last());
        if ups.len() > 1 {
            assert(ups.drop_last()[0] == ups[0]);
        }
    }
}

/// No local bound by an arm's pattern outlives the `match`: none of them is
/// tracked after it, and each one still live at the end of the last arm that
/// goes on is reported as "Match arms are not linear".
pub proof fn law_arm_bindings_do_not_outlive_match(a: Seq<Attribute>, s: VisitorState, e: Expr)
    requires
        s.wf(),
        !s.diverging,
        !s.breaking,
        e.kind matches ExprKind::Match(scrutinee, arms, _) && !spec_is_for_expansion(arms@),
    ensures
        match e.kind {
            ExprKind::Match(scrutinee, arms, _) => match spec_visit_expr(a, s, *scrutinee) {
                Ok((s1, _)) => match spec_branch_arms(a, s1, e.span, arms@) {
                    Ok((_, Some(o), _, _)) => match spec_visit_expr(a, s, e) {
                        Ok((s2, d)) => (forall|v: LiveVar| #[trigger] s2.map.contains(v) ==> !crate::semantics::spec_is_escaping(v, s1.map, arms@))
                            && (forall|v: LiveVar| #[trigger] o.map.contains(v) && crate::semantics::spec_is_escaping(v, s1.map, arms@)
                                ==> d.contains(crate::diag::error(e.span, Message::MatchArmsNotLinear))),
                        Err(_) => false,
                    },
                    _ => true,
                },
                Err(_) => true,
            },
            _ => true,
        },
{
    assert(spec_visit_expr(a, s, e) == spec_visit_match(a, s, e));
    if let ExprKind::Match(scrutinee, arms, _) = e.kind {
        lemma_expr(a, s, *scrutinee);
        if let Ok((s1, d1)) = spec_visit_expr(a, s, *scrutinee) {
            lemma_branch_arms(a, s1, e.span, arms@);
            if let Ok((s2, Some(o), c, d2)) = spec_branch_arms(a, s1, e.span, arms@) {
                lemma_carried(o.map, c, s1.map, arms@);
                let r = crate::semantics::spec_escape_reports(o.map, s1.map, arms@, e.span);
                assert forall|v: LiveVar| o.map.contains(v) && crate::semantics::spec_is_escaping(v, s1.map, arms@)
                    implies (d1 + d2 + r).contains(crate::diag::error(e.span, Message::MatchArmsNotLinear)) by {
                    crate::semantics::lemma_escape_reported(o.map, s1.map, arms@, e.span, v);
                    let k = choose|k: int| 0 <= k < r.len() && r[k] == crate::diag::error(e.span, Message::MatchArmsNotLinear);
                    assert((d1 + d2 + r)[d1.len() + d2.len() + k] == crate::diag::error(e.span, Message::MatchArmsNotLinear));
                }
            }
        }
    }
}

/// When the `if` branch leaves its block and the `else` branch goes on, no
/// local bound inside the `else` branch outlives it: after the `if` only
/// locals tracked before it are tracked, and each one of the `else` branch
/// that was not is reported as "Match arms are not linear".
pub proof fn law_branch_bindings_do_not_outlive_if(a: Seq<Attribute>, s: VisitorState, e: Expr)
    requires
        s.wf(),
        !s.diverging,
        !s.breaking,
        e.kind matches ExprKind::If(_, then_block, Some(els)) && spec_visit_block(a, s, then_block) matches Ok((v, _))
            && !v.diverging && v.breaking,
    ensures
        match e.kind {
            ExprKind::If(_, then_block, Some(els)) => match spec_visit_block(a, s, then_block) {
                Ok((v, _)) => match spec_visit_expr(a, spec_update_loopout(s, e.span, v.loopout).0, *els) {
                    Ok((w, _)) => !w.diverging && !w.breaking ==> match spec_visit_expr(a, s, e) {
                        Ok((s2, d)) => (forall|x: LiveVar| #[trigger] s2.map.contains(x) ==> crate::live::spec_has(s.map, x.id))
                            && (forall|x: LiveVar| #[trigger] w.map.contains(x) && !crate::live::spec_has(s.map, x.id)
                                ==> d.contains(crate::diag::error(e.span, Message::MatchArmsNotLinear))),
                        Err(_) => false,
                    },
                    Err(_) => true,
                },
                Err(_) => true,
            },
            _ => true,
        },
{
    assert(spec_visit_expr(a, s, e) == spec_visit_if(a, s, e));
    if let ExprKind::If(_, then_block, Some(els)) = e.kind {
        lemma_block(a, s, then_block);
        if let Ok((v, d1)) = spec_visit_block(a, s, then_block) {
            let (s1, du) = spec_update_loopout(s, e.span, v.loopout);
            lemma_expr(a, s1, *els);
            if let Ok((w, d3)) = spec_visit_expr(a, s1, *els) {
                if !w.diverging && !w.breaking {
                    lemma_kept_locals(w.map, s.map);
                    let (s2, du2) = spec_update_loopout(s1, e.span, w.loopout);
                    let r = spec_branch_escapes(w.map, s.map, e.span);
                    let d = d1 + du + d3 + du2 + r;
                    assert(spec_visit_if(a, s, e) == Visit::Ok((s2.with_map(spec_kept_locals(w.map, s.map)).with_breaking(false), d)));
                    assert forall|x: LiveVar| w.map.contains(x) && !crate::live::spec_has(s.map, x.id)
                        implies d.contains(crate::diag::error(e.span, Message::MatchArmsNotLinear)) by {
                        crate::semantics::lemma_branch_escape_reported(w.map, s.map, e.span, x);
                        let k = choose|k: int| 0 <= k < r.len() && r[k] == crate::diag::error(e.span, Message::MatchArmsNotLinear);
                        assert(d[d.len() - r.len() + k] == crate::diag::error(e.span, Message::MatchArmsNotLinear));
                    }
                }
            }
        }
    }
}

} // verus!
