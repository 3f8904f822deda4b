//! The check only concerns drop-protected values: a function that handles no
//! value of a protected type, and assigns nothing, is never reported.
use vstd::prelude::*;
use crate::ast::{Arm, Attribute, Block, Decl, Expr, ExprKind, FnItem, Pat, PatKind, Span, Stmt, StmtKind};
use crate::diag::{Diagnostic, Level};
use crate::live::{spec_same, LiveVar};
use crate::semantics::{
    spec_add_pat, spec_add_roots, spec_add_subpats, spec_branch_arms, spec_check_fn, spec_dropped, spec_initial,
    spec_update_loopout, spec_visit_arm, spec_visit_block, spec_visit_blocks, spec_visit_decl, spec_visit_expr,
    spec_visit_exprs, spec_visit_if, spec_visit_match, spec_visit_stmt, spec_visit_stmts, spec_walk_arms,
    spec_walk_block, spec_walk_expr, spec_walk_fn, spec_for_block, spec_is_for_expansion, Visit, VisitorState,
};
use crate::ty::spec_mentions_protected;

verus! {

// ---------------------------------------------------------------- unprotected syntax

/// No type in the pattern mentions a protected type.
pub open spec fn spec_free_pat(p: Pat) -> bool
    decreases p, 1nat,
{
    !spec_mentions_protected(p.ty) && match p.kind {
        PatKind::Ident(Some(sub)) => spec_free_pat(*sub),
        PatKind::Compound(ps) => spec_free_pats(ps@),
        _ => true,
    }
}

pub open spec fn spec_free_pats(ps: Seq<Pat>) -> bool
    decreases ps, 0nat,
{
    ps.len() == 0 || (spec_free_pats(ps.drop_last()) && spec_free_pat(ps.last()))
}

/// No type in the expression mentions a protected type, and it assigns nothing.
pub open spec fn spec_free_expr(e: Expr) -> bool
    decreases e, 1nat,
{
    !spec_mentions_protected(e.ty) && match e.kind {
        ExprKind::Path(_) => true,
        ExprKind::Assign(_, _) => false,
        ExprKind::AddrOf(inner) => spec_free_expr(*inner),
        ExprKind::If(cond, b, els) => spec_free_expr(*cond) && spec_free_block(b) && match els {
            Some(x) => spec_free_expr(*x),
            None => true,
        },
        ExprKind::Match(scrutinee, arms, _) => spec_free_expr(*scrutinee) && spec_free_arms(arms@),
        ExprKind::Loop(b) => spec_free_block(b),
        ExprKind::While(cond, b) => spec_free_expr(*cond) && spec_free_block(b),
        ExprKind::Ret(r) => match r {
            Some(x) => spec_free_expr(*x),
            None => true,
        },
        ExprKind::Break(_) => true,
        ExprKind::Again(_) => true,
        ExprKind::Block(b) => spec_free_block(b),
        ExprKind::Other(es) => spec_free_exprs(es@),
    }
}

pub open spec fn spec_free_exprs(es: Seq<Expr>) -> bool
    decreases es, 0nat,
{
    es.len() == 0 || (spec_free_exprs(es.drop_last()) && spec_free_expr(es.last()))
}

pub open spec fn spec_free_arm(arm: Arm) -> bool
    decreases arm, 0nat,
{
    spec_free_pats(arm.pats@) && spec_free_expr(arm.body) && match arm.guard {
        Some(g) => spec_free_expr(g),
        None => true,
    }
}

pub open spec fn spec_free_arms(arms: Seq<Arm>) -> bool
    decreases arms, 0nat,
{
    arms.len() == 0 || (spec_free_arms(arms.drop_last()) && spec_free_arm(arms.last()))
}

pub open spec fn spec_free_block(b: Block) -> bool
    decreases b, 0nat,
{
    spec_free_stmts(b.stmts@) && match b.expr {
        Some(x) => spec_free_expr(*x),
        None => true,
    }
}

pub open spec fn spec_free_blocks(bs: Seq<Block>) -> bool
    decreases bs, 0nat,
{
    bs.len() == 0 || (spec_free_blocks(bs.drop_last()) && spec_free_block(bs.last()))
}

pub open spec fn spec_free_stmt(st: Stmt) -> bool
    decreases st, 0nat,
{
    match st.kind {
        StmtKind::Decl(Decl::Local(l)) => spec_free_pat(l.pat) && match l.init {
            Some(x) => spec_free_expr(x),
            None => true,
        },
        StmtKind::Decl(Decl::Item(bodies)) => spec_free_blocks(bodies@),
        StmtKind::Expr(x) => spec_free_expr(x),
        StmtKind::Semi(x) => spec_free_expr(x),
    }
}

pub open spec fn spec_free_stmts(ss: Seq<Stmt>) -> bool
    decreases ss, 0nat,
{
    ss.len() == 0 || (spec_free_stmts(ss.drop_last()) && spec_free_stmt(ss.last()))
}

/// A function whose parameters and body handle no protected value and that
/// assigns nothing.
pub open spec fn spec_free_fn(f: FnItem) -> bool {
    spec_free_pats(f.params@) && spec_free_block(f.body)
}

// ---------------------------------------------------------------- clean states

/// No local is tracked, nor recorded at a loop head or exit.
pub open spec fn spec_clean(s: VisitorState) -> bool {
    &&& s.map.len() == 0
    &&& (s.loopin matches Some(m) ==> m.len() == 0)
    &&& (s.loopout matches Some(m) ==> m.len() == 0)
}

/// No diagnostic of `d` is an error.
pub open spec fn spec_no_errors(d: Seq<Diagnostic>) -> bool {
    forall|i: int| 0 <= i < d.len() ==> #[trigger] d[i].level == Level::Note
}

/// A walk from `s` that stays clean, reports no error, and keeps a recorded
/// loop exit.
pub open spec fn spec_stays_clean(s: VisitorState, r: Visit) -> bool {
    match r {
        Ok((s2, d)) => spec_clean(s2) && spec_no_errors(d) && (s.loopout is Some ==> s2.loopout is Some),
        Err(_) => true,
    }
}

proof fn lemma_empty_same(m1: Seq<LiveVar>, m2: Seq<LiveVar>)
    requires
        m1.len() == 0,
        m2.len() == 0,
    ensures
        spec_same(m1, m2),
{
    assert forall|v: LiveVar| m1.contains(v) <==> m2.contains(v) by {
        if m1.contains(v) {
            let j = choose|j: int| 0 <= j < m1.len() && m1[j] == v;
        }
        if m2.contains(v) {
            let j = choose|j: int| 0 <= j < m2.len() && m2[j] == v;
        }
    }
}

proof fn lemma_no_errors_concat(d1: Seq<Diagnostic>, d2: Seq<Diagnostic>)
    requires
        spec_no_errors(d1),
        spec_no_errors(d2),
    ensures
        spec_no_errors(d1 + d2),
{
    assert forall|i: int| 0 <= i < (d1 + d2).len() implies #[trigger] (d1 + d2)[i].level == Level::Note by {
        if i < d1.len() {
            assert((d1 + d2)[i] == d1[i]);
        } else {
            assert((d1 + d2)[i] == d2[i - d1.len()]);
        }
    }
}

/// Chaining two clean walks.
proof fn lemma_chain(s: VisitorState, s1: VisitorState, d1: Seq<Diagnostic>, r: Visit)
    requires
        spec_stays_clean(s, Visit::Ok((s1, d1))),
        spec_stays_clean(s1, r),
    ensures
        spec_stays_clean(s, crate::semantics::prepend(d1, r)),
{
    if let Ok((s2, d2)) = r {
        lemma_no_errors_concat(d1, d2);
    }
}

proof fn lemma_update_loopout_clean(s: VisitorState, span: Span, lo: Option<Seq<LiveVar>>)
    requires
        spec_clean(s),
        lo matches Some(m) ==> m.len() == 0,
        s.loopout is Some ==> lo is Some,
    ensures
        spec_update_loopout(s, span, lo).1 == Seq::<Diagnostic>::empty(),
        spec_clean(spec_update_loopout(s, span, lo).0),
        spec_update_loopout(s, span, lo).0.map == s.map,
        spec_update_loopout(s, span, lo).0.loopin == s.loopin,
        s.loopout is Some ==> spec_update_loopout(s, span, lo).0.loopout == s.loopout,
        lo is Some ==> spec_update_loopout(s, span, lo).0.loopout is Some,
{
    if let Some(cur) = s.loopout {
        lemma_empty_same(cur, lo->Some_0);
    }
}

// ---------------------------------------------------------------- patterns

proof fn lemma_free_pat(a: Seq<Attribute>, rd: bool, s: VisitorState, p: Pat)
    requires
        spec_clean(s),
        spec_free_pat(p),
    ensures
        spec_add_pat(a, rd, s, p).0 == s,
        spec_add_pat(a, rd, s, p).1 == Seq::<Diagnostic>::empty(),
    decreases p, 1nat,
{
    match p.kind {
        PatKind::Ident(Some(sub)) => {
            lemma_free_pat(a, rd, s, *sub);
        },
        PatKind::Compound(ps) => {
            lemma_free_subpats(a, rd, s, ps@);
        },
        _ => {},
    }
}

proof fn lemma_free_subpats(a: Seq<Attribute>, rd: bool, s: VisitorState, ps: Seq<Pat>)
    requires
        spec_clean(s),
        spec_free_pats(ps),
    ensures
        spec_add_subpats(a, rd, s, ps).0 == s,
        spec_add_subpats(a, rd, s, ps).1 == Seq::<Diagnostic>::empty(),
    decreases ps, 0nat,
{
    if ps.len() > 0 {
        lemma_free_subpats(a, rd, s, ps.drop_last());
        lemma_free_pat(a, rd, s, ps.last());
    }
}

proof fn lemma_free_roots(a: Seq<Attribute>, s: VisitorState, ps: Seq<Pat>)
    requires
        spec_clean(s),
        spec_free_pats(ps),
    ensures
        spec_add_roots(a, s, ps).0 == s,
        spec_add_roots(a, s, ps).1 == Seq::<Diagnostic>::empty(),
    decreases ps.len(),
{
    if ps.len() > 0 {
        lemma_free_roots(a, s, ps.drop_last());
        lemma_free_pat(a, crate::ty::spec_can_drop(a, ps.last().ty), s, ps.last());
    }
}

// ---------------------------------------------------------------- expressions

proof fn lemma_free_expr(a: Seq<Attribute>, s: VisitorState, e: Expr)
    requires
        spec_clean(s),
        spec_free_expr(e),
    ensures
        spec_stays_clean(s, spec_visit_expr(a, s, e)),
    decreases e, 2nat,
{
    if !(s.diverging || s.breaking) {
        match e.kind {
            ExprKind::AddrOf(inner) => {
                lemma_free_expr(a, s, *inner);
                assert(spec_stays_clean(s, spec_visit_expr(a, s, e)));
            },
            ExprKind::If(_, _, _) => {
                lemma_free_if(a, s, e);
                assert(spec_stays_clean(s, spec_visit_expr(a, s, e)));
            },
            ExprKind::Match(_, _, _) => {
                lemma_free_match(a, s, e);
                assert(spec_stays_clean(s, spec_visit_expr(a, s, e)));
            },
            ExprKind::Ret(r) => {
                if let Some(x) = r {
                    lemma_free_expr(a, s, *x);
                }
                if let Ok((s1, d1)) = match r {
                    Some(x) => spec_visit_expr(a, s, *x),
                    None => Visit::Ok((s, seq![])),
                } {
                    assert(spec_dropped(s1.map) =~= Seq::<Diagnostic>::empty());
                    lemma_no_errors_concat(d1, spec_dropped(s1.map));
                }
                assert(spec_stays_clean(s, spec_visit_expr(a, s, e)));
            },
            ExprKind::Loop(body) => {
                lemma_free_block(a, s.with_loopin(Some(s.map)), body);
                if let Ok((t, d)) = spec_visit_block(a, s.with_loopin(Some(s.map)), body) {
                    assert(crate::semantics::spec_iteration_end(t.map, s.map) =~= Seq::<Diagnostic>::empty());
                    assert(d + Seq::<Diagnostic>::empty() =~= d);
                }
                assert(spec_stays_clean(s, spec_visit_expr(a, s, e)));
            },
            ExprKind::Break(_) => {
                if let Some(out) = s.loopout {
                    lemma_empty_same(s.map, out);
                }
                assert(spec_stays_clean(s, spec_visit_expr(a, s, e)));
            },
            ExprKind::Again(_) => {
                if let Some(inc) = s.loopin {
                    lemma_empty_same(s.map, inc);
                }
                assert(spec_stays_clean(s, spec_visit_expr(a, s, e)));
            },
            ExprKind::Path(Some(id)) => {
                assert(!crate::live::spec_has(s.map, id));
                assert(spec_stays_clean(s, spec_visit_expr(a, s, e)));
            },
            ExprKind::Path(None) => {
                assert(spec_visit_expr(a, s, e) == spec_walk_expr(a, s, e));
                assert(spec_stays_clean(s, spec_visit_expr(a, s, e)));
            },
            ExprKind::While(_, _) => {
                assert(spec_stays_clean(s, spec_visit_expr(a, s, e)));
            },
            _ => {
                lemma_free_walk_expr(a, s, e);
                assert(spec_stays_clean(s, spec_visit_expr(a, s, e)));
            },
        }
    }
}

proof fn lemma_free_if(a: Seq<Attribute>, s: VisitorState, e: Expr)
    requires
        spec_clean(s),
        !s.diverging,
        !s.breaking,
        spec_free_expr(e),
        e.kind is If,
    ensures
        spec_stays_clean(s, spec_visit_if(a, s, e)),
    decreases e, 1nat,
{
    if let ExprKind::If(_, then_block, els) = e.kind {
        lemma_free_block(a, s, then_block);
        if let Ok((v, d1)) = spec_visit_block(a, s, then_block) {
            let s1 = if !v.diverging { spec_update_loopout(s, e.span, v.loopout).0 } else { s };
            if !v.diverging {
                lemma_update_loopout_clean(s, e.span, v.loopout);
                lemma_empty_same(v.map, s.map);
            }
            let d2: Seq<Diagnostic> = if !v.diverging { spec_update_loopout(s, e.span, v.loopout).1 } else { seq![] };
            assert(spec_no_errors(d2)) by {
                if !v.diverging && els.is_none() {
                    assert(d2 =~= seq![] + seq![]);
                }
            }
            match els {
                None => {
                    assert(d2 =~= Seq::<Diagnostic>::empty());
                    assert(d1 + d2 =~= d1);
                },
                Some(x) => {
                    lemma_free_expr(a, s1, *x);
                    if let Ok((w, d3)) = spec_visit_expr(a, s1, *x) {
                        if !w.diverging {
                            lemma_update_loopout_clean(s1, e.span, w.loopout);
                            lemma_empty_same(w.map, s.map);
                            assert(crate::semantics::spec_branch_escapes(w.map, s.map, e.span) =~= Seq::<Diagnostic>::empty());
                            assert(crate::semantics::spec_kept_locals(w.map, s.map) =~= Seq::<LiveVar>::empty());
                            if !v.diverging {
                                lemma_empty_same(v.map, w.map);
                            }
                            let du2 = spec_update_loopout(s1, e.span, w.loopout).1;
                            lemma_no_errors_concat(d1, d2);
                            lemma_no_errors_concat(d1 + d2, d3);
                            assert(d1 + d2 + d3 + du2 + seq![] =~= d1 + d2 + d3);
                        } else {
                            lemma_no_errors_concat(d1, d2);
                            lemma_no_errors_concat(d1 + d2, d3);
                        }
                    }
                },
            }
        }
    }
}

proof fn lemma_free_match(a: Seq<Attribute>, s: VisitorState, e: Expr)
    requires
        spec_clean(s),
        !s.diverging,
        !s.breaking,
        spec_free_expr(e),
        e.kind is Match,
    ensures
        spec_stays_clean(s, spec_visit_match(a, s, e)),
    decreases e, 1nat,
{
    if let ExprKind::Match(scrutinee, arms, _) = e.kind {
        lemma_free_expr(a, s, *scrutinee);
        if let Ok((s1, d1)) = spec_visit_expr(a, s, *scrutinee) {
            if spec_is_for_expansion(arms@) {
                assert(spec_free_arms(arms@));
                assert(spec_free_arms(arms@.drop_last()) && spec_free_arm(arms@.last()));
                assert(arms@.last() == arms@[0]);
                assert(spec_free_expr(arms@[0].body));
                lemma_free_block(a, s1, spec_for_block(arms@));
                if let Ok((t, d2)) = spec_visit_block(a, s1, spec_for_block(arms@)) {
                    let dn = seq![crate::diag::note(e.span, crate::diag::Message::ForLoopExpansion)];
                    assert(spec_no_errors(dn));
                    lemma_no_errors_concat(d1, dn);
                    lemma_no_errors_concat(d1 + dn, d2);
                    if let Some(hm) = t.loopout {
                        lemma_empty_same(t.map, hm);
                    }
                }
            } else {
                lemma_free_branch_arms(a, s1, e.span, arms@);
                if let Ok((s2, last, c, d2)) = spec_branch_arms(a, s1, e.span, arms@) {
                    lemma_no_errors_concat(d1, d2);
                    if let Some(o) = last {
                        assert(crate::semantics::spec_escape_reports(o.map, s1.map, arms@, e.span) =~= Seq::<Diagnostic>::empty());
                        assert(crate::semantics::spec_carried(o.map, c, s1.map, arms@) =~= Seq::<LiveVar>::empty());
                        assert(d1 + d2 + Seq::<Diagnostic>::empty() =~= d1 + d2);
                    }
                }
            }
        }
    }
}

proof fn lemma_free_branch_arms(a: Seq<Attribute>, s: VisitorState, span: Span, arms: Seq<Arm>)
    requires
        spec_clean(s),
        spec_free_arms(arms),
    ensures
        spec_branch_arms(a, s, span, arms) matches Ok((s2, last, c, d)) ==> spec_clean(s2)
            && spec_no_errors(d) && (s.loopout is Some ==> s2.loopout is Some) && (last matches Some(l) ==> spec_clean(l))
            && c.len() == 0,
    decreases arms, 0nat,
{
    if arms.len() > 0 {
        lemma_free_branch_arms(a, s, span, arms.drop_last());
        if let Ok((s1, last, c1, d1)) = spec_branch_arms(a, s, span, arms.drop_last()) {
            lemma_free_arm(a, s1, arms.last());
            if let Ok((v, d2)) = spec_visit_arm(a, s1, arms.last()) {
                lemma_no_errors_concat(d1, d2);
                if !v.diverging {
                    lemma_update_loopout_clean(s1, span, v.loopout);
                    let du = spec_update_loopout(s1, span, v.loopout).1;
                    if let Some(t) = last {
                        lemma_empty_same(t.map, v.map);
                        assert(crate::semantics::spec_common(c1, v.map) =~= Seq::<LiveVar>::empty());
                        assert(d1 + d2 + du + seq![] =~= d1 + d2);
                    } else {
                        assert(d1 + d2 + du =~= d1 + d2);
                    }
                }
            }
        }
    }
}

proof fn lemma_free_arm(a: Seq<Attribute>, s: VisitorState, arm: Arm)
    requires
        spec_clean(s),
        spec_free_arm(arm),
    ensures
        spec_stays_clean(s, spec_visit_arm(a, s, arm)),
    decreases arm, 0nat,
{
    lemma_free_roots(a, s, arm.pats@);
    lemma_free_walk_expr(a, s, arm.body);
    if let Ok((s2, d2)) = spec_walk_expr(a, s, arm.body) {
        assert(seq![] + d2 =~= d2);
    }
}

proof fn lemma_free_walk_arms(a: Seq<Attribute>, s: VisitorState, arms: Seq<Arm>)
    requires
        spec_clean(s),
        spec_free_arms(arms),
    ensures
        spec_stays_clean(s, spec_walk_arms(a, s, arms)),
    decreases arms, 0nat,
{
    if arms.len() > 0 {
        lemma_free_walk_arms(a, s, arms.drop_last());
        if let Ok((s1, d1)) = spec_walk_arms(a, s, arms.drop_last()) {
            lemma_free_arm(a, s1, arms.last());
            lemma_chain(s, s1, d1, spec_visit_arm(a, s1, arms.last()));
        }
    }
}

proof fn lemma_free_exprs(a: Seq<Attribute>, s: VisitorState, es: Seq<Expr>)
    requires
        spec_clean(s),
        spec_free_exprs(es),
    ensures
        spec_stays_clean(s, spec_visit_exprs(a, s, es)),
    decreases es, 0nat,
{
    if es.len() > 0 {
        lemma_free_exprs(a, s, es.drop_last());
        if let Ok((s1, d1)) = spec_visit_exprs(a, s, es.drop_last()) {
            lemma_free_expr(a, s1, es.last());
            lemma_chain(s, s1, d1, spec_visit_expr(a, s1, es.last()));
        }
    }
}

proof fn lemma_free_walk_expr(a: Seq<Attribute>, s: VisitorState, e: Expr)
    requires
        spec_clean(s),
        spec_free_expr(e),
    ensures
        spec_stays_clean(s, spec_walk_expr(a, s, e)),
    decreases e, 0nat,
{
    match e.kind {
        ExprKind::AddrOf(inner) => {
            lemma_free_expr(a, s, *inner);
        },
        ExprKind::If(cond, then_block, els) => {
            lemma_free_expr(a, s, *cond);
            if let Ok((s1, d1)) = spec_visit_expr(a, s, *cond) {
                lemma_free_block(a, s1, then_block);
                if let Ok((s2, d2)) = spec_visit_block(a, s1, then_block) {
                    lemma_no_errors_concat(d1, d2);
                    if let Some(x) = els {
                        lemma_free_expr(a, s2, *x);
                        lemma_chain(s, s2, d1 + d2, spec_visit_expr(a, s2, *x));
                    }
                }
            }
        },
        ExprKind::Match(scrutinee, arms, _) => {
            lemma_free_expr(a, s, *scrutinee);
            if let Ok((s1, d1)) = spec_visit_expr(a, s, *scrutinee) {
                lemma_free_walk_arms(a, s1, arms@);
                lemma_chain(s, s1, d1, spec_walk_arms(a, s1, arms@));
            }
        },
        ExprKind::Loop(body) => {
            lemma_free_block(a, s, body);
        },
        ExprKind::While(cond, body) => {
            lemma_free_expr(a, s, *cond);
            if let Ok((s1, d1)) = spec_visit_expr(a, s, *cond) {
                lemma_free_block(a, s1, body);
                lemma_chain(s, s1, d1, spec_visit_block(a, s1, body));
            }
        },
        ExprKind::Ret(r) => {
            if let Some(x) = r {
                lemma_free_expr(a, s, *x);
            }
        },
        ExprKind::Block(b) => {
            lemma_free_block(a, s, b);
        },
        ExprKind::Other(es) => {
            lemma_free_exprs(a, s, es@);
        },
        _ => {},
    }
}

// ---------------------------------------------------------------- blocks

proof fn lemma_free_block(a: Seq<Attribute>, s: VisitorState, b: Block)
    requires
        spec_clean(s),
        spec_free_block(b),
    ensures
        spec_stays_clean(s, spec_visit_block(a, s, b)),
    decreases b, 1nat,
{
    lemma_free_walk_block(a, s, b);
    if let Ok((s1, d1)) = spec_walk_block(a, s, b) {
        if let Some(x) = b.expr {
            lemma_free_walk_expr(a, s1, *x);
            lemma_chain(s, s1, d1, spec_walk_expr(a, s1, *x));
        }
    }
}

proof fn lemma_free_walk_block(a: Seq<Attribute>, s: VisitorState, b: Block)
    requires
        spec_clean(s),
        spec_free_block(b),
    ensures
        spec_stays_clean(s, spec_walk_block(a, s, b)),
    decreases b, 0nat,
{
    lemma_free_stmts(a, s, b.stmts@);
    if let Ok((s1, d1)) = spec_visit_stmts(a, s, b.stmts@) {
        if let Some(x) = b.expr {
            lemma_free_expr(a, s1, *x);
            lemma_chain(s, s1, d1, spec_visit_expr(a, s1, *x));
        }
    }
}

proof fn lemma_free_stmts(a: Seq<Attribute>, s: VisitorState, ss: Seq<Stmt>)
    requires
        spec_clean(s),
        spec_free_stmts(ss),
    ensures
        spec_stays_clean(s, spec_visit_stmts(a, s, ss)),
    decreases ss, 0nat,
{
    if ss.len() > 0 {
        lemma_free_stmts(a, s, ss.drop_last());
        if let Ok((s1, d1)) = spec_visit_stmts(a, s, ss.drop_last()) {
            lemma_free_stmt(a, s1, ss.last());
            lemma_chain(s, s1, d1, spec_visit_stmt(a, s1, ss.last()));
        }
    }
}

proof fn lemma_free_blocks(a: Seq<Attribute>, s: VisitorState, bs: Seq<Block>)
    requires
        spec_clean(s),
        spec_free_blocks(bs),
    ensures
        spec_stays_clean(s, spec_visit_blocks(a, s, bs)),
    decreases bs, 0nat,
{
    if bs.len() > 0 {
        lemma_free_blocks(a, s, bs.drop_last());
        if let Ok((s1, d1)) = spec_visit_blocks(a, s, bs.drop_last()) {
            lemma_free_block(a, s1, bs.last());
            lemma_chain(s, s1, d1, spec_visit_block(a, s1, bs.last()));
        }
    }
}

proof fn lemma_free_stmt(a: Seq<Attribute>, s: VisitorState, st: Stmt)
    requires
        spec_clean(s),
        spec_free_stmt(st),
    ensures
        spec_stays_clean(s, spec_visit_stmt(a, s, st)),
    decreases st, 1nat,
{
    if !s.diverging {
        match st.kind {
            StmtKind::Decl(d) => {
                lemma_free_decl(a, s, d);
            },
            StmtKind::Expr(x) => {
                lemma_free_expr(a, s, x);
            },
            StmtKind::Semi(x) => {
                lemma_free_expr(a, s, x);
                if let Ok((s1, d1)) = spec_visit_expr(a, s, x) {
                    assert(seq![] + d1 =~= d1);
                }
            },
        }
    }
}

proof fn lemma_free_decl(a: Seq<Attribute>, s: VisitorState, d: Decl)
    requires
        spec_clean(s),
        !s.diverging,
        match d {
            Decl::Local(l) => spec_free_pat(l.pat) && match l.init {
                Some(x) => spec_free_expr(x),
                None => true,
            },
            Decl::Item(bodies) => spec_free_blocks(bodies@),
        },
    ensures
        spec_stays_clean(s, spec_visit_decl(a, s, d)),
    decreases d, 0nat,
{
    match d {
        Decl::Local(l) => {
            let r = match l.init {
                Some(x) => spec_visit_expr(a, s, x),
                None => Visit::Ok((s, seq![])),
            };
            if let Some(x) = l.init {
                lemma_free_expr(a, s, x);
            }
            if let Ok((s1, d1)) = r {
                lemma_free_pat(a, crate::ty::spec_can_drop(a, l.pat.ty), s1, l.pat);
                assert(d1 + seq![] =~= d1);
            }
        },
        Decl::Item(bodies) => {
            lemma_free_blocks(a, s, bodies@);
        },
    }
}

/// A function that handles no value of a drop-protected type (no parameter,
/// binding or expression of its body has a type that mentions one) and assigns
/// nothing is never reported: checking it yields notes at most.
pub proof fn law_unprotected_function_is_accepted(f: FnItem)
    requires
        spec_free_fn(f),
    ensures
        spec_check_fn(f) is Ok ==> spec_no_errors(spec_check_fn(f)->Ok_0),
{
    let a = f.attrs@;
    lemma_free_roots(a, spec_initial(), f.params@);
    lemma_free_walk_block(a, spec_initial(), f.body);
    if let Ok((s, d)) = spec_walk_fn(f) {
        assert(spec_add_roots(a, spec_initial(), f.params@).1 + d =~= d);
        assert(spec_dropped(s.map) =~= Seq::<Diagnostic>::empty());
        assert(d + spec_dropped(s.map) =~= d);
    }
}

} // verus!
