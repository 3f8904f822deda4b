//! The linearity check, as executable code proved to compute what
//! `semantics` describes.
use vstd::prelude::*;
use crate::ast::{
    Arm, Attribute, Block, Decl, Expr, ExprKind, FnItem, LocalSource, MatchSource, NodeId, Pat,
    PatKind, Span, Stmt, StmtKind,
};
use crate::diag::{Diagnostic, Message, Unsupported};
use crate::live::{self, spec_unique, spec_unique_opt, view_opt, LiveVar};
use crate::semantics::{
    lemma_common, lemma_carried, lemma_kept_locals, spec_branch_escapes, spec_kept_locals, spec_add_pat, spec_add_root, spec_add_roots,
    spec_add_subpats, spec_any_binds, spec_arms_bind, spec_binds, spec_branch_arms, spec_check_fn,
    spec_common, spec_carried, spec_dropped, spec_escape_reports, spec_iteration_end, spec_for_block, spec_initial, spec_is_for_expansion, spec_join, spec_pat_node,
    spec_update_loopout, spec_visit_arm, spec_visit_block, spec_visit_blocks, spec_visit_decl,
    spec_visit_expr, spec_visit_exprs, spec_visit_if, spec_visit_match, spec_visit_stmt,
    spec_visit_stmts, spec_walk_arms, spec_walk_block, spec_walk_expr, spec_walk_fn, Visit,
    VisitorState,
};
use crate::ty::can_drop;

verus! {

/// The state of the walk.
struct Visitor {
    map: Vec<LiveVar>,
    diverging: bool,
    breaking: bool,
    loopin: Option<Vec<LiveVar>>,
    loopout: Option<Vec<LiveVar>>,
}

impl View for Visitor {
    type V = VisitorState;

    closed spec fn view(&self) -> VisitorState {
        VisitorState {
            map: self.map@,
            diverging: self.diverging,
            breaking: self.breaking,
            loopin: view_opt(self.loopin),
            loopout: view_opt(self.loopout),
        }
    }
}

impl Visitor {
    fn fork(&self) -> (r: Visitor)
        ensures
            r@ == self@,
    {
        Visitor {
            map: live::copy(&self.map),
            diverging: self.diverging,
            breaking: self.breaking,
            loopin: live::copy_opt(&self.loopin),
            loopout: live::copy_opt(&self.loopout),
        }
    }
}

/// The view of an optional state.
spec fn view_last(v: Option<Visitor>) -> Option<VisitorState> {
    match v {
        Some(x) => Some(x@),
        None => None,
    }
}

spec fn last_wf(v: Option<Visitor>) -> bool {
    match v {
        Some(x) => x@.wf(),
        None => true,
    }
}

/// The walk went as `spec` says: the same outcome, final state and reports.
spec fn agrees(spec: Visit, r: Result<(), Unsupported>, st: VisitorState, out0: Seq<Diagnostic>, out1: Seq<Diagnostic>) -> bool {
    match spec {
        Ok((s, d)) => r is Ok && st == s && out1 == out0 + d && st.wf(),
        Err(u) => r == Err::<(), Unsupported>(u),
    }
}

// ---------------------------------------------------------------- patterns

fn add_pat(a: &Vec<Attribute>, root_droppable: bool, st: &mut Visitor, out: &mut Vec<Diagnostic>, p: &Pat)
    requires
        old(st)@.wf(),
    ensures
        final(st)@ == spec_add_pat(a@, root_droppable, old(st)@, *p).0,
        final(out)@ == old(out)@ + spec_add_pat(a@, root_droppable, old(st)@, *p).1,
        final(st)@.wf(),
    decreases p, 1nat,
{
    let ghost s0 = st@;
    let ghost o0 = out@;
    match &p.kind {
        PatKind::Ident(_) => {
            if p.ty.mentions_protected() {
                out.push(Diagnostic::new_note(p.span, Message::AddingProtected(p.id)));
                let droppable = can_drop(a, &p.ty);
                live::insert(&mut st.map, LiveVar { id: p.id, span: p.span, droppable });
            }
        },
        PatKind::Wild => {
            if p.ty.mentions_protected() && !root_droppable {
                out.push(Diagnostic::new_error(p.span, Message::ProtectedTypeDropped));
            }
        },
        _ => {},
    }
    assert(st@ == spec_pat_node(a@, root_droppable, s0, *p).0);
    assert(out@ == o0 + spec_pat_node(a@, root_droppable, s0, *p).1);
    match &p.kind {
        PatKind::Ident(Some(sub)) => {
            add_pat(a, root_droppable, st, out, sub);
            assert(out@ =~= o0 + spec_add_pat(a@, root_droppable, s0, *p).1);
        },
        PatKind::Compound(ps) => {
            add_subpats(a, root_droppable, st, out, ps);
            assert(out@ =~= o0 + spec_add_pat(a@, root_droppable, s0, *p).1);
        },
        _ => {},
    }
}

fn add_subpats(a: &Vec<Attribute>, root_droppable: bool, st: &mut Visitor, out: &mut Vec<Diagnostic>, ps: &Vec<Pat>)
    requires
        old(st)@.wf(),
    ensures
        final(st)@ == spec_add_subpats(a@, root_droppable, old(st)@, ps@).0,
        final(out)@ == old(out)@ + spec_add_subpats(a@, root_droppable, old(st)@, ps@).1,
        final(st)@.wf(),
    decreases ps, 0nat,
{
    let ghost s1 = st@;
    let ghost o1 = out@;
    let mut i: usize = 0;
    while i < ps.len()
        invariant
            i <= ps.len(),
            st@.wf(),
            st@ == spec_add_subpats(a@, root_droppable, s1, ps@.take(i as int)).0,
            out@ == o1 + spec_add_subpats(a@, root_droppable, s1, ps@.take(i as int)).1,
        decreases ps.len() - i,
    {
        assert(ps@.take(i as int + 1).drop_last() =~= ps@.take(i as int));
        assert(ps@.take(i as int + 1).last() == ps@[i as int]);
        add_pat(a, root_droppable, st, out, &ps[i]);
        i = i + 1;
        assert(out@ =~= o1 + spec_add_subpats(a@, root_droppable, s1, ps@.take(i as int)).1);
    }
    assert(ps@.take(i as int) =~= ps@);
}

fn add_root(a: &Vec<Attribute>, st: &mut Visitor, out: &mut Vec<Diagnostic>, p: &Pat)
    requires
        old(st)@.wf(),
    ensures
        final(st)@ == spec_add_root(a@, old(st)@, *p).0,
        final(out)@ == old(out)@ + spec_add_root(a@, old(st)@, *p).1,
        final(st)@.wf(),
{
    let root_droppable = can_drop(a, &p.ty);
    add_pat(a, root_droppable, st, out, p);
}

fn add_roots(a: &Vec<Attribute>, st: &mut Visitor, out: &mut Vec<Diagnostic>, ps: &Vec<Pat>)
    requires
        old(st)@.wf(),
    ensures
        final(st)@ == spec_add_roots(a@, old(st)@, ps@).0,
        final(out)@ == old(out)@ + spec_add_roots(a@, old(st)@, ps@).1,
        final(st)@.wf(),
{
    let ghost s0 = st@;
    let ghost o0 = out@;
    let mut i: usize = 0;
    while i < ps.len()
        invariant
            i <= ps.len(),
            st@.wf(),
            st@ == spec_add_roots(a@, s0, ps@.take(i as int)).0,
            out@ == o0 + spec_add_roots(a@, s0, ps@.take(i as int)).1,
        decreases ps.len() - i,
    {
        assert(ps@.take(i as int + 1).drop_last() =~= ps@.take(i as int));
        add_root(a, st, out, &ps[i]);
        i = i + 1;
        assert(out@ =~= o0 + spec_add_roots(a@, s0, ps@.take(i as int)).1);
    }
    assert(ps@.take(i as int) =~= ps@);
}

// ---------------------------------------------------------------- helpers

/// Reports "dropped var" for each local of `m` that may not be dropped.
fn report_dropped(m: &Vec<LiveVar>, out: &mut Vec<Diagnostic>)
    ensures
        final(out)@ == old(out)@ + spec_dropped(m@),
{
    let ghost o0 = out@;
    let mut i: usize = 0;
    while i < m.len()
        invariant
            i <= m.len(),
            out@ == o0 + spec_dropped(m@.take(i as int)),
        decreases m.len() - i,
    {
        assert(m@.take(i as int + 1).drop_last() =~= m@.take(i as int));
        if !m[i].droppable {
            out.push(Diagnostic::new_error(m[i].span, Message::DroppedVar));
        }
        i = i + 1;
        assert(out@ =~= o0 + spec_dropped(m@.take(i as int)));
    }
    assert(m@.take(i as int) =~= m@);
}

/// Reports "dropped var" for each local of `m`, not tracked at the loop head
/// `head`, that may not be dropped.
fn report_iteration_end(m: &Vec<LiveVar>, head: &Vec<LiveVar>, out: &mut Vec<Diagnostic>)
    requires
        spec_unique(head@),
    ensures
        final(out)@ == old(out)@ + spec_iteration_end(m@, head@),
{
    let ghost o0 = out@;
    let mut i: usize = 0;
    while i < m.len()
        invariant
            i <= m.len(),
            spec_unique(head@),
            out@ == o0 + spec_iteration_end(m@.take(i as int), head@),
        decreases m.len() - i,
    {
        assert(m@.take(i as int + 1).drop_last() =~= m@.take(i as int));
        if !m[i].droppable && !live::contains(head, m[i].id) {
            out.push(Diagnostic::new_error(m[i].span, Message::DroppedVar));
        }
        i = i + 1;
        assert(out@ =~= o0 + spec_iteration_end(m@.take(i as int), head@));
    }
    assert(m@.take(i as int) =~= m@);
}

/// The entries of `m` that are also entries of `other`.
fn common_entries(m: &Vec<LiveVar>, other: &Vec<LiveVar>) -> (r: Vec<LiveVar>)
    ensures
        r@ == spec_common(m@, other@),
{
    let mut r: Vec<LiveVar> = Vec::new();
    let mut i: usize = 0;
    while i < m.len()
        invariant
            i <= m.len(),
            r@ == spec_common(m@.take(i as int), other@),
        decreases m.len() - i,
    {
        assert(m@.take(i as int + 1).drop_last() =~= m@.take(i as int));
        if live::has_entry(other, m[i]) {
            r.push(m[i]);
        }
        i = i + 1;
        assert(r@ =~= spec_common(m@.take(i as int), other@));
    }
    assert(m@.take(i as int) =~= m@);
    r
}

/// Reports "Match arms are not linear" for each local of `m` that `pre` does
/// not track.
fn report_branch_escapes(m: &Vec<LiveVar>, pre: &Vec<LiveVar>, span: Span, out: &mut Vec<Diagnostic>)
    requires
        spec_unique(pre@),
    ensures
        final(out)@ == old(out)@ + spec_branch_escapes(m@, pre@, span),
{
    let ghost o0 = out@;
    let mut i: usize = 0;
    while i < m.len()
        invariant
            i <= m.len(),
            spec_unique(pre@),
            out@ == o0 + spec_branch_escapes(m@.take(i as int), pre@, span),
        decreases m.len() - i,
    {
        assert(m@.take(i as int + 1).drop_last() =~= m@.take(i as int));
        if !live::contains(pre, m[i].id) {
            out.push(Diagnostic::new_error(span, Message::MatchArmsNotLinear));
        }
        i = i + 1;
        assert(out@ =~= o0 + spec_branch_escapes(m@.take(i as int), pre@, span));
    }
    assert(m@.take(i as int) =~= m@);
}

/// The entries of `m` whose locals `pre` tracks.
fn kept_locals(m: &Vec<LiveVar>, pre: &Vec<LiveVar>) -> (r: Vec<LiveVar>)
    requires
        spec_unique(pre@),
    ensures
        r@ == spec_kept_locals(m@, pre@),
{
    let mut r: Vec<LiveVar> = Vec::new();
    let mut i: usize = 0;
    while i < m.len()
        invariant
            i <= m.len(),
            spec_unique(pre@),
            r@ == spec_kept_locals(m@.take(i as int), pre@),
        decreases m.len() - i,
    {
        assert(m@.take(i as int + 1).drop_last() =~= m@.take(i as int));
        if live::contains(pre, m[i].id) {
            r.push(m[i]);
        }
        i = i + 1;
        assert(r@ =~= spec_kept_locals(m@.take(i as int), pre@));
    }
    assert(m@.take(i as int) =~= m@);
    r
}

/// Whether the pattern `p` binds `x`.
fn pat_binds(p: &Pat, x: NodeId) -> (r: bool)
    ensures
        r == spec_binds(*p, x),
    decreases p, 1nat,
{
    match &p.kind {
        PatKind::Ident(Some(sub)) => p.id == x || pat_binds(sub, x),
        PatKind::Ident(None) => p.id == x,
        PatKind::Compound(ps) => any_binds(ps, x),
        _ => false,
    }
}

/// Whether one of the patterns `ps` binds `x`.
fn any_binds(ps: &Vec<Pat>, x: NodeId) -> (r: bool)
    ensures
        r == spec_any_binds(ps@, x),
    decreases ps, 0nat,
{
    let mut found = false;
    let mut i: usize = 0;
    while i < ps.len()
        invariant
            i <= ps.len(),
            found == spec_any_binds(ps@.take(i as int), x),
        decreases ps.len() - i,
    {
        assert(ps@.take(i as int + 1).drop_last() =~= ps@.take(i as int));
        assert(ps@.take(i as int + 1).last() == ps@[i as int]);
        let b = pat_binds(&ps[i], x);
        found = found || b;
        i = i + 1;
    }
    assert(ps@.take(i as int) =~= ps@);
    found
}

/// Whether a pattern of one of `arms` binds `x`.
fn arms_bind(arms: &Vec<Arm>, x: NodeId) -> (r: bool)
    ensures
        r == spec_arms_bind(arms@, x),
{
    let mut found = false;
    let mut i: usize = 0;
    while i < arms.len()
        invariant
            i <= arms.len(),
            found == spec_arms_bind(arms@.take(i as int), x),
        decreases arms.len() - i,
    {
        assert(arms@.take(i as int + 1).drop_last() =~= arms@.take(i as int));
        assert(arms@.take(i as int + 1).last() == arms@[i as int]);
        let b = any_binds(&arms[i].pats, x);
        found = found || b;
        i = i + 1;
    }
    assert(arms@.take(i as int) =~= arms@);
    found
}

/// Reports "Match arms are not linear" for each local of `m` that an arm's
/// pattern bound and that `pre` does not track.
fn report_escapes(m: &Vec<LiveVar>, pre: &Vec<LiveVar>, arms: &Vec<Arm>, span: Span, out: &mut Vec<Diagnostic>)
    requires
        spec_unique(pre@),
    ensures
        final(out)@ == old(out)@ + spec_escape_reports(m@, pre@, arms@, span),
{
    let ghost o0 = out@;
    let mut i: usize = 0;
    while i < m.len()
        invariant
            i <= m.len(),
            spec_unique(pre@),
            out@ == o0 + spec_escape_reports(m@.take(i as int), pre@, arms@, span),
        decreases m.len() - i,
    {
        assert(m@.take(i as int + 1).drop_last() =~= m@.take(i as int));
        let bound = arms_bind(arms, m[i].id);
        if bound && !live::contains(pre, m[i].id) {
            out.push(Diagnostic::new_error(span, Message::MatchArmsNotLinear));
        }
        i = i + 1;
        assert(out@ =~= o0 + spec_escape_reports(m@.take(i as int), pre@, arms@, span));
    }
    assert(m@.take(i as int) =~= m@);
}

/// The entries of `m` carried past a `match`: those that no arm's pattern
/// bound anew, and that `pre` tracks or `common` holds.
fn carried(m: &Vec<LiveVar>, common: &Vec<LiveVar>, pre: &Vec<LiveVar>, arms: &Vec<Arm>) -> (r: Vec<LiveVar>)
    requires
        spec_unique(pre@),
    ensures
        r@ == spec_carried(m@, common@, pre@, arms@),
{
    let mut r: Vec<LiveVar> = Vec::new();
    let mut i: usize = 0;
    while i < m.len()
        invariant
            i <= m.len(),
            spec_unique(pre@),
            r@ == spec_carried(m@.take(i as int), common@, pre@, arms@),
        decreases m.len() - i,
    {
        assert(m@.take(i as int + 1).drop_last() =~= m@.take(i as int));
        let bound = arms_bind(arms, m[i].id);
        let known = live::contains(pre, m[i].id);
        if !(bound && !known) && (known || live::has_entry(common, m[i])) {
            r.push(m[i]);
        }
        i = i + 1;
        assert(r@ =~= spec_carried(m@.take(i as int), common@, pre@, arms@));
    }
    assert(m@.take(i as int) =~= m@);
    r
}

fn report_branch_exit(st: &mut Visitor, out: &mut Vec<Diagnostic>, span: Span, lo: &Option<Vec<LiveVar>>)
    requires
        old(st)@.wf(),
        spec_unique_opt(view_opt(*lo)),
    ensures
        final(st)@ == spec_update_loopout(old(st)@, span, view_opt(*lo)).0,
        final(out)@ == old(out)@ + spec_update_loopout(old(st)@, span, view_opt(*lo)).1,
        final(st)@.wf(),
{
    let ghost o0 = out@;
    let agrees = live::update_loopout(&mut st.loopout, lo);
    if !agrees {
        out.push(Diagnostic::new_error(span, Message::DivergingLoopout));
    }
    assert(out@ =~= o0 + spec_update_loopout(old(st)@, span, view_opt(*lo)).1);
}

fn join(st: &mut Visitor, last: Option<Visitor>)
    requires
        old(st)@.wf(),
        last_wf(last),
    ensures
        spec_join(old(st)@, view_last(last), seq![]) == Ok::<(VisitorState, Seq<Diagnostic>), Unsupported>((final(st)@, seq![])),
        final(st)@.wf(),
{
    match last {
        Some(o) => {
            st.map = o.map;
            st.breaking = o.breaking;
        },
        None => {
            st.diverging = true;
        },
    }
}

/// Whether `arms` are those of a `for` loop expansion.
fn is_for_expansion(arms: &Vec<Arm>) -> (r: bool)
    ensures
        r == spec_is_for_expansion(arms@),
{
    if arms.len() != 1 {
        return false;
    }
    match &arms[0].body.kind {
        ExprKind::Loop(b) => match &b.expr {
            Some(x) => match &x.kind {
                ExprKind::Match(_, _, src) => *src == MatchSource::ForLoopDesugar,
                _ => false,
            },
            None => false,
        },
        _ => false,
    }
}

// ---------------------------------------------------------------- folds

proof fn lemma_exprs_err(a: Seq<Attribute>, s: VisitorState, es: Seq<Expr>, k: int)
    requires
        0 <= k <= es.len(),
        spec_visit_exprs(a, s, es.take(k)) is Err,
    ensures
        spec_visit_exprs(a, s, es) == spec_visit_exprs(a, s, es.take(k)),
    decreases es.len() - k,
{
    if k < es.len() {
        assert(es.take(k + 1).drop_last() =~= es.take(k));
        lemma_exprs_err(a, s, es, k + 1);
    } else {
        assert(es.take(k) =~= es);
    }
}

proof fn lemma_stmts_err(a: Seq<Attribute>, s: VisitorState, ss: Seq<Stmt>, k: int)
    requires
        0 <= k <= ss.len(),
        spec_visit_stmts(a, s, ss.take(k)) is Err,
    ensures
        spec_visit_stmts(a, s, ss) == spec_visit_stmts(a, s, ss.take(k)),
    decreases ss.len() - k,
{
    if k < ss.len() {
        assert(ss.take(k + 1).drop_last() =~= ss.take(k));
        lemma_stmts_err(a, s, ss, k + 1);
    } else {
        assert(ss.take(k) =~= ss);
    }
}

proof fn lemma_blocks_err(a: Seq<Attribute>, s: VisitorState, bs: Seq<Block>, k: int)
    requires
        0 <= k <= bs.len(),
        spec_visit_blocks(a, s, bs.take(k)) is Err,
    ensures
        spec_visit_blocks(a, s, bs) == spec_visit_blocks(a, s, bs.take(k)),
    decreases bs.len() - k,
{
    if k < bs.len() {
        assert(bs.take(k + 1).drop_last() =~= bs.take(k));
        lemma_blocks_err(a, s, bs, k + 1);
    } else {
        assert(bs.take(k) =~= bs);
    }
}

proof fn lemma_walk_arms_err(a: Seq<Attribute>, s: VisitorState, arms: Seq<Arm>, k: int)
    requires
        0 <= k <= arms.len(),
        spec_walk_arms(a, s, arms.take(k)) is Err,
    ensures
        spec_walk_arms(a, s, arms) == spec_walk_arms(a, s, arms.take(k)),
    decreases arms.len() - k,
{
    if k < arms.len() {
        assert(arms.take(k + 1).drop_last() =~= arms.take(k));
        lemma_walk_arms_err(a, s, arms, k + 1);
    } else {
        assert(arms.take(k) =~= arms);
    }
}

proof fn lemma_branch_arms_err(a: Seq<Attribute>, s: VisitorState, span: Span, arms: Seq<Arm>, k: int)
    requires
        0 <= k <= arms.len(),
        spec_branch_arms(a, s, span, arms.take(k)) is Err,
    ensures
        spec_branch_arms(a, s, span, arms) == spec_branch_arms(a, s, span, arms.take(k)),
    decreases arms.len() - k,
{
    if k < arms.len() {
        assert(arms.take(k + 1).drop_last() =~= arms.take(k));
        lemma_branch_arms_err(a, s, span, arms, k + 1);
    } else {
        assert(arms.take(k) =~= arms);
    }
}

// ---------------------------------------------------------------- expressions

fn visit_expr(a: &Vec<Attribute>, st: &mut Visitor, out: &mut Vec<Diagnostic>, e: &Expr) -> (r: Result<(), Unsupported>)
    requires
        old(st)@.wf(),
    ensures
        agrees(spec_visit_expr(a@, old(st)@, *e), r, final(st)@, old(out)@, final(out)@),
    decreases e, 2nat,
{
    let ghost s0 = st@;
    let ghost o0 = out@;
    if st.diverging || st.breaking {
        assert(out@ =~= o0 + seq![]);
        return Ok(());
    }
    match &e.kind {
        ExprKind::Assign(lhs, rhs) => {
            visit_expr(a, st, out, rhs)?;
            match &lhs.kind {
                ExprKind::Path(Some(id)) => {
                    if live::contains(&st.map, *id) {
                        out.push(Diagnostic::new_error(lhs.span, Message::CannotOverwrite));
                    } else if lhs.ty.mentions_protected() {
                        let droppable = can_drop(a, &lhs.ty);
                        live::insert(&mut st.map, LiveVar { id: *id, span: e.span, droppable });
                    }
                    assert(agrees(spec_visit_expr(a@, s0, *e), Ok::<(), Unsupported>(()), st@, o0, out@));
                    Ok(())
                },
                ExprKind::Path(None) => Err(Unsupported::AssignToNonLocal),
                _ => Err(Unsupported::AssignToPlace),
            }
        },
        ExprKind::Path(Some(id)) => {
            if live::contains(&st.map, *id) {
                out.push(Diagnostic::new_note(e.span, Message::ConsumingProtected));
                live::remove(&mut st.map, *id);
                assert(out@ =~= o0 + seq![crate::diag::note(e.span, Message::ConsumingProtected)]);
            } else {
                assert(out@ =~= o0 + seq![]);
            }
            assert(agrees(spec_visit_expr(a@, s0, *e), Ok::<(), Unsupported>(()), st@, o0, out@));
            Ok(())
        },
        ExprKind::AddrOf(inner) => match &inner.kind {
            ExprKind::Path(_) => {
                assert(out@ =~= o0 + seq![]);
                Ok(())
            },
            _ => visit_expr(a, st, out, inner),
        },
        ExprKind::If(_, _, _) => visit_if(a, st, out, e),
        ExprKind::Match(_, _, _) => visit_match(a, st, out, e),
        ExprKind::Ret(r) => {
            match r {
                Some(x) => {
                    visit_expr(a, st, out, x)?;
                },
                None => {
                    assert(out@ =~= o0 + seq![]);
                },
            }
            report_dropped(&st.map, out);
            st.diverging = true;
            assert(out@ =~= o0 + spec_visit_expr(a@, s0, *e)->Ok_0.1);
            Ok(())
        },
        ExprKind::Loop(body) => {
            let mut t = st.fork();
            t.loopin = Some(live::copy(&st.map));
            visit_block(a, &mut t, out, body)?;
            if !t.diverging {
                if !t.breaking {
                    report_iteration_end(&t.map, &st.map, out);
                }
                match t.loopout {
                    Some(o) => {
                        st.map = o;
                    },
                    None => {},
                }
            } else {
                st.diverging = true;
            }
            assert(out@ =~= o0 + spec_visit_expr(a@, s0, *e)->Ok_0.1);
            assert(agrees(spec_visit_expr(a@, s0, *e), Ok::<(), Unsupported>(()), st@, o0, out@));
            Ok(())
        },
        ExprKind::While(_, _) => Err(Unsupported::While),
        ExprKind::Break(label) => {
            if label.is_some() {
                return Err(Unsupported::LabelledBreak);
            }
            match &st.loopout {
                Some(o) => {
                    if !live::same(&st.map, o) {
                        out.push(Diagnostic::new_error(e.span, Message::DivergingBreak));
                        assert(out@ =~= o0 + seq![crate::diag::error(e.span, Message::DivergingBreak)]);
                    } else {
                        assert(out@ =~= o0 + seq![]);
                    }
                },
                None => {
                    st.loopout = Some(live::copy(&st.map));
                    assert(out@ =~= o0 + seq![]);
                },
            }
            st.breaking = true;
            assert(agrees(spec_visit_expr(a@, s0, *e), Ok::<(), Unsupported>(()), st@, o0, out@));
            Ok(())
        },
        ExprKind::Again(label) => {
            if label.is_some() {
                return Err(Unsupported::LabelledContinue);
            }
            match &st.loopin {
                Some(inc) => {
                    if !live::same(&st.map, inc) {
                        out.push(Diagnostic::new_error(e.span, Message::DivergingContinue));
                        assert(out@ =~= o0 + seq![crate::diag::error(e.span, Message::DivergingContinue)]);
                    } else {
                        assert(out@ =~= o0 + seq![]);
                    }
                },
                None => {
                    return Err(Unsupported::ContinueOutsideLoop);
                },
            }
            st.breaking = true;
            assert(agrees(spec_visit_expr(a@, s0, *e), Ok::<(), Unsupported>(()), st@, o0, out@));
            Ok(())
        },
        _ => walk_expr(a, st, out, e),
    }
}

#[verifier::spinoff_prover]
#[verifier::rlimit(50)]
fn visit_if(a: &Vec<Attribute>, st: &mut Visitor, out: &mut Vec<Diagnostic>, e: &Expr) -> (r: Result<(), Unsupported>)
    requires
        old(st)@.wf(),
    ensures
        agrees(spec_visit_if(a@, old(st)@, *e), r, final(st)@, old(out)@, final(out)@),
    decreases e, 1nat,
{
    let ghost s0 = st@;
    let ghost o0 = out@;
    match &e.kind {
        ExprKind::If(_, then_block, els) => {
            let mut v = st.fork();
            visit_block(a, &mut v, out, then_block)?;
            match els {
                None => {
                    if !v.diverging {
                        report_branch_exit(st, out, e.span, &v.loopout);
                    }
                    if !v.diverging && !v.breaking {
                        if !live::same(&v.map, &st.map) {
                            out.push(Diagnostic::new_error(e.span, Message::IfBranchNotLinear));
                        }
                        st.map = v.map;
                    }
                    assert(out@ =~= o0 + spec_visit_if(a@, s0, *e)->Ok_0.1);
                },
                Some(x) => {
                    let mut last: Option<Visitor> = None;
                    if !v.diverging {
                        report_branch_exit(st, out, e.span, &v.loopout);
                        last = Some(v);
                    }
                    let mut w = st.fork();
                    visit_expr(a, &mut w, out, x)?;
                    if !w.diverging {
                        report_branch_exit(st, out, e.span, &w.loopout);
                        match &last {
                            Some(t) => {
                                if !t.breaking {
                                    if !w.breaking && !live::same(&t.map, &w.map) {
                                        out.push(Diagnostic::new_error(e.span, Message::IfBranchesNotLinear));
                                    } else if w.breaking && !live::same(&t.map, &st.map) {
                                        out.push(Diagnostic::new_error(e.span, Message::IfBranchesNotLinear));
                                    }
                                    w.breaking = false;
                                } else if !w.breaking {
                                    report_branch_escapes(&w.map, &st.map, e.span, out);
                                    proof {
                                        lemma_kept_locals(w.map@, st.map@);
                                    }
                                    w.map = kept_locals(&w.map, &st.map);
                                }
                            },
                            None => {},
                        }
                        last = Some(w);
                    }
                    join(st, last);
                    assert(out@ =~= o0 + spec_visit_if(a@, s0, *e)->Ok_0.1);
                },
            }
            Ok(())
        },
        _ => {
            assert(out@ =~= o0 + seq![]);
            Ok(())
        },
    }
}

fn visit_match(a: &Vec<Attribute>, st: &mut Visitor, out: &mut Vec<Diagnostic>, e: &Expr) -> (r: Result<(), Unsupported>)
    requires
        old(st)@.wf(),
    ensures
        agrees(spec_visit_match(a@, old(st)@, *e), r, final(st)@, old(out)@, final(out)@),
    decreases e, 1nat,
{
    let ghost s0 = st@;
    let ghost o0 = out@;
    match &e.kind {
        ExprKind::Match(scrutinee, arms, _) => {
            visit_expr(a, st, out, scrutinee)?;
            if is_for_expansion(arms) {
                out.push(Diagnostic::new_note(e.span, Message::ForLoopExpansion));
                match &arms[0].body.kind {
                    ExprKind::Loop(b) => {
                        assert(*b == spec_for_block(arms@));
                        let mut t = st.fork();
                        visit_block(a, &mut t, out, b)?;
                        if !t.diverging {
                            match &t.loopout {
                                Some(hm) => {
                                    if !live::same(&t.map, hm) {
                                        out.push(Diagnostic::new_error(e.span, Message::NonLinearForLoop));
                                    } else {
                                        st.map = live::copy(&t.map);
                                    }
                                },
                                None => {},
                            }
                        } else {
                            st.diverging = true;
                        }
                        assert(out@ =~= o0 + spec_visit_match(a@, s0, *e)->Ok_0.1);
                        Ok(())
                    },
                    _ => {
                        assert(false);
                        Ok(())
                    },
                }
            } else {
                let pre = live::copy(&st.map);
                let (last, common) = branch_arms(a, st, out, e.span, arms)?;
                match last {
                    None => {
                        st.diverging = true;
                    },
                    Some(o) => {
                        report_escapes(&o.map, &pre, arms, e.span, out);
                        proof {
                            lemma_carried(o.map@, common@, pre@, arms@);
                        }
                        st.map = carried(&o.map, &common, &pre, arms);
                        st.breaking = o.breaking;
                    },
                }
                assert(out@ =~= o0 + spec_visit_match(a@, s0, *e)->Ok_0.1);
                Ok(())
            }
        },
        _ => {
            assert(out@ =~= o0 + seq![]);
            Ok(())
        },
    }
}

fn branch_arms(a: &Vec<Attribute>, st: &mut Visitor, out: &mut Vec<Diagnostic>, span: Span, arms: &Vec<Arm>) -> (r: Result<(Option<Visitor>, Vec<LiveVar>), Unsupported>)
    requires
        old(st)@.wf(),
    ensures
        match spec_branch_arms(a@, old(st)@, span, arms@) {
            Ok((s, l, c, d)) => r matches Ok((last, common)) && final(st)@ == s && view_last(last) == l && common@ == c
                && final(out)@ == old(out)@ + d && final(st)@.wf() && last_wf(last) && spec_unique(common@),
            Err(u) => r matches Err(u2) && u2 == u,
        },
    decreases arms, 0nat,
{
    let ghost s0 = st@;
    let ghost o0 = out@;
    let mut last: Option<Visitor> = None;
    let mut common: Vec<LiveVar> = Vec::new();
    let mut i: usize = 0;
    while i < arms.len()
        invariant
            i <= arms.len(),
            s0 == old(st)@,
            o0 == old(out)@,
            st@.wf(),
            last_wf(last),
            spec_unique(common@),
            spec_branch_arms(a@, s0, span, arms@.take(i as int)) matches Ok((s, l, c, d)) && st@ == s && view_last(last) == l
                && common@ == c && out@ == o0 + d,
        decreases arms.len() - i,
    {
        assert(arms@.take(i as int + 1).drop_last() =~= arms@.take(i as int));
        assert(arms@.take(i as int + 1).last() == arms@[i as int]);
        let mut v = st.fork();
        let rv = visit_arm(a, &mut v, out, &arms[i]);
        match rv {
            Err(u) => {
                proof {
                    lemma_branch_arms_err(a@, s0, span, arms@, i as int + 1);
                }
                return Err(u);
            },
            Ok(()) => {},
        }
        if !v.diverging {
            report_branch_exit(st, out, span, &v.loopout);
            match &last {
                Some(t) => {
                    let tb = t.breaking;
                    if !live::same(&t.map, &v.map) {
                        out.push(Diagnostic::new_error(span, Message::MatchArmsNotLinear));
                    }
                    proof {
                        lemma_common(common@, v.map@);
                    }
                    common = common_entries(&common, &v.map);
                    if !tb {
                        v.breaking = false;
                    }
                },
                None => {
                    common = live::copy(&v.map);
                },
            }
            last = Some(v);
        }
        i = i + 1;
        assert(out@ =~= o0 + spec_branch_arms(a@, s0, span, arms@.take(i as int))->Ok_0.3);
    }
    assert(arms@.take(i as int) =~= arms@);
    Ok((last, common))
}

fn visit_arm(a: &Vec<Attribute>, st: &mut Visitor, out: &mut Vec<Diagnostic>, arm: &Arm) -> (r: Result<(), Unsupported>)
    requires
        old(st)@.wf(),
    ensures
        agrees(spec_visit_arm(a@, old(st)@, *arm), r, final(st)@, old(out)@, final(out)@),
    decreases arm, 0nat,
{
    let ghost o0 = out@;
    add_roots(a, st, out, &arm.pats);
    if arm.guard.is_some() {
        return Err(Unsupported::ArmGuard);
    }
    let r = walk_expr(a, st, out, &arm.body);
    assert(r is Ok ==> out@ =~= o0 + spec_visit_arm(a@, old(st)@, *arm)->Ok_0.1);
    r
}

fn walk_arms(a: &Vec<Attribute>, st: &mut Visitor, out: &mut Vec<Diagnostic>, arms: &Vec<Arm>) -> (r: Result<(), Unsupported>)
    requires
        old(st)@.wf(),
    ensures
        agrees(spec_walk_arms(a@, old(st)@, arms@), r, final(st)@, old(out)@, final(out)@),
    decreases arms, 0nat,
{
    let ghost s0 = st@;
    let ghost o0 = out@;
    let mut i: usize = 0;
    while i < arms.len()
        invariant
            i <= arms.len(),
            s0 == old(st)@,
            o0 == old(out)@,
            agrees(spec_walk_arms(a@, s0, arms@.take(i as int)), Ok::<(), Unsupported>(()), st@, o0, out@),
        decreases arms.len() - i,
    {
        assert(arms@.take(i as int + 1).drop_last() =~= arms@.take(i as int));
        assert(arms@.take(i as int + 1).last() == arms@[i as int]);
        let rv = visit_arm(a, st, out, &arms[i]);
        match rv {
            Err(u) => {
                proof {
                    lemma_walk_arms_err(a@, s0, arms@, i as int + 1);
                }
                return Err(u);
            },
            Ok(()) => {},
        }
        i = i + 1;
        assert(out@ =~= o0 + spec_walk_arms(a@, s0, arms@.take(i as int))->Ok_0.1);
    }
    assert(arms@.take(i as int) =~= arms@);
    Ok(())
}

fn visit_exprs(a: &Vec<Attribute>, st: &mut Visitor, out: &mut Vec<Diagnostic>, es: &Vec<Expr>) -> (r: Result<(), Unsupported>)
    requires
        old(st)@.wf(),
    ensures
        agrees(spec_visit_exprs(a@, old(st)@, es@), r, final(st)@, old(out)@, final(out)@),
    decreases es, 0nat,
{
    let ghost s0 = st@;
    let ghost o0 = out@;
    let mut i: usize = 0;
    while i < es.len()
        invariant
            i <= es.len(),
            s0 == old(st)@,
            o0 == old(out)@,
            agrees(spec_visit_exprs(a@, s0, es@.take(i as int)), Ok::<(), Unsupported>(()), st@, o0, out@),
        decreases es.len() - i,
    {
        assert(es@.take(i as int + 1).drop_last() =~= es@.take(i as int));
        assert(es@.take(i as int + 1).last() == es@[i as int]);
        let rv = visit_expr(a, st, out, &es[i]);
        match rv {
            Err(u) => {
                proof {
                    lemma_exprs_err(a@, s0, es@, i as int + 1);
                }
                return Err(u);
            },
            Ok(()) => {},
        }
        i = i + 1;
        assert(out@ =~= o0 + spec_visit_exprs(a@, s0, es@.take(i as int))->Ok_0.1);
    }
    assert(es@.take(i as int) =~= es@);
    Ok(())
}

fn walk_expr(a: &Vec<Attribute>, st: &mut Visitor, out: &mut Vec<Diagnostic>, e: &Expr) -> (r: Result<(), Unsupported>)
    requires
        old(st)@.wf(),
    ensures
        agrees(spec_walk_expr(a@, old(st)@, *e), r, final(st)@, old(out)@, final(out)@),
    decreases e, 0nat,
{
    let ghost s0 = st@;
    let ghost o0 = out@;
    match &e.kind {
        ExprKind::Path(_) => {
            assert(out@ =~= o0 + seq![]);
            Ok(())
        },
        ExprKind::Assign(lhs, rhs) => {
            visit_expr(a, st, out, rhs)?;
            let r = visit_expr(a, st, out, lhs);
            assert(r is Ok ==> out@ =~= o0 + spec_walk_expr(a@, s0, *e)->Ok_0.1);
            r
        },
        ExprKind::AddrOf(inner) => visit_expr(a, st, out, inner),
        ExprKind::If(cond, then_block, els) => {
            visit_expr(a, st, out, cond)?;
            visit_block(a, st, out, then_block)?;
            match els {
                Some(x) => {
                    let r = visit_expr(a, st, out, x);
                    assert(r is Ok ==> out@ =~= o0 + spec_walk_expr(a@, s0, *e)->Ok_0.1);
                    r
                },
                None => {
                    assert(out@ =~= o0 + spec_walk_expr(a@, s0, *e)->Ok_0.1);
                    Ok(())
                },
            }
        },
        ExprKind::Match(scrutinee, arms, _) => {
            visit_expr(a, st, out, scrutinee)?;
            let r = walk_arms(a, st, out, arms);
            assert(r is Ok ==> out@ =~= o0 + spec_walk_expr(a@, s0, *e)->Ok_0.1);
            r
        },
        ExprKind::Loop(body) => visit_block(a, st, out, body),
        ExprKind::While(cond, body) => {
            visit_expr(a, st, out, cond)?;
            let r = visit_block(a, st, out, body);
            assert(r is Ok ==> out@ =~= o0 + spec_walk_expr(a@, s0, *e)->Ok_0.1);
            r
        },
        ExprKind::Ret(r) => match r {
            Some(x) => visit_expr(a, st, out, x),
            None => {
                assert(out@ =~= o0 + seq![]);
                Ok(())
            },
        },
        ExprKind::Break(_) => {
            assert(out@ =~= o0 + seq![]);
            Ok(())
        },
        ExprKind::Again(_) => {
            assert(out@ =~= o0 + seq![]);
            Ok(())
        },
        ExprKind::Block(b) => visit_block(a, st, out, b),
        ExprKind::Other(es) => visit_exprs(a, st, out, es),
    }
}

// ---------------------------------------------------------------- blocks

fn visit_block(a: &Vec<Attribute>, st: &mut Visitor, out: &mut Vec<Diagnostic>, b: &Block) -> (r: Result<(), Unsupported>)
    requires
        old(st)@.wf(),
    ensures
        agrees(spec_visit_block(a@, old(st)@, *b), r, final(st)@, old(out)@, final(out)@),
    decreases b, 1nat,
{
    let ghost s0 = st@;
    let ghost o0 = out@;
    walk_block(a, st, out, b)?;
    match &b.expr {
        Some(x) => {
            if !st.diverging && x.ty.protected {
                let r = walk_expr(a, st, out, x);
                assert(r is Ok ==> out@ =~= o0 + spec_visit_block(a@, s0, *b)->Ok_0.1);
                r
            } else {
                Ok(())
            }
        },
        None => Ok(()),
    }
}

fn walk_block(a: &Vec<Attribute>, st: &mut Visitor, out: &mut Vec<Diagnostic>, b: &Block) -> (r: Result<(), Unsupported>)
    requires
        old(st)@.wf(),
    ensures
        agrees(spec_walk_block(a@, old(st)@, *b), r, final(st)@, old(out)@, final(out)@),
    decreases b, 0nat,
{
    let ghost s0 = st@;
    let ghost o0 = out@;
    visit_stmts(a, st, out, &b.stmts)?;
    match &b.expr {
        Some(x) => {
            let r = visit_expr(a, st, out, x);
            assert(r is Ok ==> out@ =~= o0 + spec_walk_block(a@, s0, *b)->Ok_0.1);
            r
        },
        None => Ok(()),
    }
}

fn visit_stmts(a: &Vec<Attribute>, st: &mut Visitor, out: &mut Vec<Diagnostic>, ss: &Vec<Stmt>) -> (r: Result<(), Unsupported>)
    requires
        old(st)@.wf(),
    ensures
        agrees(spec_visit_stmts(a@, old(st)@, ss@), r, final(st)@, old(out)@, final(out)@),
    decreases ss, 0nat,
{
    let ghost s0 = st@;
    let ghost o0 = out@;
    let mut i: usize = 0;
    while i < ss.len()
        invariant
            i <= ss.len(),
            s0 == old(st)@,
            o0 == old(out)@,
            agrees(spec_visit_stmts(a@, s0, ss@.take(i as int)), Ok::<(), Unsupported>(()), st@, o0, out@),
        decreases ss.len() - i,
    {
        assert(ss@.take(i as int + 1).drop_last() =~= ss@.take(i as int));
        assert(ss@.take(i as int + 1).last() == ss@[i as int]);
        let rv = visit_stmt(a, st, out, &ss[i]);
        match rv {
            Err(u) => {
                proof {
                    lemma_stmts_err(a@, s0, ss@, i as int + 1);
                }
                return Err(u);
            },
            Ok(()) => {},
        }
        i = i + 1;
        assert(out@ =~= o0 + spec_visit_stmts(a@, s0, ss@.take(i as int))->Ok_0.1);
    }
    assert(ss@.take(i as int) =~= ss@);
    Ok(())
}

fn visit_blocks(a: &Vec<Attribute>, st: &mut Visitor, out: &mut Vec<Diagnostic>, bs: &Vec<Block>) -> (r: Result<(), Unsupported>)
    requires
        old(st)@.wf(),
    ensures
        agrees(spec_visit_blocks(a@, old(st)@, bs@), r, final(st)@, old(out)@, final(out)@),
    decreases bs, 0nat,
{
    let ghost s0 = st@;
    let ghost o0 = out@;
    let mut i: usize = 0;
    while i < bs.len()
        invariant
            i <= bs.len(),
            s0 == old(st)@,
            o0 == old(out)@,
            agrees(spec_visit_blocks(a@, s0, bs@.take(i as int)), Ok::<(), Unsupported>(()), st@, o0, out@),
        decreases bs.len() - i,
    {
        assert(bs@.take(i as int + 1).drop_last() =~= bs@.take(i as int));
        assert(bs@.take(i as int + 1).last() == bs@[i as int]);
        let rv = visit_block(a, st, out, &bs[i]);
        match rv {
            Err(u) => {
                proof {
                    lemma_blocks_err(a@, s0, bs@, i as int + 1);
                }
                return Err(u);
            },
            Ok(()) => {},
        }
        i = i + 1;
        assert(out@ =~= o0 + spec_visit_blocks(a@, s0, bs@.take(i as int))->Ok_0.1);
    }
    assert(bs@.take(i as int) =~= bs@);
    Ok(())
}

fn visit_stmt(a: &Vec<Attribute>, st: &mut Visitor, out: &mut Vec<Diagnostic>, s: &Stmt) -> (r: Result<(), Unsupported>)
    requires
        old(st)@.wf(),
    ensures
        agrees(spec_visit_stmt(a@, old(st)@, *s), r, final(st)@, old(out)@, final(out)@),
    decreases s, 1nat,
{
    let ghost s0 = st@;
    let ghost o0 = out@;
    if st.diverging {
        assert(out@ =~= o0 + seq![]);
        return Ok(());
    }
    match &s.kind {
        StmtKind::Decl(d) => visit_decl(a, st, out, d),
        StmtKind::Expr(x) => visit_expr(a, st, out, x),
        StmtKind::Semi(x) => {
            if x.ty.protected {
                out.push(Diagnostic::new_error(s.span, Message::ProtectedValueUnused));
            }
            let r = visit_expr(a, st, out, x);
            assert(r is Ok ==> out@ =~= o0 + spec_visit_stmt(a@, s0, *s)->Ok_0.1);
            r
        },
    }
}

fn visit_decl(a: &Vec<Attribute>, st: &mut Visitor, out: &mut Vec<Diagnostic>, d: &Decl) -> (r: Result<(), Unsupported>)
    requires
        old(st)@.wf(),
    ensures
        agrees(spec_visit_decl(a@, old(st)@, *d), r, final(st)@, old(out)@, final(out)@),
    decreases d, 0nat,
{
    let ghost s0 = st@;
    let ghost o0 = out@;
    match d {
        Decl::Local(l) => {
            if l.source == LocalSource::ForLoop {
                return Err(Unsupported::ForLoopLocal);
            }
            match &l.init {
                Some(x) => {
                    visit_expr(a, st, out, x)?;
                },
                None => {
                    assert(out@ =~= o0 + seq![]);
                },
            }
            add_root(a, st, out, &l.pat);
            assert(out@ =~= o0 + spec_visit_decl(a@, s0, *d)->Ok_0.1);
            Ok(())
        },
        Decl::Item(bodies) => visit_blocks(a, st, out, bodies),
    }
}

// ---------------------------------------------------------------- functions

/// Checks one function: walks its parameters and its body, keeping track of
/// the locals that hold protected values, and reports every place where such
/// a value could be dropped implicitly or where branches disagree on which
/// of them are alive.
///
/// Returns the diagnostics in the order the walk reports them, or the first
/// construct met that the check does not handle: where the check cannot go
/// on, it returns that construct as its error instead of stopping the
/// program.
pub fn check_fn(f: &FnItem) -> (r: Result<Vec<Diagnostic>, Unsupported>)
    ensures
        match spec_check_fn(*f) {
            Ok(d) => r matches Ok(v) && v@ == d,
            Err(u) => r matches Err(u2) && u2 == u,
        },
{
    let mut st = Visitor { map: Vec::new(), diverging: false, breaking: false, loopin: None, loopout: None };
    let mut out: Vec<Diagnostic> = Vec::new();
    assert(st@ == spec_initial());
    add_roots(&f.attrs, &mut st, &mut out, &f.params);
    let r = walk_block(&f.attrs, &mut st, &mut out, &f.body);
    match r {
        Err(u) => {
            return Err(u);
        },
        Ok(()) => {},
    }
    assert(out@ =~= spec_walk_fn(*f)->Ok_0.1);
    if !st.diverging {
        report_dropped(&st.map, &mut out);
    }
    Ok(out)
}

} // verus!
