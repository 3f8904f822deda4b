// What the check reports: functions it rejects, with the errors and the lines
// where they are reported, and the constructs it cannot check. Spans are line
// numbers.

use humpty_dumpty::ast::{
    Arm, Attribute, Block, Decl, Expr, ExprKind, FnItem, Lit, Local, LocalSource, MatchSource, NodeId, Pat,
    PatKind, Span, Stmt, StmtKind, Ty,
};
use humpty_dumpty::checker::check_fn;
use humpty_dumpty::diag::{Diagnostic, Level, Message, Unsupported};
use humpty_dumpty::live::{update_loopout, LiveVar};
use humpty_dumpty::lint::{plugin_registrar, LintLevel, Pass, Registry};
use humpty_dumpty::ty::can_drop;

fn sp(line: u32) -> Span {
    Span { lo: line, hi: line }
}

fn ty(repr: &str, protected: bool) -> Ty {
    Ty { repr: repr.to_string(), protected, params: vec![] }
}

fn foo_ty() -> Ty {
    ty("Foo", true)
}

fn unit() -> Ty {
    ty("()", false)
}

fn ex(line: u32, t: Ty, kind: ExprKind) -> Expr {
    Expr { id: 0, span: sp(line), ty: t, kind }
}

fn bind(id: NodeId, line: u32, t: Ty) -> Pat {
    Pat { id, span: sp(line), ty: t, kind: PatKind::Ident(None) }
}

fn leaf(line: u32, t: Ty) -> Pat {
    Pat { id: 0, span: sp(line), ty: t, kind: PatKind::Leaf }
}

fn wild(line: u32, t: Ty) -> Pat {
    Pat { id: 0, span: sp(line), ty: t, kind: PatKind::Wild }
}

/// A use of the local `id`, of type `t`.
fn var(id: NodeId, line: u32, t: Ty) -> Expr {
    ex(line, t, ExprKind::Path(Some(id)))
}

/// The unit struct `Foo`.
fn new_foo(line: u32) -> Expr {
    ex(line, foo_ty(), ExprKind::Path(None))
}

/// `x.close()`
fn close(id: NodeId, line: u32) -> Expr {
    ex(line, unit(), ExprKind::Other(vec![var(id, line, foo_ty())]))
}

fn lit(line: u32, t: Ty) -> Expr {
    ex(line, t, ExprKind::Other(vec![]))
}

fn ret(line: u32) -> Expr {
    ex(line, ty("!", false), ExprKind::Ret(None))
}

fn brk(line: u32) -> Expr {
    ex(line, ty("!", false), ExprKind::Break(None))
}

fn cont(line: u32) -> Expr {
    ex(line, ty("!", false), ExprKind::Again(None))
}

fn let_(line: u32, pat: Pat, init: Expr) -> Stmt {
    Stmt { span: sp(line), kind: StmtKind::Decl(Decl::Local(Local { pat, init: Some(init), source: LocalSource::Normal })) }
}

fn semi(line: u32, e: Expr) -> Stmt {
    Stmt { span: sp(line), kind: StmtKind::Semi(e) }
}

fn stmt(line: u32, e: Expr) -> Stmt {
    Stmt { span: sp(line), kind: StmtKind::Expr(e) }
}

fn blk(stmts: Vec<Stmt>, expr: Option<Expr>) -> Block {
    Block { stmts, expr: expr.map(Box::new) }
}

/// `if true { then } else { els }`
fn if_(line: u32, then: Block, els: Option<Block>) -> Expr {
    let els = els.map(|b| Box::new(ex(line, unit(), ExprKind::Block(b))));
    ex(line, unit(), ExprKind::If(Box::new(lit(line, ty("bool", false))), then, els))
}

fn loop_(line: u32, body: Block) -> Expr {
    ex(line, unit(), ExprKind::Loop(body))
}

fn match_(line: u32, scrutinee: Expr, arms: Vec<Arm>) -> Expr {
    ex(line, unit(), ExprKind::Match(Box::new(scrutinee), arms, MatchSource::Normal))
}

fn arm(pat: Pat, line: u32, body: Block) -> Arm {
    Arm { pats: vec![pat], guard: None, body: ex(line, unit(), ExprKind::Block(body)) }
}

/// A `#[test]` function with body `body`.
fn test_fn(body: Block) -> FnItem {
    FnItem { attrs: vec![Attribute::Word("test".to_string())], params: vec![], body }
}

/// The errors of checking `f`, as (message, line).
fn errors(f: &FnItem) -> Vec<(Message, u32)> {
    let diags = check_fn(f).expect("the check handles every construct of these functions");
    diags.iter().filter(|d| d.level == Level::Error).map(|d| (d.message, d.span.lo)).collect()
}

fn fn_with(attrs: Vec<Attribute>, params: Vec<Pat>, body: Block) -> FnItem {
    FnItem { attrs, params, body }
}

fn allow_drop(repr: &str) -> Attribute {
    Attribute::NameValue("allow_drop".to_string(), Lit::Str(repr.to_string()))
}

fn all(f: &FnItem) -> Result<Vec<Diagnostic>, Unsupported> {
    check_fn(f)
}

fn err(m: Message, line: u32) -> Diagnostic {
    Diagnostic { level: Level::Error, span: sp(line), message: m }
}

fn note(m: Message, line: u32) -> Diagnostic {
    Diagnostic { level: Level::Note, span: sp(line), message: m }
}

fn boolean() -> Ty {
    ty("bool", false)
}

fn vec_of_foo() -> Ty {
    Ty { repr: "collections::vec::Vec<Foo>".to_string(), protected: false, params: vec![foo_ty()] }
}

fn result_of_foo() -> Ty {
    Ty { repr: "core::result::Result<Foo, Foo>".to_string(), protected: false, params: vec![foo_ty(), foo_ty()] }
}

fn compound(line: u32, t: Ty, parts: Vec<Pat>) -> Pat {
    Pat { id: 0, span: sp(line), ty: t, kind: PatKind::Compound(parts) }
}

fn arm_expr(pat: Pat, body: Expr) -> Arm {
    Arm { pats: vec![pat], guard: None, body }
}

const X: NodeId = 11;
const Y: NodeId = 12;
const Z: NodeId = 13;

// ------------------------------------------------------------ simple-if.rs

#[test]
fn lone_branch_that_moves_is_reported() {
    // let f = Foo; if false { f.close(); }
    let body = blk(
        vec![let_(18, bind(X, 18, foo_ty()), new_foo(18))],
        Some(if_(19, blk(vec![semi(21, close(X, 21))], None), None)),
    );
    assert_eq!(errors(&test_fn(body)), vec![(Message::IfBranchNotLinear, 19)]);
}

#[test]
fn branches_that_disagree_are_reported() {
    // let f = Foo; if false { f.close(); } else { }
    let body = blk(
        vec![let_(26, bind(X, 26, foo_ty()), new_foo(26))],
        Some(if_(27, blk(vec![semi(29, close(X, 29))], None), Some(blk(vec![], None)))),
    );
    assert_eq!(errors(&test_fn(body)), vec![(Message::IfBranchesNotLinear, 27), (Message::DroppedVar, 26)]);
}

#[test]
fn branches_that_disagree_the_other_way_are_reported() {
    // let f = Foo; if false { } else { f.close(); }
    let body = blk(
        vec![let_(36, bind(X, 36, foo_ty()), new_foo(36))],
        Some(if_(37, blk(vec![], None), Some(blk(vec![semi(40, close(X, 40))], None)))),
    );
    assert_eq!(errors(&test_fn(body)), vec![(Message::IfBranchesNotLinear, 37)]);
}

// ------------------------------------------------------------ if-not-linear.rs

#[test]
fn return_in_a_branch_reports_live_local() {
    // let f = Foo; if false { return } else { f.close(); }
    let body = blk(
        vec![let_(18, bind(X, 18, foo_ty()), new_foo(18))],
        Some(if_(19, blk(vec![], Some(ret(19))), Some(blk(vec![semi(19, close(X, 19))], None)))),
    );
    assert_eq!(errors(&test_fn(body)), vec![(Message::DroppedVar, 18)]);
}

#[test]
fn return_in_the_else_branch_reports_live_local() {
    // let f = Foo; if true { f.close(); } else { return }
    let body = blk(
        vec![let_(23, bind(X, 23, foo_ty()), new_foo(23))],
        Some(if_(24, blk(vec![semi(24, close(X, 24))], None), Some(blk(vec![], Some(ret(24)))))),
    );
    assert_eq!(errors(&test_fn(body)), vec![(Message::DroppedVar, 23)]);
}

#[test]
fn lone_branch_statement_that_moves_is_reported() {
    // let f = Foo; if true { f.close(); }
    let body = blk(
        vec![let_(28, bind(X, 28, foo_ty()), new_foo(28))],
        Some(if_(29, blk(vec![semi(29, close(X, 29))], None), None)),
    );
    assert_eq!(errors(&test_fn(body)), vec![(Message::IfBranchNotLinear, 29)]);
}

#[test]
fn branch_binding_in_a_loop_is_reported() {
    // let x = Foo; loop { if true { let y = Foo; } else { x.close(); break } }
    let body = blk(
        vec![let_(34, bind(X, 34, foo_ty()), new_foo(34))],
        Some(loop_(
            35,
            blk(
                vec![],
                Some(if_(
                    36,
                    blk(vec![let_(38, bind(Y, 38, foo_ty()), new_foo(38))], None),
                    Some(blk(vec![semi(40, close(X, 40))], Some(brk(41)))),
                )),
            ),
        )),
    );
    assert_eq!(errors(&test_fn(body)), vec![(Message::IfBranchesNotLinear, 36)]);
}

#[test]
fn binding_in_the_branch_that_goes_on_is_reported() {
    // let x = Foo; loop { if true { x.close(); break } else { let y = Foo; } }
    let body = blk(
        vec![let_(55, bind(X, 55, foo_ty()), new_foo(55))],
        Some(loop_(
            56,
            blk(
                vec![],
                Some(if_(
                    57,
                    blk(vec![semi(59, close(X, 59))], Some(brk(60))),
                    Some(blk(vec![let_(62, bind(Y, 62, foo_ty()), new_foo(62))], None)),
                )),
            ),
        )),
    );
    assert_eq!(errors(&test_fn(body)), vec![(Message::MatchArmsNotLinear, 57)]);
}

#[test]
fn returning_lone_branch_leaves_the_local_live() {
    // fn g(c: bool) { let f = Foo; if c { f.close(); return; } }
    let then = blk(vec![semi(3, close(X, 3)), semi(3, ret(3))], None);
    let body = blk(vec![let_(2, bind(X, 2, foo_ty()), new_foo(2))], Some(if_(3, then, None)));
    let g = fn_with(vec![], vec![bind(Z, 1, boolean())], body);
    assert_eq!(errors(&g), vec![(Message::DroppedVar, 2)]);
}

#[test]
fn empty_branch_against_moving_branch_is_reported() {
    // let x = Foo; if true { } else { x.close(); }
    let body = blk(
        vec![let_(47, bind(X, 47, foo_ty()), new_foo(47))],
        Some(if_(48, blk(vec![], None), Some(blk(vec![semi(51, close(X, 51))], None)))),
    );
    assert_eq!(errors(&test_fn(body)), vec![(Message::IfBranchesNotLinear, 48)]);
}

// ------------------------------------------------------------ match-not-linear.rs

/// `foo.one_or_the_other(b)`
fn one_or_the_other(line: u32) -> Expr {
    ex(line, result_of_foo(), ExprKind::Other(vec![var(X, line, foo_ty()), lit(line, boolean())]))
}

#[test]
fn arm_binding_left_live_is_reported() {
    // let foo = Foo::new(); match foo.one_or_the_other(true) { Ok(foo) => foo.drop(), Err(foo) => {} }
    let init = ex(24, foo_ty(), ExprKind::Other(vec![ex(24, ty("fn() -> Foo", false), ExprKind::Path(None))]));
    let m = match_(
        25,
        one_or_the_other(25),
        vec![
            arm_expr(compound(28, result_of_foo(), vec![bind(21, 28, foo_ty())]), close(21, 28)),
            arm(compound(29, result_of_foo(), vec![bind(22, 29, foo_ty())]), 29, blk(vec![], None)),
        ],
    );
    let body = blk(vec![let_(24, bind(X, 24, foo_ty()), init)], Some(m));
    assert_eq!(errors(&test_fn(body)), vec![(Message::MatchArmsNotLinear, 25), (Message::MatchArmsNotLinear, 25)]);
}

#[test]
fn arms_that_disagree_are_reported() {
    // let foo = Foo::new(); match foo.one_or_the_other(false) { Ok(foo) => {}, Err(foo) => foo.drop() }
    let init = ex(34, foo_ty(), ExprKind::Other(vec![ex(34, ty("fn() -> Foo", false), ExprKind::Path(None))]));
    let m = match_(
        35,
        one_or_the_other(35),
        vec![
            arm(compound(37, result_of_foo(), vec![bind(21, 37, foo_ty())]), 37, blk(vec![], None)),
            arm_expr(compound(38, result_of_foo(), vec![bind(22, 38, foo_ty())]), close(22, 38)),
        ],
    );
    let body = blk(vec![let_(34, bind(X, 34, foo_ty()), init)], Some(m));
    assert_eq!(errors(&test_fn(body)), vec![(Message::MatchArmsNotLinear, 35)]);
}

#[test]
fn arm_binding_in_a_loop_is_reported() {
    // let x = Foo; loop { match true { true => { let y = Foo; } false => { x.drop(); break } } }
    let m = match_(
        45,
        lit(45, boolean()),
        vec![
            arm(leaf(47, boolean()), 47, blk(vec![let_(48, bind(Y, 48, foo_ty()), new_foo(48))], None)),
            arm(leaf(50, boolean()), 50, blk(vec![semi(51, close(X, 51))], Some(brk(52)))),
        ],
    );
    let body = blk(vec![let_(43, bind(X, 43, foo_ty()), new_foo(43))], Some(loop_(44, blk(vec![], Some(m)))));
    assert_eq!(errors(&test_fn(body)), vec![(Message::MatchArmsNotLinear, 45)]);
}

#[test]
fn breaking_arm_before_binding_arm_is_reported() {
    // let x = Foo; loop { match true { true => { x.drop(); break } false => { let y = Foo; } } }
    let m = match_(
        62,
        lit(62, boolean()),
        vec![
            arm(leaf(64, boolean()), 64, blk(vec![semi(65, close(X, 65))], Some(brk(66)))),
            arm(leaf(68, boolean()), 68, blk(vec![let_(69, bind(Y, 69, foo_ty()), new_foo(69))], None)),
        ],
    );
    let body = blk(vec![let_(60, bind(X, 60, foo_ty()), new_foo(60))], Some(loop_(61, blk(vec![], Some(m)))));
    assert_eq!(errors(&test_fn(body)), vec![(Message::MatchArmsNotLinear, 62)]);
}

// ------------------------------------------------------------ simple-loop.rs

#[test]
fn binding_in_a_loop_body_is_reported() {
    // fn main() { loop { let y = Foo; } }
    let body = blk(vec![], Some(loop_(17, blk(vec![let_(18, bind(Y, 18, foo_ty()), new_foo(18))], None))));
    let main = fn_with(vec![], vec![], body);
    assert_eq!(errors(&main), vec![(Message::DroppedVar, 18)]);
}

#[test]
fn local_moved_in_every_iteration_is_accepted() {
    // loop { let y = Foo; y.close(); }
    let body = blk(vec![], Some(loop_(1, blk(vec![let_(2, bind(Y, 2, foo_ty()), new_foo(2)), semi(3, close(Y, 3))], None))));
    assert_eq!(all(&test_fn(body)), Ok(vec![
        note(Message::AddingProtected(Y), 2),
        note(Message::ConsumingProtected, 3),
    ]));
}

// ------------------------------------------------------------ for loops

/// `for <pat> in <head> { <body> }` as a compiler expands it:
/// `match into_iter(head) { mut iter => loop { match next(&mut iter) { Some(pat) => body, None => break } } }`
const ITER: NodeId = 90;

fn for_loop(line: u32, head: Expr, pat: Pat, body: Block, item: Ty) -> Expr {
    let iter_ty = Ty { repr: "IntoIter".to_string(), protected: false, params: vec![clone_ty(&item)] };
    let option_ty = Ty { repr: "Option".to_string(), protected: false, params: vec![clone_ty(&item)] };
    let next = ex(
        line,
        clone_ty(&option_ty),
        ExprKind::Other(vec![
            ex(line, unit(), ExprKind::AddrOf(Box::new(var(ITER, line, clone_ty(&iter_ty))))),
            ex(line, unit(), ExprKind::Path(None)),
        ]),
    );
    let inner = ex(
        line,
        unit(),
        ExprKind::Match(
            Box::new(next),
            vec![
                arm_expr(compound(line, clone_ty(&option_ty), vec![pat]), ex(line, unit(), ExprKind::Block(body))),
                arm_expr(leaf(line, option_ty), brk(line)),
            ],
            MatchSource::ForLoopDesugar,
        ),
    );
    let into_iter = ex(line, clone_ty(&iter_ty), ExprKind::Other(vec![head, ex(line, unit(), ExprKind::Path(None))]));
    ex(
        line,
        unit(),
        ExprKind::Match(
            Box::new(into_iter),
            vec![arm_expr(bind(ITER, line, iter_ty), loop_(line, blk(vec![], Some(inner))))],
            MatchSource::Normal,
        ),
    )
}

fn clone_ty(t: &Ty) -> Ty {
    Ty { repr: t.repr.clone(), protected: t.protected, params: t.params.iter().map(clone_ty).collect() }
}

#[test]
fn for_loop_that_breaks_with_a_live_item_is_reported() {
    // let f = vec!(Foo); for i in f { if true { break; } i.close(); }
    let init = ex(17, vec_of_foo(), ExprKind::Other(vec![new_foo(17)]));
    let body = blk(vec![stmt(20, if_(20, blk(vec![semi(21, brk(21))], None), None)), semi(23, close(Y, 23))], None);
    let f = for_loop(18, var(X, 18, vec_of_foo()), bind(Y, 18, foo_ty()), body, foo_ty());
    let body = blk(vec![let_(17, bind(X, 17, vec_of_foo()), init)], Some(f));
    let d = all(&test_fn(body)).unwrap();
    assert!(d.contains(&note(Message::ForLoopExpansion, 18)));
    assert_eq!(d.iter().filter(|x| x.level == Level::Error).cloned().collect::<Vec<_>>(), vec![err(Message::NonLinearForLoop, 18)]);
}

#[test]
fn for_loop_that_moves_each_item_is_accepted() {
    // let v = vec!(Foo, Foo, Foo); for x in v { close(x) };
    let init = ex(15, vec_of_foo(), ExprKind::Other(vec![new_foo(15), new_foo(15), new_foo(15)]));
    let call = ex(18, unit(), ExprKind::Other(vec![var(Y, 18, foo_ty()), ex(18, unit(), ExprKind::Path(None))]));
    let f = for_loop(17, var(X, 17, vec_of_foo()), bind(Y, 17, foo_ty()), blk(vec![], Some(call)), foo_ty());
    let body = blk(vec![let_(15, bind(X, 15, vec_of_foo()), init), semi(19, f)], None);
    assert_eq!(errors(&test_fn(body)), vec![]);
}

#[test]
fn continue_in_a_for_loop_is_not_handled() {
    // for i in f { continue; }
    let f = for_loop(3, var(X, 3, vec_of_foo()), bind(Y, 3, foo_ty()), blk(vec![semi(4, cont(4))], None), foo_ty());
    let body = blk(vec![let_(2, bind(X, 2, vec_of_foo()), lit(2, vec_of_foo()))], Some(f));
    assert_eq!(all(&test_fn(body)), Err(Unsupported::ContinueOutsideLoop));
}

// ------------------------------------------------------------ exits

#[test]
fn unused_local_is_reported() {
    // fn main() { let foo = Foo; }
    let body = blk(vec![let_(14, bind(X, 14, foo_ty()), new_foo(14))], None);
    let f = fn_with(vec![], vec![], body);
    assert_eq!(
        all(&f),
        Ok(vec![note(Message::AddingProtected(X), 14), err(Message::DroppedVar, 14)])
    );
}

#[test]
fn unmoved_local_is_reported_among_moved_ones() {
    // let a = Foo; let b = Foo; b.close();
    let body = blk(
        vec![let_(1, bind(X, 1, foo_ty()), new_foo(1)), let_(2, bind(Y, 2, foo_ty()), new_foo(2)), semi(3, close(Y, 3))],
        None,
    );
    assert_eq!(errors(&test_fn(body)), vec![(Message::DroppedVar, 1)]);
}

#[test]
fn return_reports_every_live_local() {
    // let a = Foo; let b = Foo; return;
    let body = blk(
        vec![let_(1, bind(X, 1, foo_ty()), new_foo(1)), let_(2, bind(Y, 2, foo_ty()), new_foo(2)), semi(3, ret(3))],
        None,
    );
    assert_eq!(errors(&test_fn(body)), vec![(Message::DroppedVar, 1), (Message::DroppedVar, 2)]);
}

#[test]
fn returned_local_is_moved() {
    // fn something(self) -> Self { self }
    let f = fn_with(vec![], vec![bind(X, 12, foo_ty())], blk(vec![], Some(var(X, 13, foo_ty()))));
    assert_eq!(errors(&f), vec![]);
}

#[test]
fn parameter_that_is_never_moved_is_reported() {
    // fn dropit(self) { }
    let f = fn_with(vec![], vec![bind(X, 16, foo_ty())], blk(vec![], None));
    assert_eq!(errors(&f), vec![(Message::DroppedVar, 16)]);
}

#[test]
fn allowed_type_may_be_dropped() {
    // #[allow_drop="Foo"] fn f() { let a = Foo; }
    let f = fn_with(vec![allow_drop("Foo")], vec![], blk(vec![let_(1, bind(X, 1, foo_ty()), new_foo(1))], None));
    assert_eq!(errors(&f), vec![]);
    // another type's permission does not help
    let g = fn_with(vec![allow_drop("Bar")], vec![], blk(vec![let_(1, bind(X, 1, foo_ty()), new_foo(1))], None));
    assert_eq!(errors(&g), vec![(Message::DroppedVar, 1)]);
}

#[test]
fn vector_of_protected_values_may_be_closed_by_its_own_method() {
    // unsafe impl Closeable for Vec<Foo> { #[allow_drop="collections::vec::Vec<Foo>"] fn close(self) { } }
    let close_vec = fn_with(
        vec![allow_drop("collections::vec::Vec<Foo>")],
        vec![bind(X, 16, vec_of_foo())],
        blk(vec![], None),
    );
    assert_eq!(errors(&close_vec), vec![]);
    // fn main() { let v: Vec<Foo> = Vec::new(); v.close(); }
    let main = test_fn(blk(
        vec![
            let_(21, bind(X, 21, vec_of_foo()), ex(21, vec_of_foo(), ExprKind::Other(vec![]))),
            semi(22, ex(22, unit(), ExprKind::Other(vec![var(X, 22, vec_of_foo())]))),
        ],
        None,
    ));
    assert_eq!(errors(&main), vec![]);
}

#[test]
fn code_after_return_is_ignored() {
    // return; let y = Foo;
    let body = blk(vec![semi(1, ret(1)), let_(2, bind(Y, 2, foo_ty()), new_foo(2))], None);
    assert_eq!(all(&test_fn(body)), Ok(vec![]));
}

// ------------------------------------------------------------ discards and moves

#[test]
fn wildcard_that_discards_a_protected_value_is_reported() {
    // let _ = Foo;
    let body = blk(vec![let_(1, wild(1, foo_ty()), new_foo(1))], None);
    assert_eq!(errors(&test_fn(body)), vec![(Message::ProtectedTypeDropped, 1)]);
    let allowed = fn_with(vec![allow_drop("Foo")], vec![], blk(vec![let_(1, wild(1, foo_ty()), new_foo(1))], None));
    assert_eq!(errors(&allowed), vec![]);
}

#[test]
fn statement_that_discards_a_protected_value_is_reported() {
    // Foo;
    let body = blk(vec![semi(1, new_foo(1))], None);
    assert_eq!(errors(&test_fn(body)), vec![(Message::ProtectedValueUnused, 1)]);
}

#[test]
fn overwriting_a_tracked_local_is_reported() {
    // let x = Foo; x = Foo;
    let assign = ex(2, unit(), ExprKind::Assign(Box::new(var(X, 2, foo_ty())), Box::new(new_foo(2))));
    let body = blk(vec![let_(1, bind(X, 1, foo_ty()), new_foo(1)), semi(2, assign)], None);
    assert_eq!(errors(&test_fn(body)), vec![(Message::CannotOverwrite, 2), (Message::DroppedVar, 1)]);
}

#[test]
fn reassigning_a_moved_local_tracks_it_again() {
    // let mut x = Foo; x = x; let y = id(x); let z = y.something(); close(z);
    const Z: NodeId = 13;
    let assign = ex(36, unit(), ExprKind::Assign(Box::new(var(X, 36, foo_ty())), Box::new(var(X, 36, foo_ty()))));
    let id_call = ex(37, foo_ty(), ExprKind::Other(vec![var(X, 37, foo_ty()), ex(37, unit(), ExprKind::Path(None))]));
    let something = ex(38, foo_ty(), ExprKind::Other(vec![var(Y, 38, foo_ty())]));
    let close_call = ex(39, unit(), ExprKind::Other(vec![var(Z, 39, foo_ty()), ex(39, unit(), ExprKind::Path(None))]));
    let body = blk(
        vec![
            let_(35, bind(X, 35, foo_ty()), new_foo(35)),
            semi(36, assign),
            let_(37, bind(Y, 37, foo_ty()), id_call),
            let_(38, bind(Z, 38, foo_ty()), something),
            semi(39, close_call),
        ],
        None,
    );
    assert_eq!(errors(&test_fn(body)), vec![]);
}

#[test]
fn assigned_unprotected_local_is_not_tracked() {
    // let mut n = 0; n = 1;
    let assign = ex(2, unit(), ExprKind::Assign(Box::new(var(X, 2, ty("i32", false))), Box::new(lit(2, ty("i32", false)))));
    let body = blk(vec![let_(1, bind(X, 1, ty("i32", false)), lit(1, ty("i32", false))), semi(2, assign)], None);
    assert_eq!(all(&test_fn(body)), Ok(vec![]));
}

#[test]
fn assigned_protected_local_is_tracked() {
    // let mut x; x = Foo;
    let assign = ex(2, unit(), ExprKind::Assign(Box::new(var(X, 2, foo_ty())), Box::new(new_foo(2))));
    let decl = Stmt { span: sp(1), kind: StmtKind::Decl(Decl::Local(Local { pat: bind(X, 1, foo_ty()), init: None, source: LocalSource::Normal })) };
    let body = blk(vec![decl, semi(2, assign)], None);
    // the binding itself is tracked from its declaration; the assignment
    // finds it tracked and may not overwrite it
    assert_eq!(errors(&test_fn(body)), vec![(Message::CannotOverwrite, 2), (Message::DroppedVar, 1)]);
    // a local that is not tracked yet is tracked from the assignment on
    let assign = ex(4, unit(), ExprKind::Assign(Box::new(var(Y, 4, foo_ty())), Box::new(new_foo(4))));
    let body = blk(vec![semi(4, assign)], None);
    assert_eq!(errors(&test_fn(body)), vec![(Message::DroppedVar, 4)]);
}

#[test]
fn moves_and_bindings_are_noted() {
    // let x = Foo; x.close();
    let body = blk(vec![let_(1, bind(X, 1, foo_ty()), new_foo(1)), semi(2, close(X, 2))], None);
    assert_eq!(
        all(&test_fn(body)),
        Ok(vec![note(Message::AddingProtected(X), 1), note(Message::ConsumingProtected, 2)])
    );
}

#[test]
fn borrowing_a_local_does_not_move_it() {
    // let x = Foo; f(&x);
    let call = ex(2, unit(), ExprKind::Other(vec![ex(2, unit(), ExprKind::AddrOf(Box::new(var(X, 2, foo_ty()))))]));
    let body = blk(vec![let_(1, bind(X, 1, foo_ty()), new_foo(1)), semi(2, call)], None);
    assert_eq!(errors(&test_fn(body)), vec![(Message::DroppedVar, 1)]);
}

#[test]
fn match_on_a_result_of_protected_values_is_accepted() {
    // let x: Result<Foo, Bar> = Ok(Foo); match x { Ok(y) => y.close(), Err(y) => y.close() }
    let bar = ty("Bar", true);
    let res = Ty { repr: "core::result::Result<Foo, Bar>".to_string(), protected: false, params: vec![foo_ty(), clone_ty(&bar)] };
    let init = ex(25, clone_ty(&res), ExprKind::Other(vec![new_foo(25), ex(25, unit(), ExprKind::Path(None))]));
    let m = match_(
        26,
        var(X, 26, clone_ty(&res)),
        vec![
            arm_expr(compound(27, clone_ty(&res), vec![bind(21, 27, foo_ty())]), close(21, 27)),
            arm_expr(compound(28, clone_ty(&res), vec![bind(22, 28, clone_ty(&bar))]), ex(28, unit(), ExprKind::Other(vec![var(22, 28, bar)]))),
        ],
    );
    let body = blk(vec![let_(25, bind(X, 25, res), init)], Some(m));
    assert_eq!(errors(&test_fn(body)), vec![]);
}

// ------------------------------------------------------------ loops

#[test]
fn break_with_other_locals_than_an_earlier_break_is_reported() {
    // let x = Foo; loop { if c { break; } x.close(); break; }
    let body = blk(
        vec![let_(1, bind(X, 1, foo_ty()), new_foo(1))],
        Some(loop_(
            2,
            blk(vec![stmt(3, if_(3, blk(vec![semi(3, brk(3))], None), None)), semi(4, close(X, 4)), semi(5, brk(5))], None),
        )),
    );
    assert_eq!(errors(&test_fn(body)), vec![(Message::DivergingBreak, 5), (Message::DroppedVar, 1)]);
}

#[test]
fn continue_with_other_locals_than_the_loop_head_is_reported() {
    // let x = Foo; loop { x.close(); continue; }
    let body = blk(
        vec![let_(1, bind(X, 1, foo_ty()), new_foo(1))],
        Some(loop_(2, blk(vec![semi(3, close(X, 3)), semi(4, cont(4))], None))),
    );
    assert_eq!(errors(&test_fn(body)), vec![(Message::DivergingContinue, 4), (Message::DroppedVar, 1)]);
}

#[test]
fn unprotected_function_is_accepted() {
    // let n = 0; loop { if c { break; } else { f(&n); } } return;
    let int = || ty("i32", false);
    let call = ex(4, unit(), ExprKind::Other(vec![ex(4, unit(), ExprKind::AddrOf(Box::new(var(X, 4, int()))))]));
    let body = blk(
        vec![
            let_(1, bind(X, 1, int()), lit(1, int())),
            stmt(2, loop_(2, blk(vec![], Some(if_(3, blk(vec![semi(3, brk(3))], None), Some(blk(vec![semi(4, call)], None))))))),
            semi(5, ret(5)),
        ],
        None,
    );
    assert_eq!(all(&test_fn(body)), Ok(vec![]));
}

// ------------------------------------------------------------ unsupported constructs

#[test]
fn while_loop_is_not_handled() {
    let w = ex(1, unit(), ExprKind::While(Box::new(lit(1, boolean())), blk(vec![], None)));
    assert_eq!(all(&test_fn(blk(vec![stmt(1, w)], None))), Err(Unsupported::While));
}

#[test]
fn labelled_jumps_are_not_handled() {
    let b = ex(1, unit(), ExprKind::Break(Some(1)));
    assert_eq!(all(&test_fn(blk(vec![], Some(loop_(1, blk(vec![semi(1, b)], None)))))), Err(Unsupported::LabelledBreak));
    let c = ex(1, unit(), ExprKind::Again(Some(1)));
    assert_eq!(all(&test_fn(blk(vec![], Some(loop_(1, blk(vec![semi(1, c)], None)))))), Err(Unsupported::LabelledContinue));
}

#[test]
fn guarded_arm_is_not_handled() {
    let guarded = Arm { pats: vec![wild(1, boolean())], guard: Some(lit(1, boolean())), body: lit(1, unit()) };
    let m = match_(1, lit(1, boolean()), vec![guarded]);
    assert_eq!(all(&test_fn(blk(vec![], Some(m)))), Err(Unsupported::ArmGuard));
}

#[test]
fn for_loop_let_is_not_handled() {
    let st = Stmt {
        span: sp(1),
        kind: StmtKind::Decl(Decl::Local(Local { pat: bind(X, 1, foo_ty()), init: None, source: LocalSource::ForLoop })),
    };
    assert_eq!(all(&test_fn(blk(vec![st], None))), Err(Unsupported::ForLoopLocal));
}

#[test]
fn assignment_to_anything_but_a_local_is_not_handled() {
    let to_static = ex(1, unit(), ExprKind::Assign(Box::new(ex(1, foo_ty(), ExprKind::Path(None))), Box::new(new_foo(1))));
    assert_eq!(all(&test_fn(blk(vec![semi(1, to_static)], None))), Err(Unsupported::AssignToNonLocal));
    let to_field = ex(1, unit(), ExprKind::Assign(Box::new(ex(1, foo_ty(), ExprKind::Other(vec![]))), Box::new(new_foo(1))));
    assert_eq!(all(&test_fn(blk(vec![semi(1, to_field)], None))), Err(Unsupported::AssignToPlace));
}

#[test]
fn unhandled_construct_after_return_is_not_reached() {
    let w = ex(2, unit(), ExprKind::While(Box::new(lit(2, boolean())), blk(vec![], None)));
    assert_eq!(all(&test_fn(blk(vec![semi(1, ret(1)), stmt(2, w)], None))), Ok(vec![]));
}

// ------------------------------------------------------------ types, messages, registration

#[test]
fn protection_is_found_inside_types() {
    assert!(foo_ty().mentions_protected());
    assert!(vec_of_foo().mentions_protected());
    assert!(!ty("i32", false).mentions_protected());
    let nested = Ty { repr: "Box<Vec<Foo>>".to_string(), protected: false, params: vec![vec_of_foo()] };
    assert!(nested.mentions_protected());
}

#[test]
fn drop_permission_is_read_from_attributes() {
    let attrs = vec![Attribute::Word("inline".to_string()), Attribute::List("allow".to_string()), allow_drop("Foo")];
    assert!(can_drop(&attrs, &foo_ty()));
    assert!(!can_drop(&attrs, &vec_of_foo()));
    let other = vec![Attribute::NameValue("allow_drop".to_string(), Lit::Other), Attribute::NameValue("doc".to_string(), Lit::Str("Foo".to_string()))];
    assert!(!can_drop(&other, &foo_ty()));
}

#[test]
fn messages_read_as_the_compiler_prints_them() {
    assert_eq!(Message::DroppedVar.text(), "dropped var");
    assert_eq!(Message::IfBranchesNotLinear.text(), "If branches are not linear");
    assert_eq!(Message::NonLinearForLoop.text(), "Non-linear for loop");
    assert!(err(Message::DroppedVar, 1).is_error());
    assert!(!note(Message::ConsumingProtected, 1).is_error());
}

#[test]
fn registrar_adds_the_pass() {
    let mut reg = Registry::new();
    assert_eq!(reg.num_lint_passes(), 0);
    plugin_registrar(&mut reg);
    assert_eq!(reg.num_lint_passes(), 1);
    let lints = Pass.get_lints();
    assert_eq!(lints.len(), 1);
    assert_eq!(lints[0].name, "test_lint");
    assert_eq!(lints[0].default_level, LintLevel::Warn);
    let body = || blk(vec![let_(14, bind(X, 14, foo_ty()), new_foo(14))], None);
    assert_eq!(Pass.check_fn(&test_fn(body())), check_fn(&test_fn(body())));
}

#[test]
fn loop_exits_in_nested_branches_are_never_contradicted() {
    // let x = Foo; loop { match c { true => { if d { x.close(); break; } else { x.close(); break; } } _ => { loop { break; } x.close(); break; } } }
    let inner_if = if_(
        4,
        blk(vec![semi(4, close(X, 4)), semi(4, brk(4))], None),
        Some(blk(vec![semi(5, close(X, 5)), semi(5, brk(5))], None)),
    );
    let m = match_(
        3,
        lit(3, boolean()),
        vec![
            arm(leaf(4, boolean()), 4, blk(vec![], Some(inner_if))),
            arm(
                wild(6, boolean()),
                6,
                blk(vec![stmt(6, loop_(6, blk(vec![semi(6, brk(6))], None))), semi(7, close(X, 7)), semi(7, brk(7))], None),
            ),
        ],
    );
    let body = blk(vec![let_(1, bind(X, 1, foo_ty()), new_foo(1))], Some(loop_(2, blk(vec![], Some(m)))));
    let d = all(&test_fn(body)).unwrap();
    assert!(d.iter().all(|x| x.message != Message::DivergingLoopout));
    // The inner loop's `break` is held to the exit the outer loop recorded
    // in the first arm, where `x` was already moved.
    let errs: Vec<(Message, u32)> = d.iter().filter(|x| x.level == Level::Error).map(|x| (x.message, x.span.lo)).collect();
    assert_eq!(errs, vec![(Message::DivergingBreak, 6)]);
}

#[test]
fn allowed_function_may_discard_its_parameter() {
    // #[allow_drop="Foo"] fn close(_: Foo) { }
    let close_fn = fn_with(vec![allow_drop("Foo")], vec![wild(12, foo_ty())], blk(vec![], None));
    assert_eq!(all(&close_fn), Ok(vec![]));
    // fn main() { let x = Foo; close(x); }
    let call = ex(16, unit(), ExprKind::Other(vec![var(X, 16, foo_ty()), ex(16, unit(), ExprKind::Path(None))]));
    let main = fn_with(vec![], vec![], blk(vec![let_(15, bind(X, 15, foo_ty()), new_foo(15)), semi(16, call)], None));
    assert_eq!(errors(&main), vec![]);
    // without the permission the discarded parameter is reported
    let plain = fn_with(vec![], vec![wild(12, foo_ty())], blk(vec![], None));
    assert_eq!(errors(&plain), vec![(Message::ProtectedTypeDropped, 12)]);
}

#[test]
fn never_named_local_is_reported_through_loops_and_jumps() {
    // let x = Foo; loop { if true { break } else { continue } }
    let l = loop_(2, blk(vec![], Some(if_(3, blk(vec![], Some(brk(3))), Some(blk(vec![], Some(cont(4))))))));
    let body = blk(vec![let_(1, bind(X, 1, foo_ty()), new_foo(1))], Some(l));
    assert_eq!(errors(&test_fn(body)), vec![(Message::DroppedVar, 1)]);
}

#[test]
fn never_named_local_is_reported_at_each_exit() {
    // let x = Foo; match c { true => { return; } _ => {} }
    let m = match_(2, lit(2, boolean()), vec![arm(leaf(3, boolean()), 3, blk(vec![semi(3, ret(3))], None)), arm(wild(4, boolean()), 4, blk(vec![], None))]);
    let body = blk(vec![let_(1, bind(X, 1, foo_ty()), new_foo(1))], Some(m));
    assert_eq!(errors(&test_fn(body)), vec![(Message::DroppedVar, 1), (Message::DroppedVar, 1)]);
}

#[test]
fn never_named_parameter_is_reported_at_each_exit() {
    // fn f(x: Foo) { if true { return } }
    let body = blk(vec![], Some(if_(2, blk(vec![semi(2, ret(2))], None), None)));
    let f = fn_with(vec![], vec![bind(X, 1, foo_ty())], body);
    assert_eq!(errors(&f), vec![(Message::DroppedVar, 1), (Message::DroppedVar, 1)]);
}

#[test]
fn local_moved_in_some_arms_stays_tracked() {
    // let x = Foo; match c { _ => x.close(), _ => () }
    let m = match_(
        2,
        lit(2, boolean()),
        vec![arm_expr(wild(3, boolean()), close(X, 3)), arm_expr(wild(4, boolean()), lit(4, unit()))],
    );
    let body = blk(vec![let_(1, bind(X, 1, foo_ty()), new_foo(1))], Some(m));
    assert_eq!(errors(&test_fn(body)), vec![(Message::MatchArmsNotLinear, 2), (Message::DroppedVar, 1)]);
}

#[test]
fn inner_loop_leaves_with_the_exit_of_the_enclosing_loop() {
    // let x = Foo; loop { if c { x.close(); break } loop { break } }
    let first = if_(2, blk(vec![semi(2, close(X, 2))], Some(brk(2))), None);
    let inner = loop_(3, blk(vec![semi(3, brk(3))], None));
    let body = blk(vec![let_(1, bind(X, 1, foo_ty()), new_foo(1))], Some(loop_(2, blk(vec![stmt(2, first), stmt(3, inner)], None))));
    assert_eq!(errors(&test_fn(body)), vec![(Message::DivergingBreak, 3)]);
}

#[test]
fn first_recorded_loop_exit_stays() {
    let a = LiveVar { id: 1, span: sp(1), droppable: false };
    let b = LiveVar { id: 2, span: sp(2), droppable: false };
    let mut exit: Option<Vec<LiveVar>> = None;
    assert!(update_loopout(&mut exit, &Some(vec![a])));
    assert_eq!(exit, Some(vec![a]));
    assert!(!update_loopout(&mut exit, &Some(vec![b])));
    assert_eq!(exit, Some(vec![a]));
    assert!(!update_loopout(&mut exit, &None));
    assert_eq!(exit, Some(vec![a]));
    assert!(update_loopout(&mut exit, &Some(vec![a])));
    assert_eq!(exit, Some(vec![a]));
}

fn pair_of_foo() -> Ty {
    Ty { repr: "(Foo, Foo)".to_string(), protected: false, params: vec![foo_ty(), foo_ty()] }
}

#[test]
fn borrowed_only_local_is_reported() {
    // let f = Foo; inspect(&f);
    let borrow = ex(2, ty("&Foo", false), ExprKind::AddrOf(Box::new(var(X, 2, foo_ty()))));
    let call = ex(2, unit(), ExprKind::Other(vec![borrow]));
    let body = blk(vec![let_(1, bind(X, 1, foo_ty()), new_foo(1)), semi(2, call)], None);
    assert_eq!(all(&test_fn(body)), Ok(vec![note(Message::AddingProtected(X), 1), err(Message::DroppedVar, 1)]));
}

#[test]
fn local_bound_inside_a_destructuring_let_is_reported() {
    // let (a, b) = (Foo, Foo); b.close();
    let pat = compound(1, pair_of_foo(), vec![bind(X, 2, foo_ty()), bind(Y, 3, foo_ty())]);
    let init = ex(1, pair_of_foo(), ExprKind::Other(vec![new_foo(1), new_foo(1)]));
    let body = blk(vec![let_(1, pat, init), semi(4, close(Y, 4))], None);
    assert_eq!(errors(&test_fn(body)), vec![(Message::DroppedVar, 2)]);
}

#[test]
fn local_bound_inside_a_destructuring_parameter_is_reported() {
    // fn f((a, b): (Foo, Foo)) { b.close(); }
    let pat = compound(1, pair_of_foo(), vec![bind(X, 2, foo_ty()), bind(Y, 3, foo_ty())]);
    let f = fn_with(vec![], vec![pat], blk(vec![semi(4, close(Y, 4))], None));
    assert_eq!(errors(&f), vec![(Message::DroppedVar, 2)]);
}
