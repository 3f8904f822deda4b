// Functions that move a protected local correctly along every path through
// `if`, `match`, `loop`, `break`, `continue` and `return`: the check reports
// no error for any of them. Each function is written out as the syntax tree
// a compiler hands the check; spans are line numbers.

use humpty_dumpty::ast::{
    Arm, Attribute, Block, Decl, Expr, ExprKind, FnItem, Lit, Local, LocalSource, MatchSource, NodeId, Pat,
    PatKind, Span, Stmt, StmtKind, Ty,
};
use humpty_dumpty::checker::check_fn;
use humpty_dumpty::diag::{Level, Message};

fn sp(line: u32) -> Span {
    Span { lo: line, hi: line }
}

fn ty(repr: &str, protected: bool) -> Ty {
    Ty { repr: repr.to_string(), protected, params: vec![] }
}

fn foo_ty() -> Ty {
    ty("Foo", true)
}

fn unit() -> Ty {
    ty("()", false)
}

fn ex(line: u32, t: Ty, kind: ExprKind) -> Expr {
    Expr { id: 0, span: sp(line), ty: t, kind }
}

fn bind(id: NodeId, line: u32, t: Ty) -> Pat {
    Pat { id, span: sp(line), ty: t, kind: PatKind::Ident(None) }
}

fn leaf(line: u32, t: Ty) -> Pat {
    Pat { id: 0, span: sp(line), ty: t, kind: PatKind::Leaf }
}

fn wild(line: u32, t: Ty) -> Pat {
    Pat { id: 0, span: sp(line), ty: t, kind: PatKind::Wild }
}

/// A use of the local `id`, of type `t`.
fn var(id: NodeId, line: u32, t: Ty) -> Expr {
    ex(line, t, ExprKind::Path(Some(id)))
}

/// The unit struct `Foo`.
fn new_foo(line: u32) -> Expr {
    ex(line, foo_ty(), ExprKind::Path(None))
}

/// `x.close()`
fn close(id: NodeId, line: u32) -> Expr {
    ex(line, unit(), ExprKind::Other(vec![var(id, line, foo_ty())]))
}

fn lit(line: u32, t: Ty) -> Expr {
    ex(line, t, ExprKind::Other(vec![]))
}

fn ret(line: u32) -> Expr {
    ex(line, ty("!", false), ExprKind::Ret(None))
}

fn brk(line: u32) -> Expr {
    ex(line, ty("!", false), ExprKind::Break(None))
}

fn cont(line: u32) -> Expr {
    ex(line, ty("!", false), ExprKind::Again(None))
}

fn let_(line: u32, pat: Pat, init: Expr) -> Stmt {
    Stmt { span: sp(line), kind: StmtKind::Decl(Decl::Local(Local { pat, init: Some(init), source: LocalSource::Normal })) }
}

fn semi(line: u32, e: Expr) -> Stmt {
    Stmt { span: sp(line), kind: StmtKind::Semi(e) }
}

fn stmt(line: u32, e: Expr) -> Stmt {
    Stmt { span: sp(line), kind: StmtKind::Expr(e) }
}

fn blk(stmts: Vec<Stmt>, expr: Option<Expr>) -> Block {
    Block { stmts, expr: expr.map(Box::new) }
}

/// `if true { then } else { els }`
fn if_(line: u32, then: Block, els: Option<Block>) -> Expr {
    let els = els.map(|b| Box::new(ex(line, unit(), ExprKind::Block(b))));
    ex(line, unit(), ExprKind::If(Box::new(lit(line, ty("bool", false))), then, els))
}

fn loop_(line: u32, body: Block) -> Expr {
    ex(line, unit(), ExprKind::Loop(body))
}

fn match_(line: u32, scrutinee: Expr, arms: Vec<Arm>) -> Expr {
    ex(line, unit(), ExprKind::Match(Box::new(scrutinee), arms, MatchSource::Normal))
}

fn arm(pat: Pat, line: u32, body: Block) -> Arm {
    Arm { pats: vec![pat], guard: None, body: ex(line, unit(), ExprKind::Block(body)) }
}

/// A `#[test]` function with body `body`.
fn test_fn(body: Block) -> FnItem {
    FnItem { attrs: vec![Attribute::Word("test".to_string())], params: vec![], body }
}

/// The errors of checking `f`, as (message, line).
fn errors(f: &FnItem) -> Vec<(Message, u32)> {
    let diags = check_fn(f).expect("the check handles every construct of these functions");
    diags.iter().filter(|d| d.level == Level::Error).map(|d| (d.message, d.span.lo)).collect()
}

const F: NodeId = 1;

#[test]
fn close_method_is_accepted() {
    // impl Foo { #[allow_drop="Foo"] fn close(self) { } }
    let f = FnItem {
        attrs: vec![Attribute::NameValue("allow_drop".to_string(), Lit::Str("Foo".to_string()))],
        params: vec![bind(7, 13, foo_ty())],
        body: blk(vec![], None),
    };
    assert_eq!(errors(&f), vec![]);
}

#[test]
fn if_return() {
    let body = blk(
        vec![
            let_(18, bind(F, 18, foo_ty()), new_foo(18)),
            stmt(20, if_(20, blk(vec![semi(21, close(F, 21)), semi(22, ret(22))], None), None)),
            semi(25, close(F, 25)),
        ],
        None,
    );
    assert_eq!(errors(&test_fn(body)), vec![]);
}

#[test]
fn if_return_else() {
    let body = blk(
        vec![
            let_(30, bind(F, 30, foo_ty()), new_foo(30)),
            stmt(32, if_(32, blk(vec![semi(33, close(F, 33)), semi(34, ret(34))], None), Some(blk(vec![], None)))),
            semi(39, close(F, 39)),
        ],
        None,
    );
    assert_eq!(errors(&test_fn(body)), vec![]);
}

#[test]
fn if_return_else_return() {
    let body = blk(
        vec![let_(44, bind(F, 44, foo_ty()), new_foo(44))],
        Some(if_(
            46,
            blk(vec![semi(47, close(F, 47)), semi(48, ret(48))], None),
            Some(blk(vec![semi(50, close(F, 50)), semi(51, ret(51))], None)),
        )),
    );
    assert_eq!(errors(&test_fn(body)), vec![]);
}

#[test]
fn if_else_return() {
    let body = blk(
        vec![
            let_(57, bind(F, 57, foo_ty()), new_foo(57)),
            stmt(59, if_(59, blk(vec![], None), Some(blk(vec![semi(62, close(F, 62)), semi(63, ret(63))], None)))),
            semi(66, close(F, 66)),
        ],
        None,
    );
    assert_eq!(errors(&test_fn(body)), vec![]);
}

#[test]
fn if_else() {
    let body = blk(
        vec![
            let_(71, bind(F, 71, foo_ty()), new_foo(71)),
            stmt(72, if_(72, blk(vec![], None), Some(blk(vec![], None)))),
            semi(78, close(F, 78)),
            semi(79, ret(79)),
        ],
        None,
    );
    assert_eq!(errors(&test_fn(body)), vec![]);
}

#[test]
fn loop_break() {
    let body = blk(
        vec![let_(18, bind(F, 18, foo_ty()), new_foo(18))],
        Some(loop_(20, blk(vec![semi(21, close(F, 21)), semi(22, brk(22))], None))),
    );
    assert_eq!(errors(&test_fn(body)), vec![]);
}

#[test]
fn loop_if_break() {
    let body = blk(
        vec![let_(28, bind(F, 28, foo_ty()), new_foo(28))],
        Some(loop_(
            30,
            blk(
                vec![
                    stmt(31, if_(31, blk(vec![semi(32, close(F, 32)), semi(33, brk(33))], None), None)),
                    semi(36, close(F, 36)),
                    semi(37, brk(37)),
                ],
                None,
            ),
        )),
    );
    assert_eq!(errors(&test_fn(body)), vec![]);
}

#[test]
fn loop_match_break_else_break() {
    let m = match_(
        45,
        lit(45, ty("bool", false)),
        vec![
            arm(leaf(46, ty("bool", false)), 46, blk(vec![semi(47, close(F, 47)), semi(48, ret(48))], None)),
            arm(wild(50, ty("bool", false)), 50, blk(vec![semi(51, brk(51))], None)),
        ],
    );
    let body = blk(
        vec![
            let_(42, bind(F, 42, foo_ty()), new_foo(42)),
            stmt(44, loop_(44, blk(vec![], Some(m)))),
            semi(55, close(F, 55)),
        ],
        None,
    );
    assert_eq!(errors(&test_fn(body)), vec![]);
}

#[test]
fn loop_if_break_else() {
    let body = blk(
        vec![let_(60, bind(F, 60, foo_ty()), new_foo(60))],
        Some(loop_(
            62,
            blk(
                vec![
                    stmt(
                        63,
                        if_(
                            63,
                            blk(vec![semi(64, close(F, 64)), semi(65, brk(65))], None),
                            Some(blk(vec![semi(67, close(F, 67))], None)),
                        ),
                    ),
                    semi(69, brk(69)),
                ],
                None,
            ),
        )),
    );
    assert_eq!(errors(&test_fn(body)), vec![]);
}

#[test]
fn loop_if_break_else_break() {
    let body = blk(
        vec![let_(75, bind(F, 75, foo_ty()), new_foo(75))],
        Some(loop_(
            77,
            blk(
                vec![],
                Some(if_(
                    78,
                    blk(vec![semi(79, close(F, 79)), semi(80, brk(80))], None),
                    Some(blk(vec![semi(82, close(F, 82)), semi(83, brk(83))], None)),
                )),
            ),
        )),
    );
    assert_eq!(errors(&test_fn(body)), vec![]);
}

#[test]
fn loop_if_break_else_break2() {
    let body = blk(
        vec![let_(90, bind(F, 90, foo_ty()), new_foo(90))],
        Some(loop_(
            92,
            blk(
                vec![
                    stmt(
                        93,
                        if_(93, blk(vec![semi(94, close(F, 94)), semi(95, brk(95))], None), Some(blk(vec![], None))),
                    ),
                    semi(98, close(F, 98)),
                    semi(99, brk(99)),
                ],
                None,
            ),
        )),
    );
    assert_eq!(errors(&test_fn(body)), vec![]);
}

const N: NodeId = 2;

/// `n += 1`
fn increment(line: u32) -> Expr {
    ex(line, unit(), ExprKind::Other(vec![lit(line, ty("i32", false)), var(N, line, ty("i32", false))]))
}

#[test]
fn loop_count_test() {
    let body = blk(
        vec![
            let_(105, bind(F, 105, foo_ty()), new_foo(105)),
            let_(106, bind(N, 106, ty("i32", false)), lit(106, ty("i32", false))),
        ],
        Some(loop_(
            107,
            blk(
                vec![],
                Some(if_(
                    108,
                    blk(vec![semi(109, increment(109))], None),
                    Some(blk(vec![semi(111, close(F, 111)), semi(112, brk(112))], None)),
                )),
            ),
        )),
    );
    assert_eq!(errors(&test_fn(body)), vec![]);
}

#[test]
fn loop_count_test2() {
    let body = blk(
        vec![
            let_(119, bind(F, 119, foo_ty()), new_foo(119)),
            let_(120, bind(N, 120, ty("i32", false)), lit(120, ty("i32", false))),
        ],
        Some(loop_(
            121,
            blk(
                vec![],
                Some(if_(
                    122,
                    blk(vec![semi(123, close(F, 123)), semi(124, brk(124))], None),
                    Some(blk(vec![semi(126, increment(126))], None)),
                )),
            ),
        )),
    );
    assert_eq!(errors(&test_fn(body)), vec![]);
}

#[test]
fn loop_continue1() {
    let body = blk(
        vec![let_(18, bind(F, 18, foo_ty()), new_foo(18))],
        Some(loop_(
            20,
            blk(
                vec![],
                Some(if_(
                    21,
                    blk(vec![semi(22, cont(22))], None),
                    Some(blk(vec![semi(24, close(F, 24)), semi(25, brk(25))], None)),
                )),
            ),
        )),
    );
    assert_eq!(errors(&test_fn(body)), vec![]);
}

#[test]
fn loop_continue2() {
    let body = blk(
        vec![let_(33, bind(F, 33, foo_ty()), new_foo(33))],
        Some(loop_(
            35,
            blk(
                vec![
                    stmt(
                        36,
                        if_(36, blk(vec![semi(37, cont(37))], None), Some(blk(vec![semi(39, close(F, 39))], None))),
                    ),
                    semi(41, brk(41)),
                ],
                None,
            ),
        )),
    );
    assert_eq!(errors(&test_fn(body)), vec![]);
}

#[test]
fn loop_continue3() {
    let body = blk(
        vec![let_(47, bind(F, 47, foo_ty()), new_foo(47))],
        Some(loop_(
            49,
            blk(
                vec![
                    stmt(50, if_(50, blk(vec![semi(51, cont(51))], None), Some(blk(vec![], None)))),
                    semi(54, close(F, 54)),
                    semi(55, brk(55)),
                ],
                None,
            ),
        )),
    );
    assert_eq!(errors(&test_fn(body)), vec![]);
}

#[test]
fn loop_continue4() {
    let body = blk(
        vec![let_(61, bind(F, 61, foo_ty()), new_foo(61))],
        Some(loop_(
            63,
            blk(
                vec![
                    stmt(64, if_(64, blk(vec![semi(65, cont(65))], None), None)),
                    semi(67, close(F, 67)),
                    semi(68, brk(68)),
                ],
                None,
            ),
        )),
    );
    assert_eq!(errors(&test_fn(body)), vec![]);
}

fn bool_match(line: u32, first: Block, second: Block) -> Expr {
    match_(
        line,
        lit(line, ty("bool", false)),
        vec![
            arm(leaf(line + 1, ty("bool", false)), line + 1, first),
            arm(wild(line + 5, ty("bool", false)), line + 5, second),
        ],
    )
}

#[test]
fn match_return() {
    let body = blk(
        vec![
            let_(18, bind(F, 18, foo_ty()), new_foo(18)),
            stmt(20, bool_match(20, blk(vec![semi(22, close(F, 22)), semi(23, ret(23))], None), blk(vec![], None))),
            semi(29, close(F, 29)),
        ],
        None,
    );
    assert_eq!(errors(&test_fn(body)), vec![]);
}

#[test]
fn match_all_return() {
    let body = blk(
        vec![let_(34, bind(F, 34, foo_ty()), new_foo(34))],
        Some(bool_match(
            36,
            blk(vec![semi(38, close(F, 38)), semi(39, ret(39))], None),
            blk(vec![semi(42, close(F, 42)), semi(43, ret(43))], None),
        )),
    );
    assert_eq!(errors(&test_fn(body)), vec![]);
}

#[test]
fn match_one_return() {
    let body = blk(
        vec![let_(51, bind(F, 51, foo_ty()), new_foo(51))],
        Some(bool_match(
            53,
            blk(vec![semi(55, close(F, 55)), semi(56, ret(56))], None),
            blk(vec![semi(59, close(F, 59))], None),
        )),
    );
    assert_eq!(errors(&test_fn(body)), vec![]);
}

#[test]
fn match_second_return() {
    let body = blk(
        vec![let_(66, bind(F, 66, foo_ty()), new_foo(66))],
        Some(bool_match(
            68,
            blk(vec![semi(70, close(F, 70))], None),
            blk(vec![semi(73, close(F, 73)), semi(74, ret(74))], None),
        )),
    );
    assert_eq!(errors(&test_fn(body)), vec![]);
}

#[test]
fn match_two_return() {
    let int = || ty("i32", false);
    let m = match_(
        82,
        lit(82, int()),
        vec![
            arm(leaf(83, int()), 83, blk(vec![semi(84, close(F, 84)), semi(85, ret(85))], None)),
            arm(leaf(87, int()), 87, blk(vec![semi(88, close(F, 88)), semi(89, ret(89))], None)),
            arm(wild(91, int()), 91, blk(vec![], None)),
        ],
    );
    let body = blk(vec![let_(79, bind(F, 79, foo_ty()), new_foo(79)), stmt(82, m), semi(95, close(F, 95))], None);
    assert_eq!(errors(&test_fn(body)), vec![]);
}
