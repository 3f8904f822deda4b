//! The part of a checked function's syntax tree that the linearity check reads.
//!
//! Every node carries, as plain values, what the compiler knows of it and what
//! the check asks: its node id, its span and its type. A path expression also
//! carries the local binding it resolves to, if any.
use vstd::prelude::*;

verus! {

/// Identifier of a node of the syntax tree (a binding, an expression, ...).
pub type NodeId = u64;

/// A region of source text, as byte offsets.
#[derive(Clone, Copy, Debug, PartialEq, Eq, Structural)]
pub struct Span {
    pub lo: u32,
    pub hi: u32,
}

/// A type as the check sees it: the way the compiler prints it, whether its own
/// definition carries `#[drop_protect]`, and the types it is built from.
#[derive(Debug)]
pub struct Ty {
    pub repr: String,
    pub protected: bool,
    pub params: Vec<Ty>,
}

/// The literal on the right of a `name = literal` attribute.
#[derive(Debug)]
pub enum Lit {
    Str(String),
    Other,
}

/// An attribute of the checked function.
#[derive(Debug)]
pub enum Attribute {
    /// `#[name]`
    Word(String),
    /// `#[name(...)]`
    List(String),
    /// `#[name = literal]`
    NameValue(String, Lit),
}

/// A pattern node.
#[derive(Debug)]
pub struct Pat {
    pub id: NodeId,
    pub span: Span,
    pub ty: Ty,
    pub kind: PatKind,
}

#[derive(Debug)]
pub enum PatKind {
    /// A binding `x` or `x @ sub`.
    Ident(Option<Box<Pat>>),
    /// The wildcard `_`.
    Wild,
    /// A pattern built of sub-patterns (tuple, struct, enum variant, box,
    /// reference, slice), listed in the order they are walked.
    Compound(Vec<Pat>),
    /// A pattern without sub-patterns and without binding (literal, range,
    /// unit variant).
    Leaf,
}

/// Where a `match` comes from.
#[derive(Clone, Copy, Debug, PartialEq, Eq, Structural)]
pub enum MatchSource {
    Normal,
    IfLetDesugar,
    WhileLetDesugar,
    ForLoopDesugar,
}

/// Where a `let` comes from.
#[derive(Clone, Copy, Debug, PartialEq, Eq, Structural)]
pub enum LocalSource {
    Normal,
    ForLoop,
}

/// An expression node.
#[derive(Debug)]
pub struct Expr {
    pub id: NodeId,
    pub span: Span,
    pub ty: Ty,
    pub kind: ExprKind,
}

#[derive(Debug)]
pub enum ExprKind {
    /// A path; `Some(id)` when it names the local binding `id`.
    Path(Option<NodeId>),
    /// `lhs = rhs`
    Assign(Box<Expr>, Box<Expr>),
    /// `&e` or `&mut e`
    AddrOf(Box<Expr>),
    /// `if cond { .. } else ..`
    If(Box<Expr>, Block, Option<Box<Expr>>),
    /// `match scrutinee { arms }`
    Match(Box<Expr>, Vec<Arm>, MatchSource),
    /// `loop { .. }`
    Loop(Block),
    /// `while cond { .. }`
    While(Box<Expr>, Block),
    /// `return` or `return e`
    Ret(Option<Box<Expr>>),
    /// `break`, with its label if it has one.
    Break(Option<u64>),
    /// `continue`, with its label if it has one.
    Again(Option<u64>),
    /// A block expression, or the body of a closure.
    Block(Block),
    /// Any other expression (call, method call, literal, operator, field,
    /// ...), with its sub-expressions in the order they are walked.
    Other(Vec<Expr>),
}

/// One arm of a `match`.
#[derive(Debug)]
pub struct Arm {
    pub pats: Vec<Pat>,
    pub guard: Option<Expr>,
    pub body: Expr,
}

/// A block: statements and an optional trailing expression.
#[derive(Debug)]
pub struct Block {
    pub stmts: Vec<Stmt>,
    pub expr: Option<Box<Expr>>,
}

/// A statement.
#[derive(Debug)]
pub struct Stmt {
    pub span: Span,
    pub kind: StmtKind,
}

#[derive(Debug)]
pub enum StmtKind {
    /// A declaration.
    Decl(Decl),
    /// An expression without a trailing semicolon.
    Expr(Expr),
    /// An expression followed by a semicolon.
    Semi(Expr),
}

#[derive(Debug)]
pub enum Decl {
    /// `let pat = init;`
    Local(Local),
    /// A nested item, given by the bodies of the functions it declares, in
    /// the order the walker reaches them.
    Item(Vec<Block>),
}

#[derive(Debug)]
pub struct Local {
    pub pat: Pat,
    pub init: Option<Expr>,
    pub source: LocalSource,
}

/// A function to check: its attributes, its parameter patterns and its body.
#[derive(Debug)]
pub struct FnItem {
    pub attrs: Vec<Attribute>,
    pub params: Vec<Pat>,
    pub body: Block,
}

} // verus!
