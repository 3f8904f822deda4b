//! What the check reports, and the constructs it cannot check.
use vstd::prelude::*;
use crate::ast::{NodeId, Span};

verus! {

#[derive(Clone, Copy, Debug, PartialEq, Eq, Structural)]
pub enum Level {
    Error,
    Note,
}

/// The message of a diagnostic.
#[derive(Clone, Copy, Debug, PartialEq, Eq, Structural)]
pub enum Message {
    /// A tracked local reaches the end of its function, a `return`, or the
    /// end of the loop iteration in which it was bound, without being
    /// consumed, and the function may not drop its type.
    DroppedVar,
    /// A wildcard pattern discards a value of a protected type.
    ProtectedTypeDropped,
    /// A statement discards the protected value its expression yields.
    ProtectedValueUnused,
    /// An assignment overwrites a tracked local.
    CannotOverwrite,
    /// An `if` without `else` leaves the tracked locals in another state than
    /// skipping it would.
    IfBranchNotLinear,
    /// The two branches of an `if` leave the tracked locals in different states.
    IfBranchesNotLinear,
    /// The arms of a `match` leave the tracked locals in different states; or
    /// a local bound by an arm's pattern, or inside the branch of an `if`
    /// that goes on while the other leaves its block, would outlive it.
    MatchArmsNotLinear,
    /// A `for` loop leaves the tracked locals in another state when it breaks
    /// than when it runs to its end.
    NonLinearForLoop,
    /// Two branches leave a loop with different tracked locals.
    DivergingLoopout,
    /// A `break` leaves a loop with other tracked locals than an earlier exit.
    DivergingBreak,
    /// A `continue` reaches the loop head with other tracked locals than the
    /// loop started with.
    DivergingContinue,
    /// Note: the binding with this id holds a protected value and is now tracked.
    AddingProtected(NodeId),
    /// Note: a tracked local is moved here.
    ConsumingProtected,
    /// Note: this `match` is the expansion of a `for` loop.
    ForLoopExpansion,
}

/// A message at a place in the source.
#[derive(Clone, Copy, Debug, PartialEq, Eq, Structural)]
pub struct Diagnostic {
    pub level: Level,
    pub span: Span,
    pub message: Message,
}

/// A construct the check does not handle; meeting one stops the check,
/// which then returns it as its error, for every input, rather than
/// leaving the input undefined or aborting.
#[derive(Clone, Copy, Debug, PartialEq, Eq, Structural)]
pub enum Unsupported {
    /// A `while` loop.
    While,
    /// A `break` with a label.
    LabelledBreak,
    /// A `continue` with a label.
    LabelledContinue,
    /// A `continue` that is not inside a `loop` the check entered.
    ContinueOutsideLoop,
    /// A `match` arm with a guard.
    ArmGuard,
    /// A `let` that comes from the expansion of a `for` loop.
    ForLoopLocal,
    /// An assignment to a path that does not name a local.
    AssignToNonLocal,
    /// An assignment to something that is not a path.
    AssignToPlace,
}

pub open spec fn error(span: Span, message: Message) -> Diagnostic {
    Diagnostic { level: Level::Error, span, message }
}

pub open spec fn note(span: Span, message: Message) -> Diagnostic {
    Diagnostic { level: Level::Note, span, message }
}

impl Diagnostic {
    pub fn new_error(span: Span, message: Message) -> (r: Diagnostic)
        ensures
            r == error(span, message),
    {
        Diagnostic { level: Level::Error, span, message }
    }

    pub fn new_note(span: Span, message: Message) -> (r: Diagnostic)
        ensures
            r == note(span, message),
    {
        Diagnostic { level: Level::Note, span, message }
    }

    /// Whether this diagnostic is an error (and not a note).
    pub fn is_error(&self) -> (r: bool)
        ensures
            r == (self.level == Level::Error),
    {
        match self.level {
            Level::Error => true,
            Level::Note => false,
        }
    }
}

/// The text a compiler prints for a message.
pub open spec fn spec_text(m: Message) -> &'static str {
    match m {
        Message::DroppedVar => "dropped var",
        Message::ProtectedTypeDropped => "Protected type is dropped",
        Message::ProtectedValueUnused => "Return type is protected but unused",
        Message::CannotOverwrite => "cannot overwrite linear type",
        Message::IfBranchNotLinear => "If branch is not linear",
        Message::IfBranchesNotLinear => "If branches are not linear",
        Message::MatchArmsNotLinear => "Match arms are not linear",
        Message::NonLinearForLoop => "Non-linear for loop",
        Message::DivergingLoopout => "Diverging loopout",
        Message::DivergingBreak => "Diverging break",
        Message::DivergingContinue => "Diverging continue",
        Message::AddingProtected(_) => "Adding drop protected type to map. Id:",
        Message::ConsumingProtected => "Consuming protected var",
        Message::ForLoopExpansion => "Desugar",
    }
}

impl Message {
    /// The text a compiler prints for this message (for a tracked binding,
    /// followed by its id).
    pub fn text(&self) -> (r: &'static str)
        ensures
            r == spec_text(*self),
    {
        match self {
            Message::DroppedVar => "dropped var",
            Message::ProtectedTypeDropped => "Protected type is dropped",
            Message::ProtectedValueUnused => "Return type is protected but unused",
            Message::CannotOverwrite => "cannot overwrite linear type",
            Message::IfBranchNotLinear => "If branch is not linear",
            Message::IfBranchesNotLinear => "If branches are not linear",
            Message::MatchArmsNotLinear => "Match arms are not linear",
            Message::NonLinearForLoop => "Non-linear for loop",
            Message::DivergingLoopout => "Diverging loopout",
            Message::DivergingBreak => "Diverging break",
            Message::DivergingContinue => "Diverging continue",
            Message::AddingProtected(_) => "Adding drop protected type to map. Id:",
            Message::ConsumingProtected => "Consuming protected var",
            Message::ForLoopExpansion => "Desugar",
        }
    }
}

} // verus!
