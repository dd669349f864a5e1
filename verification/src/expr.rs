//! Literals and expressions, as the schedule language reads them.

use vstd::prelude::*;

verus! {

/// A literal of the rule language.
///
/// A float is kept as the text that the engine prints for it, so that no
/// arithmetic on floats is needed to carry one through.
#[derive(Debug)]
pub enum Literal {
    Int(i64),
    Float(String),
    String(String),
    Bool(bool),
    Unit,
}

/// A literal, as contracts see it.
pub enum LiteralView {
    Int(i64),
    Float(Seq<char>),
    String(Seq<char>),
    Bool(bool),
    Unit,
}

impl View for Literal {
    type V = LiteralView;

    open spec fn view(&self) -> LiteralView {
        match self {
            Literal::Int(value) => LiteralView::Int(*value),
            Literal::Float(text) => LiteralView::Float(text@),
            Literal::String(text) => LiteralView::String(text@),
            Literal::Bool(value) => LiteralView::Bool(*value),
            Literal::Unit => LiteralView::Unit,
        }
    }
}

/// Contracts see a literal as what it holds, of its own kind.
pub proof fn law_literal_view(value: i64, text: String, truth: bool)
    ensures
        Literal::Int(value)@ == LiteralView::Int(value),
        Literal::Float(text)@ == LiteralView::Float(text@),
        Literal::String(text)@ == LiteralView::String(text@),
        Literal::Bool(truth)@ == LiteralView::Bool(truth),
        Literal::Unit@ == LiteralView::Unit,
{
}

impl Clone for Literal {
    fn clone(&self) -> (copy: Self)
        ensures
            copy == *self,
    {
        match self {
            Literal::Int(value) => Literal::Int(*value),
            Literal::Float(text) => Literal::Float(text.clone()),
            Literal::String(text) => Literal::String(text.clone()),
            Literal::Bool(value) => Literal::Bool(*value),
            Literal::Unit => Literal::Unit,
        }
    }
}

/// An expression: a bare symbol, a call, or a literal.
///
/// The first field of each variant is the expression's position, a number by
/// which the caller finds its own record of the expression again (its source
/// span, for one). Schedules never look inside it.
#[derive(Debug)]
pub enum Expr {
    Var(usize, String),
    Call(usize, String, Vec<Expr>),
    Lit(usize, Literal),
}

impl Expr {
    /// The position that the expression carries.
    pub open spec fn spec_position(self) -> usize {
        match self {
            Expr::Var(position, _) => position,
            Expr::Call(position, _, _) => position,
            Expr::Lit(position, _) => position,
        }
    }

    /// The position that the expression carries.
    pub fn position(&self) -> (position: usize)
        ensures
            position == self.spec_position(),
    {
        match self {
            Expr::Var(position, _) => *position,
            Expr::Call(position, _, _) => *position,
            Expr::Lit(position, _) => *position,
        }
    }

    /// Whatever an expression is, it carries the position that it was made with.
    pub proof fn law_position(position: usize, name: String, args: Vec<Expr>, value: Literal)
        ensures
            Expr::Var(position, name).spec_position() == position,
            Expr::Call(position, name, args).spec_position() == position,
            Expr::Lit(position, value).spec_position() == position,
    {
    }

    /// Whether the expression is the bare symbol `symbol`.
    pub open spec fn is_symbol(self, symbol: Seq<char>) -> bool {
        self matches Expr::Var(_, name) && name@ == symbol
    }
}

} // verus!
