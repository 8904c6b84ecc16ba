use vstd::prelude::*;

verus! {

/// A binary operator or a parenthesis.
#[derive(Clone, Copy, Hash, PartialEq, Eq, Debug, Structural)]
pub enum Op {
    Plus,
    Minus,
    Times,
    Divide,
    ParenOpen,
    ParenClose,
}

/// A token: a number, or an operator / parenthesis.
#[derive(Clone, Copy, Hash, PartialEq, Eq, Debug, Structural)]
pub enum Tok {
    Num(isize),
    Op(Op),
}

/// How the operator on top of the operator stack compares with an incoming one.
#[derive(Clone, Copy, PartialEq, Eq, Debug, Structural)]
pub enum Precedence {
    Higher,
    Lower,
    Equal,
}

/// Why an expression could not be lexed, converted or evaluated.
#[derive(Clone, Copy, PartialEq, Eq, Debug, Structural)]
pub enum ArithError {
    /// A character outside `0-9 + - * / ( )`.
    UnknownSymbol(char),
    /// A run of digits whose value does not fit in an `isize`.
    NumberTooLarge,
    /// A `)` without a matching `(`, or a `(` that is never closed.
    UnbalancedParens,
    /// An operator met with fewer than two operands on the stack.
    StackUnderflow,
    /// A division whose divisor is zero.
    DivisionByZero,
    /// An intermediate result that does not fit in an `isize`.
    Overflow,
    /// A parenthesis in a postfix sequence.
    ParenInPostfix,
    /// Evaluation ended with zero or several values on the stack.
    ResidualStack,
}

/// The precedence table, with `top` the operator on the stack and `next` the
/// incoming one. Equal precedence reduces the top first (left associativity).
pub open spec fn prec_spec(top: Op, next: Op) -> Precedence {
    match (top, next) {
        (Op::Plus, Op::Plus) | (Op::Plus, Op::Minus) | (Op::Minus, Op::Plus) | (
            Op::Minus,
            Op::Minus,
        ) => Precedence::Equal,
        (Op::Times, Op::Times) | (Op::Divide, Op::Divide) => Precedence::Equal,
        (Op::Times, Op::Plus) | (Op::Times, Op::Minus) | (Op::Times, Op::Divide) => Precedence::Higher,
        (Op::Divide, Op::Plus) | (Op::Divide, Op::Minus) | (Op::Divide, Op::Times) => Precedence::Higher,
        (_, Op::ParenOpen) => Precedence::Higher,
        _ => Precedence::Lower,
    }
}

/// Compares the operator on top of the stack with the incoming operator.
pub fn precedence_check(top_op: &Op, next_op: &Op) -> (r: Precedence)
    ensures
        r == prec_spec(*top_op, *next_op),
{
    match (*top_op, *next_op) {
        (Op::Plus, Op::Plus) | (Op::Plus, Op::Minus) | (Op::Minus, Op::Plus) | (
            Op::Minus,
            Op::Minus,
        ) => Precedence::Equal,
        (Op::Times, Op::Times) | (Op::Divide, Op::Divide) => Precedence::Equal,
        (Op::Times, Op::Plus) | (Op::Times, Op::Minus) | (Op::Times, Op::Divide) => Precedence::Higher,
        (Op::Divide, Op::Plus) | (Op::Divide, Op::Minus) | (Op::Divide, Op::Times) => Precedence::Higher,
        (_, Op::ParenOpen) => Precedence::Higher,
        _ => Precedence::Lower,
    }
}

/// True of the four binary operators.
pub open spec fn is_binary(op: Op) -> bool {
    op != Op::ParenOpen && op != Op::ParenClose
}

/// True of a token that is a parenthesis.
pub open spec fn is_paren_tok(t: Tok) -> bool {
    t == Tok::Op(Op::ParenOpen) || t == Tok::Op(Op::ParenClose)
}

} // verus!
