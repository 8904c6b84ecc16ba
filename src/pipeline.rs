use vstd::prelude::*;
use crate::token::{ArithError, Tok};
use crate::lexer::{lex_spec, tok_of_char};
use crate::postfix::{postfix_of_infix, postfix_spec};
use crate::eval::{evaluate_postfix, evaluate_spec};

verus! {

/// The value of an infix expression given as characters: lexed, converted to
/// postfix and evaluated, failing at the first stage that fails.
pub open spec fn eval_chars_spec(s: Seq<char>) -> Result<isize, ArithError> {
    match lex_spec(s) {
        Err(e) => Err(e),
        Ok(infix) => match postfix_spec(infix) {
            Err(e) => Err(e),
            Ok(post) => evaluate_spec(post),
        },
    }
}

/// Lexes, converts and evaluates an infix expression.
pub fn evaluate_chars(input: &Vec<char>) -> (r: Result<isize, ArithError>)
    ensures
        r == eval_chars_spec(input@),
{
    let infix: Vec<Tok> = match tok_of_char(input) {
        Ok(v) => v,
        Err(e) => {
            return Err(e);
        },
    };
    let post: Vec<Tok> = match postfix_of_infix(&infix) {
        Ok(v) => v,
        Err(e) => {
            return Err(e);
        },
    };
    evaluate_postfix(&post)
}

} // verus!
