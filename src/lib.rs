//! Arithmetic expressions over integers: a lexer from characters to tokens,
//! a shunting-yard conversion from infix to postfix order, and a stack
//! machine that evaluates postfix token sequences.

pub mod token;
pub mod lexer;
pub mod postfix;
pub mod eval;
pub mod pipeline;
pub mod balanced;
pub mod laws;

pub use token::{ArithError, Op, Precedence, Tok, precedence_check};
pub use lexer::tok_of_char;
pub use postfix::{check_ops, check_ops_rec, postfix_of_infix};
pub use eval::evaluate_postfix;
pub use pipeline::evaluate_chars;
pub use balanced::balanced_string;
