use vstd::prelude::*;
use crate::token::{ArithError, Op, Tok};

verus! {

pub open spec fn abs(a: int) -> int {
    if a < 0 { -a } else { a }
}

/// Integer division truncating toward zero.
pub open spec fn trunc_div(a: int, b: int) -> int {
    if (a < 0) == (b < 0) { abs(a) / abs(b) } else { -(abs(a) / abs(b)) }
}

/// A mathematical result, where it fits in an `isize`.
pub open spec fn fit(v: int) -> Result<isize, ArithError> {
    if isize::MIN <= v <= isize::MAX {
        Ok(v as isize)
    } else {
        Err(ArithError::Overflow)
    }
}

/// `y op x`, with `y` the operand pushed first.
pub open spec fn apply_op(op: Op, y: isize, x: isize) -> Result<isize, ArithError> {
    match op {
        Op::Plus => fit(y + x),
        Op::Minus => fit(y - x),
        Op::Times => fit(y * x),
        Op::Divide => if x == 0 {
            Err(ArithError::DivisionByZero)
        } else {
            fit(trunc_div(y as int, x as int))
        },
        _ => Err(ArithError::ParenInPostfix),
    }
}

/// One token of evaluation, on the operand stack (top last).
pub open spec fn eval_step(st: Seq<isize>, tok: Tok) -> Result<Seq<isize>, ArithError> {
    match tok {
        Tok::Num(n) => Ok(st.push(n)),
        Tok::Op(Op::ParenOpen) | Tok::Op(Op::ParenClose) => Err(ArithError::ParenInPostfix),
        Tok::Op(op) => if st.len() < 2 {
            Err(ArithError::StackUnderflow)
        } else {
            match apply_op(op, st[st.len() - 2], st[st.len() - 1]) {
                Ok(v) => Ok(st.drop_last().drop_last().push(v)),
                Err(e) => Err(e),
            }
        },
    }
}

/// The operand stack after the tokens of `t`, read left to right.
pub open spec fn eval_prefix(t: Seq<Tok>) -> Result<Seq<isize>, ArithError>
    decreases t.len(),
{
    if t.len() == 0 {
        Ok(Seq::empty())
    } else {
        match eval_prefix(t.drop_last()) {
            Ok(st) => eval_step(st, t.last()),
            Err(e) => Err(e),
        }
    }
}

/// The value of a postfix token sequence: the one value left on the stack.
pub open spec fn evaluate_spec(t: Seq<Tok>) -> Result<isize, ArithError> {
    match eval_prefix(t) {
        Ok(st) => if st.len() == 1 {
            Ok(st[0])
        } else {
            Err(ArithError::ResidualStack)
        },
        Err(e) => Err(e),
    }
}

proof fn lemma_eval_err_persists(t: Seq<Tok>, j: int)
    requires
        0 <= j <= t.len(),
        eval_prefix(t.take(j)) is Err,
    ensures
        eval_prefix(t) == eval_prefix(t.take(j)),
    decreases t.len() - j,
{
    if j < t.len() {
        assert(t.take(j + 1).drop_last() =~= t.take(j));
        lemma_eval_err_persists(t, j + 1);
    } else {
        assert(t.take(j) =~= t);
    }
}

/// `y op x` on machine integers, failing on a zero divisor and on overflow.
fn apply(op: Op, y: isize, x: isize) -> (r: Result<isize, ArithError>)
    ensures
        r == apply_op(op, y, x),
{
    let res = match op {
        Op::Plus => y.checked_add(x),
        Op::Minus => y.checked_sub(x),
        Op::Times => y.checked_mul(x),
        Op::Divide => {
            if x == 0 {
                return Err(ArithError::DivisionByZero);
            }
            y.checked_div(x)
        },
        _ => {
            return Err(ArithError::ParenInPostfix);
        },
    };
    match res {
        Some(v) => Ok(v),
        None => Err(ArithError::Overflow),
    }
}

/// Evaluates a postfix token sequence with an operand stack.
pub fn evaluate_postfix(input: &Vec<Tok>) -> (r: Result<isize, ArithError>)
    ensures
        r == evaluate_spec(input@),
{
    let mut stack: Vec<isize> = Vec::new();
    let mut i: usize = 0;
    while i < input.len()
        invariant
            i <= input.len(),
            eval_prefix(input@.take(i as int)) == Ok::<Seq<isize>, ArithError>(stack@),
        decreases input.len() - i,
    {
        let tok = input[i];
        proof {
            assert(input@.take(i + 1).drop_last() =~= input@.take(i as int));
            assert(input@.take(i + 1).last() == tok);
        }
        match tok {
            Tok::Num(n) => {
                stack.push(n);
            },
            Tok::Op(op) => {
                if matches!(op, Op::ParenOpen) || matches!(op, Op::ParenClose) {
                    proof {
                        lemma_eval_err_persists(input@, i + 1);
                    }
                    return Err(ArithError::ParenInPostfix);
                }
                if stack.len() < 2 {
                    proof {
                        lemma_eval_err_persists(input@, i + 1);
                    }
                    return Err(ArithError::StackUnderflow);
                }
                let ghost s = stack@;
                let x = stack.pop().unwrap();
                let y = stack.pop().unwrap();
                assert(stack@ =~= s.drop_last().drop_last());
                match apply(op, y, x) {
                    Ok(z) => {
                        stack.push(z);
                    },
                    Err(e) => {
                        proof {
                            lemma_eval_err_persists(input@, i + 1);
                        }
                        return Err(e);
                    },
                }
            },
        }
        i = i + 1;
    }
    proof {
        assert(input@.take(i as int) =~= input@);
    }
    if stack.len() == 1 {
        Ok(stack[0])
    } else {
        Err(ArithError::ResidualStack)
    }
}

} // verus!
