use vstd::prelude::*;
use crate::token::{ArithError, Op, Precedence, Tok, is_binary, is_paren_tok, prec_spec, precedence_check};
use crate::laws::lemma_operator_stack_ordered;

verus! {

/// `above` may stand directly on `below` in the operator stack: an open
/// parenthesis may stand on anything, any other operator only on one that it
/// binds at least as tightly as.
#[verifier::opaque]
pub open spec fn binds_over(above: Op, below: Op) -> bool {
    above == Op::ParenOpen || prec_spec(above, below) != Precedence::Lower
}

/// The operator stack (top last) is ordered: reading from the top, each
/// operator has higher or equal precedence than the one below it, except that
/// an open parenthesis starts a fresh group above whatever lies beneath it.
pub open spec fn ops_ordered(s: Seq<Op>) -> bool {
    forall|i: int| 0 < i < s.len() ==> #[trigger] binds_over(s[i], s[i - 1])
}

/// Like `binds_over`, with strictly higher precedence.
#[verifier::opaque]
pub open spec fn binds_tighter(above: Op, below: Op) -> bool {
    above == Op::ParenOpen || prec_spec(above, below) == Precedence::Higher
}

/// Like `ops_ordered`, with strictly higher precedence: the ordering that the
/// converter's operator stack keeps.
pub open spec fn ops_strictly_ordered(s: Seq<Op>) -> bool {
    forall|i: int| 0 < i < s.len() ==> #[trigger] binds_tighter(s[i], s[i - 1])
}

/// No closing parenthesis is ever held on the operator stack.
pub open spec fn no_close(s: Seq<Op>) -> bool {
    forall|i: int| 0 <= i < s.len() ==> #[trigger] s[i] != Op::ParenClose
}

/// A token sequence without parentheses.
pub open spec fn no_paren(s: Seq<Tok>) -> bool {
    forall|i: int| 0 <= i < s.len() ==> !is_paren_tok(#[trigger] s[i])
}

/// On a closing parenthesis: move operators to the output until the matching
/// open parenthesis, which is dropped.
pub open spec fn pop_to_paren(ops: Seq<Op>, out: Seq<Tok>) -> Result<(Seq<Op>, Seq<Tok>), ArithError>
    decreases ops.len(),
{
    if ops.len() == 0 {
        Err(ArithError::UnbalancedParens)
    } else if ops.last() == Op::ParenOpen {
        Ok((ops.drop_last(), out))
    } else {
        pop_to_paren(ops.drop_last(), out.push(Tok::Op(ops.last())))
    }
}

/// Before pushing the binary operator `op`: move to the output every operator
/// on top that binds tighter, and at most one of equal precedence.
pub open spec fn pop_for(op: Op, ops: Seq<Op>, out: Seq<Tok>) -> (Seq<Op>, Seq<Tok>)
    decreases ops.len(),
{
    if ops.len() == 0 {
        (ops, out)
    } else {
        match prec_spec(ops.last(), op) {
            Precedence::Higher => pop_for(op, ops.drop_last(), out.push(Tok::Op(ops.last()))),
            Precedence::Equal => (ops.drop_last(), out.push(Tok::Op(ops.last()))),
            Precedence::Lower => (ops, out),
        }
    }
}

/// One token of the conversion, on the state (operator stack, output).
pub open spec fn convert_step(ops: Seq<Op>, out: Seq<Tok>, tok: Tok) -> Result<(Seq<Op>, Seq<Tok>), ArithError> {
    match tok {
        Tok::Num(n) => Ok((ops, out.push(Tok::Num(n)))),
        Tok::Op(Op::ParenOpen) => Ok((ops.push(Op::ParenOpen), out)),
        Tok::Op(Op::ParenClose) => pop_to_paren(ops, out),
        Tok::Op(op) => {
            let (o2, out2) = pop_for(op, ops, out);
            Ok((o2.push(op), out2))
        },
    }
}

/// The conversion state after the tokens of `t`, read left to right.
pub open spec fn convert_prefix(t: Seq<Tok>) -> Result<(Seq<Op>, Seq<Tok>), ArithError>
    decreases t.len(),
{
    if t.len() == 0 {
        Ok((Seq::empty(), Seq::empty()))
    } else {
        match convert_prefix(t.drop_last()) {
            Err(e) => Err(e),
            Ok((ops, out)) => convert_step(ops, out, t.last()),
        }
    }
}

/// At the end of input: the operators left on the stack go to the output in
/// pop order; an open parenthesis left there was never closed.
pub open spec fn flush_ops(ops: Seq<Op>, out: Seq<Tok>) -> Result<Seq<Tok>, ArithError>
    decreases ops.len(),
{
    if ops.len() == 0 {
        Ok(out)
    } else if ops.last() == Op::ParenOpen {
        Err(ArithError::UnbalancedParens)
    } else {
        flush_ops(ops.drop_last(), out.push(Tok::Op(ops.last())))
    }
}

/// The postfix form of an infix token sequence.
pub open spec fn postfix_spec(t: Seq<Tok>) -> Result<Seq<Tok>, ArithError> {
    match convert_prefix(t) {
        Ok((ops, out)) => flush_ops(ops, out),
        Err(e) => Err(e),
    }
}

pub(crate) proof fn lemma_ordered_push(s: Seq<Op>, op: Op)
    requires
        s.len() > 0,
    ensures
        ops_ordered(s.push(op)) == (ops_ordered(s) && binds_over(op, s.last())),
{
    let t = s.push(op);
    if ops_ordered(t) {
        assert(binds_over(t[s.len() as int], t[s.len() - 1]));
        assert forall|i: int| 0 < i < s.len() implies #[trigger] binds_over(s[i], s[i - 1]) by {
            assert(binds_over(t[i], t[i - 1]));
        }
    }
    if ops_ordered(s) && binds_over(op, s.last()) {
        assert forall|i: int| 0 < i < t.len() implies #[trigger] binds_over(t[i], t[i - 1]) by {
            if i < s.len() {
                assert(binds_over(s[i], s[i - 1]));
            }
        }
    }
}

/// Whether the stack `ops` with `op` pushed on top of it is ordered.
pub fn check_ops_rec(ops: &Vec<Op>, op: Op) -> (r: bool)
    ensures
        r == ops_ordered(ops@.push(op)),
{
    let n = ops.len();
    if n == 0 {
        assert(ops_ordered(ops@.push(op)));
        return true;
    }
    proof {
        lemma_ordered_push(ops@, op);
        reveal(binds_over);
    }
    let below = ops[n - 1];
    if !matches!(op, Op::ParenOpen) && precedence_check(&op, &below) == Precedence::Lower {
        return false;
    }
    check_ops(ops)
}

/// Whether an operator stack (top last) is ordered.
pub fn check_ops(ops: &Vec<Op>) -> (r: bool)
    ensures
        r == ops_ordered(ops@),
{
    let mut i: usize = 1;
    while i < ops.len()
        invariant
            1 <= i,
            forall|k: int| 0 < k < i && k < ops@.len() ==> #[trigger] binds_over(ops@[k], ops@[k - 1]),
        decreases ops.len() - i,
    {
        proof {
            reveal(binds_over);
        }
        if !matches!(ops[i], Op::ParenOpen) && precedence_check(&ops[i], &ops[i - 1]) == Precedence::Lower {
            assert(!binds_over(ops@[i as int], ops@[i - 1]));
            return false;
        }
        i = i + 1;
    }
    true
}

/// Pops the operators that must be output before the binary operator `op` is
/// pushed; the stack stays ordered with `op` on top.
fn reduce_before(op: Op, ops: &mut Vec<Op>, postfix: &mut Vec<Tok>)
    requires
        is_binary(op),
    ensures
        (final(ops)@, final(postfix)@) == pop_for(op, old(ops)@, old(postfix)@),
{
    let ghost goal = pop_for(op, ops@, postfix@);
    while ops.len() > 0
        invariant
            pop_for(op, ops@, postfix@) == goal,
            goal == pop_for(op, old(ops)@, old(postfix)@),
        decreases ops.len(),
    {
        let top = ops[ops.len() - 1];
        let ghost s = ops@;
        match precedence_check(&top, &op) {
            Precedence::Higher => {
                ops.pop();
                postfix.push(Tok::Op(top));
                assert(ops@ =~= s.drop_last());
            },
            Precedence::Equal => {
                ops.pop();
                postfix.push(Tok::Op(top));
                assert(ops@ =~= s.drop_last());
                return;
            },
            Precedence::Lower => {
                return;
            },
        }
    }
}

/// Pops operators to the output down to the nearest open parenthesis, which
/// is dropped; false where the stack holds none.
fn unwind_to_paren(ops: &mut Vec<Op>, postfix: &mut Vec<Tok>) -> (ok: bool)
    ensures
        ok ==> pop_to_paren(old(ops)@, old(postfix)@) == Ok::<(Seq<Op>, Seq<Tok>), ArithError>((final(ops)@, final(postfix)@)),
        !ok ==> pop_to_paren(old(ops)@, old(postfix)@) == Err::<(Seq<Op>, Seq<Tok>), ArithError>(ArithError::UnbalancedParens),
{
    let ghost goal = pop_to_paren(ops@, postfix@);
    loop
        invariant
            pop_to_paren(ops@, postfix@) == goal,
            goal == pop_to_paren(old(ops)@, old(postfix)@),
        decreases ops.len(),
    {
        let ghost s = ops@;
        match ops.pop() {
            None => {
                return false;
            },
            Some(top) => {
                assert(ops@ =~= s.drop_last());
                if matches!(top, Op::ParenOpen) {
                    return true;
                }
                postfix.push(Tok::Op(top));
            },
        }
    }
}

/// Converts an infix token sequence into postfix order (shunting-yard).
pub fn postfix_of_infix(infix: &Vec<Tok>) -> (r: Result<Vec<Tok>, ArithError>)
    ensures
        match r {
            Ok(v) => postfix_spec(infix@) == Ok::<Seq<Tok>, ArithError>(v@),
            Err(e) => postfix_spec(infix@) == Err::<Seq<Tok>, ArithError>(e),
        },
        r matches Ok(v) ==> no_paren(v@),
{
    let mut ops: Vec<Op> = Vec::new();
    let mut postfix: Vec<Tok> = Vec::new();
    let mut i: usize = 0;
    while i < infix.len()
        invariant
            i <= infix.len(),
            convert_prefix(infix@.take(i as int)) == Ok::<(Seq<Op>, Seq<Tok>), ArithError>((ops@, postfix@)),
        decreases infix.len() - i,
    {
        let tok = infix[i];
        proof {
            assert(infix@.take(i + 1).drop_last() =~= infix@.take(i as int));
            assert(infix@.take(i + 1).last() == tok);
        }
        match tok {
            Tok::Num(n) => {
                postfix.push(Tok::Num(n));
            },
            Tok::Op(Op::ParenOpen) => {
                ops.push(Op::ParenOpen);
            },
            Tok::Op(Op::ParenClose) => {
                if !unwind_to_paren(&mut ops, &mut postfix) {
                    proof {
                        lemma_convert_err_persists(infix@, i + 1);
                    }
                    return Err(ArithError::UnbalancedParens);
                }
            },
            Tok::Op(op) => {
                reduce_before(op, &mut ops, &mut postfix);
                ops.push(op);
            },
        }
        i = i + 1;
    }
    proof {
        assert(infix@.take(i as int) =~= infix@);
        lemma_operator_stack_ordered(infix@);
    }
    loop
        invariant
            flush_ops(ops@, postfix@) == postfix_spec(infix@),
            no_close(ops@),
            no_paren(postfix@),
        decreases ops.len(),
    {
        let ghost s = ops@;
        match ops.pop() {
            None => {
                return Ok(postfix);
            },
            Some(top) => {
                assert(ops@ =~= s.drop_last());
                if matches!(top, Op::ParenOpen) {
                    return Err(ArithError::UnbalancedParens);
                }
                postfix.push(Tok::Op(top));
            },
        }
    }
}

proof fn lemma_convert_err_persists(t: Seq<Tok>, j: int)
    requires
        0 <= j <= t.len(),
        convert_prefix(t.take(j)) is Err,
    ensures
        convert_prefix(t) == convert_prefix(t.take(j)),
        postfix_spec(t) == Err::<Seq<Tok>, ArithError>(convert_prefix(t.take(j))->Err_0),
    decreases t.len() - j,
{
    if j < t.len() {
        assert(t.take(j + 1).drop_last() =~= t.take(j));
        lemma_convert_err_persists(t, j + 1);
    } else {
        assert(t.take(j) =~= t);
    }
}

} // verus!
