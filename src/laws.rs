use vstd::prelude::*;
use crate::token::{Op, Precedence, Tok, is_binary, prec_spec};
use crate::postfix::{
    binds_over, binds_tighter, convert_prefix, no_close, ops_ordered, no_paren, ops_strictly_ordered, pop_for, pop_to_paren,
    postfix_spec,
};

verus! {

/// Conversion to postfix is a function of its input alone: two conversions of
/// the same infix token sequence give the same result.
pub proof fn lemma_postfix_deterministic(t1: Seq<Tok>, t2: Seq<Tok>)
    requires
        t1 == t2,
    ensures
        postfix_spec(t1) == postfix_spec(t2),
{
}

proof fn lemma_ordered_drop_last(s: Seq<Op>)
    requires
        s.len() > 0,
        ops_strictly_ordered(s),
        no_close(s),
    ensures
        ops_strictly_ordered(s.drop_last()),
        no_close(s.drop_last()),
{
    let d = s.drop_last();
    assert forall|i: int| 0 < i < d.len() implies #[trigger] binds_tighter(d[i], d[i - 1]) by {
        assert(binds_tighter(s[i], s[i - 1]));
    }
    assert forall|i: int| 0 <= i < d.len() implies #[trigger] d[i] != Op::ParenClose by {
        assert(s[i] != Op::ParenClose);
    }
}

proof fn lemma_ordered_push_on(s: Seq<Op>, op: Op)
    requires
        ops_strictly_ordered(s),
        no_close(s),
        op != Op::ParenClose,
        s.len() > 0 ==> binds_tighter(op, s.last()),
    ensures
        ops_strictly_ordered(s.push(op)),
        no_close(s.push(op)),
{
    let t = s.push(op);
    assert forall|i: int| 0 < i < t.len() implies #[trigger] binds_tighter(t[i], t[i - 1]) by {
        if i < s.len() {
            assert(binds_tighter(s[i], s[i - 1]));
        }
    }
    assert forall|i: int| 0 <= i < t.len() implies #[trigger] t[i] != Op::ParenClose by {
        if i < s.len() {
            assert(s[i] != Op::ParenClose);
        }
    }
}

proof fn lemma_no_paren_push(out: Seq<Tok>, tok: Tok)
    requires
        no_paren(out),
        tok != Tok::Op(Op::ParenOpen),
        tok != Tok::Op(Op::ParenClose),
    ensures
        no_paren(out.push(tok)),
{
    let o = out.push(tok);
    assert forall|i: int| 0 <= i < o.len() implies !crate::token::is_paren_tok(#[trigger] o[i]) by {
        if i < out.len() {
            assert(!crate::token::is_paren_tok(out[i]));
        }
    }
}

proof fn lemma_pop_for_keeps_order(op: Op, ops: Seq<Op>, out: Seq<Tok>)
    requires
        is_binary(op),
        ops_strictly_ordered(ops),
        no_close(ops),
        no_paren(out),
    ensures
        ops_strictly_ordered(pop_for(op, ops, out).0.push(op)),
        no_close(pop_for(op, ops, out).0.push(op)),
        no_paren(pop_for(op, ops, out).1),
    decreases ops.len(),
{
    reveal(binds_tighter);
    if ops.len() == 0 {
        lemma_ordered_push_on(ops, op);
    } else {
        let t = ops.last();
        let d = ops.drop_last();
        assert(t == ops[ops.len() - 1]);
        assert(t != Op::ParenClose);
        lemma_ordered_drop_last(ops);
        match prec_spec(t, op) {
            Precedence::Higher => {
                lemma_no_paren_push(out, Tok::Op(t));
                lemma_pop_for_keeps_order(op, d, out.push(Tok::Op(t)));
            },
            Precedence::Equal => {
                lemma_no_paren_push(out, Tok::Op(t));
                if d.len() > 0 {
                    let k: int = ops.len() - 1;
                    assert(binds_tighter(ops[k], ops[k - 1]));
                    assert(d.last() == ops[k - 1]);
                }
                lemma_ordered_push_on(d, op);
            },
            Precedence::Lower => {
                lemma_ordered_push_on(ops, op);
            },
        }
    }
}

proof fn lemma_pop_to_paren_keeps_order(ops: Seq<Op>, out: Seq<Tok>)
    requires
        ops_strictly_ordered(ops),
        no_close(ops),
        no_paren(out),
    ensures
        pop_to_paren(ops, out) matches Ok((o2, out2)) ==> ops_strictly_ordered(o2) && no_close(o2) && no_paren(out2),
    decreases ops.len(),
{
    if ops.len() > 0 {
        let t = ops.last();
        assert(t == ops[ops.len() - 1]);
        lemma_ordered_drop_last(ops);
        if t != Op::ParenOpen {
            lemma_no_paren_push(out, Tok::Op(t));
            lemma_pop_to_paren_keeps_order(ops.drop_last(), out.push(Tok::Op(t)));
        }
    }
}

proof fn lemma_strict_order_is_order(s: Seq<Op>)
    requires
        ops_strictly_ordered(s),
    ensures
        ops_ordered(s),
{
    reveal(binds_over);
    reveal(binds_tighter);
    assert forall|i: int| 0 < i < s.len() implies #[trigger] binds_over(s[i], s[i - 1]) by {
        assert(binds_tighter(s[i], s[i - 1]));
    }
}

/// During conversion the operator stack is strictly ordered (each operator
/// binds strictly tighter than the one below it, an open parenthesis starting
/// a new group), hence ordered in the sense that `check_ops` tests; it holds
/// no closing parenthesis, and the output holds no parenthesis. So the
/// converter's ordering self-check can never fail, whatever the input.
pub proof fn lemma_operator_stack_ordered(t: Seq<Tok>)
    ensures
        convert_prefix(t) matches Ok((ops, out)) ==> ops_strictly_ordered(ops) && ops_ordered(ops)
            && no_close(ops) && no_paren(out),
    decreases t.len(),
{
    if t.len() > 0 {
        lemma_operator_stack_ordered(t.drop_last());
        if let Ok((ops, out)) = convert_prefix(t.drop_last()) {
            match t.last() {
                Tok::Num(n) => {
                    lemma_no_paren_push(out, Tok::Num(n));
                },
                Tok::Op(Op::ParenOpen) => {
                    reveal(binds_tighter);
                    lemma_ordered_push_on(ops, Op::ParenOpen);
                },
                Tok::Op(Op::ParenClose) => {
                    lemma_pop_to_paren_keeps_order(ops, out);
                },
                Tok::Op(op) => {
                    lemma_pop_for_keeps_order(op, ops, out);
                },
            }
        }
    }
    if let Ok((ops, _)) = convert_prefix(t) {
        lemma_strict_order_is_order(ops);
    }
}

} // verus!
