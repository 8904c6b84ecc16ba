use vstd::prelude::*;
use crate::token::{ArithError, Op, Tok};

verus! {

pub open spec fn is_digit(c: char) -> bool {
    '0' <= c && c <= '9'
}

pub open spec fn digit_val(c: char) -> int {
    c as int - '0' as int
}

/// The operator or parenthesis that a character stands for.
pub open spec fn op_of_char(c: char) -> Option<Op> {
    match c {
        '+' => Some(Op::Plus),
        '-' => Some(Op::Minus),
        '*' => Some(Op::Times),
        '/' => Some(Op::Divide),
        '(' => Some(Op::ParenOpen),
        ')' => Some(Op::ParenClose),
        _ => None,
    }
}

/// The tokens emitted so far, followed by a pending digit run (if any).
pub open spec fn flush(toks: Seq<Tok>, pending: Option<int>) -> Seq<Tok> {
    match pending {
        Some(v) => toks.push(Tok::Num(v as isize)),
        None => toks,
    }
}

/// The lexer's state after reading `s` left to right: the tokens emitted and
/// the value of the digit run still pending, most significant digit first.
pub open spec fn lex_prefix(s: Seq<char>) -> Result<(Seq<Tok>, Option<int>), ArithError>
    decreases s.len(),
{
    if s.len() == 0 {
        Ok((Seq::empty(), None))
    } else {
        let c = s.last();
        match lex_prefix(s.drop_last()) {
            Err(e) => Err(e),
            Ok((toks, pending)) => if is_digit(c) {
                let v = match pending {
                    Some(p) => p * 10 + digit_val(c),
                    None => digit_val(c),
                };
                if v > isize::MAX {
                    Err(ArithError::NumberTooLarge)
                } else {
                    Ok((toks, Some(v)))
                }
            } else {
                match op_of_char(c) {
                    Some(op) => Ok((flush(toks, pending).push(Tok::Op(op)), None)),
                    None => Err(ArithError::UnknownSymbol(c)),
                }
            },
        }
    }
}

/// The token sequence of a character sequence: every maximal run of digits
/// becomes one number, every other character one operator token.
pub open spec fn lex_spec(s: Seq<char>) -> Result<Seq<Tok>, ArithError> {
    match lex_prefix(s) {
        Ok((toks, pending)) => Ok(flush(toks, pending)),
        Err(e) => Err(e),
    }
}

proof fn lemma_append_digit(acc: int, d: int)
    requires
        0 <= acc,
        0 <= d <= 9,
    ensures
        acc * 10 + d <= isize::MAX <==> acc <= (isize::MAX - d) / 10,
{
    assert(acc * 10 + d <= isize::MAX <==> acc <= (isize::MAX - d) / 10) by (nonlinear_arith)
        requires
            0 <= acc,
            0 <= d <= 9,
    ;
}

proof fn lemma_lex_err_persists(s: Seq<char>, j: int)
    requires
        0 <= j <= s.len(),
        lex_prefix(s.take(j)) is Err,
    ensures
        lex_prefix(s) == lex_prefix(s.take(j)),
    decreases s.len() - j,
{
    if j < s.len() {
        assert(s.take(j + 1).drop_last() =~= s.take(j));
        lemma_lex_err_persists(s, j + 1);
    } else {
        assert(s.take(j) =~= s);
    }
}

/// Splits a character sequence into number and operator tokens.
pub fn tok_of_char(input: &Vec<char>) -> (r: Result<Vec<Tok>, ArithError>)
    ensures
        match r {
            Ok(v) => lex_spec(input@) == Ok::<Seq<Tok>, ArithError>(v@),
            Err(e) => lex_spec(input@) == Err::<Seq<Tok>, ArithError>(e),
        },
{
    let mut output: Vec<Tok> = Vec::new();
    let mut has_digits: bool = false;
    let mut acc: isize = 0;
    let mut i: usize = 0;
    while i < input.len()
        invariant
            i <= input.len(),
            0 <= acc,
            lex_prefix(input@.take(i as int)) == Ok::<(Seq<Tok>, Option<int>), ArithError>(
                (output@, if has_digits { Some(acc as int) } else { None }),
            ),
        decreases input.len() - i,
    {
        let c = input[i];
        proof {
            assert(input@.take(i + 1).drop_last() =~= input@.take(i as int));
            assert(input@.take(i + 1).last() == c);
        }
        if '0' <= c && c <= '9' {
            let d = (c as u32 - '0' as u32) as isize;
            let base: isize = if has_digits { acc } else { 0 };
            proof {
                lemma_append_digit(base as int, d as int);
            }
            if base > (isize::MAX - d) / 10 {
                proof {
                    lemma_lex_err_persists(input@, i + 1);
                }
                return Err(ArithError::NumberTooLarge);
            }
            acc = base * 10 + d;
            has_digits = true;
        } else {
            let op = match c {
                '+' => Op::Plus,
                '-' => Op::Minus,
                '*' => Op::Times,
                '/' => Op::Divide,
                '(' => Op::ParenOpen,
                ')' => Op::ParenClose,
                _ => {
                    proof {
                        lemma_lex_err_persists(input@, i + 1);
                    }
                    return Err(ArithError::UnknownSymbol(c));
                },
            };
            if has_digits {
                output.push(Tok::Num(acc));
            }
            output.push(Tok::Op(op));
            has_digits = false;
            acc = 0;
        }
        i = i + 1;
    }
    if has_digits {
        output.push(Tok::Num(acc));
    }
    proof {
        assert(input@.take(i as int) =~= input@);
    }
    Ok(output)
}

pub open spec fn pow10(n: nat) -> int
    decreases n,
{
    if n == 0 { 1 } else { 10 * pow10((n - 1) as nat) }
}

pub open spec fn all_digits(s: Seq<char>) -> bool {
    forall|i: int| 0 <= i < s.len() ==> is_digit(#[trigger] s[i])
}

/// The base-10 value of a digit sequence, its first digit the most
/// significant: the sum of `d_i * 10^(k-1-i)`.
pub open spec fn decimal_value(s: Seq<char>) -> int
    decreases s.len(),
{
    if s.len() == 0 {
        0
    } else {
        digit_val(s[0]) * pow10((s.len() - 1) as nat) + decimal_value(s.subrange(1, s.len() as int))
    }
}

proof fn lemma_decimal_push(s: Seq<char>, c: char)
    ensures
        decimal_value(s.push(c)) == decimal_value(s) * 10 + digit_val(c),
    decreases s.len(),
{
    let t = s.push(c);
    if s.len() == 0 {
        assert(t.subrange(1, t.len() as int) =~= Seq::<char>::empty());
        assert(decimal_value(Seq::<char>::empty()) == 0);
        assert(pow10(0) == 1);
        assert(t[0] == c);
        assert(decimal_value(t) == digit_val(c) * 1 + 0);
    } else {
        let rest = s.subrange(1, s.len() as int);
        assert(t.subrange(1, t.len() as int) =~= rest.push(c));
        lemma_decimal_push(rest, c);
        let d = digit_val(s[0]);
        let p = pow10((s.len() - 1) as nat);
        assert(pow10(s.len() as nat) == 10 * p);
        assert(d * (10 * p) == (d * p) * 10) by (nonlinear_arith);
        assert(t[0] == s[0]);
        assert(decimal_value(t) == d * pow10(s.len() as nat) + decimal_value(rest.push(c)));
        assert(decimal_value(s) == d * p + decimal_value(rest));
    }
}

proof fn lemma_decimal_nonneg(s: Seq<char>)
    requires
        all_digits(s),
    ensures
        decimal_value(s) >= 0,
    decreases s.len(),
{
    if s.len() > 0 {
        let rest = s.drop_last();
        assert(all_digits(rest)) by {
            assert forall|i: int| 0 <= i < rest.len() implies is_digit(#[trigger] rest[i]) by {
                assert(is_digit(s[i]));
            }
        }
        lemma_decimal_nonneg(rest);
        assert(rest.push(s.last()) =~= s);
        lemma_decimal_push(rest, s.last());
        assert(is_digit(s[s.len() - 1]));
    }
}

/// A run of digits read after a point where no number is pending stays one
/// pending number whose value is the run's base-10 value, first digit most
/// significant; at the end of input it becomes exactly one `Num` token.
pub proof fn lemma_digit_run(p: Seq<char>, s: Seq<char>, toks: Seq<Tok>)
    requires
        lex_prefix(p) == Ok::<(Seq<Tok>, Option<int>), ArithError>((toks, None)),
        s.len() > 0,
        all_digits(s),
        decimal_value(s) <= isize::MAX,
    ensures
        lex_prefix(p + s) == Ok::<(Seq<Tok>, Option<int>), ArithError>((toks, Some(decimal_value(s)))),
        lex_spec(p + s) == Ok::<Seq<Tok>, ArithError>(toks.push(Tok::Num(decimal_value(s) as isize))),
    decreases s.len(),
{
    let rest = s.drop_last();
    let c = s.last();
    assert(is_digit(s[s.len() - 1]));
    assert((p + s).drop_last() =~= p + rest);
    assert((p + s).last() == c);
    assert(rest.push(c) =~= s);
    lemma_decimal_push(rest, c);
    assert(all_digits(rest)) by {
        assert forall|i: int| 0 <= i < rest.len() implies is_digit(#[trigger] rest[i]) by {
            assert(is_digit(s[i]));
        }
    }
    lemma_decimal_nonneg(rest);
    if rest.len() == 0 {
        assert(p + rest =~= p);
    } else {
        lemma_digit_run(p, rest, toks);
    }
}

} // verus!
