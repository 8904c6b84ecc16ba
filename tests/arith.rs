use arith_parse::{
    check_ops, check_ops_rec, evaluate_chars, evaluate_postfix, postfix_of_infix, precedence_check,
    tok_of_char, balanced_string, ArithError, Op, Precedence, Tok,
};

fn chars(s: &str) -> Vec<char> {
    s.chars().collect()
}

fn eval_str(s: &str) -> Result<isize, ArithError> {
    let infix = tok_of_char(&chars(s))?;
    let post = postfix_of_infix(&infix)?;
    evaluate_postfix(&post)
}

#[test]
fn test_postfix_of_infix() {
    // 1 * 2 + 3
    let input = vec![Tok::Num(1), Tok::Op(Op::Times), Tok::Num(2), Tok::Op(Op::Plus), Tok::Num(3)];
    let ans = postfix_of_infix(&input).unwrap();
    println!("{:?}", ans);
    assert_eq!(
        ans,
        vec![Tok::Num(1), Tok::Num(2), Tok::Op(Op::Times), Tok::Num(3), Tok::Op(Op::Plus)]
    );
}

#[test]
fn test_eval_postfix() {
    let input = vec![
        Tok::Num(1),
        Tok::Num(2),
        Tok::Num(3),
        Tok::Op(Op::Plus),
        Tok::Op(Op::Plus),
        Tok::Num(22),
        Tok::Num(33),
        Tok::Op(Op::Plus),
        Tok::Op(Op::Plus),
        Tok::Num(12),
        Tok::Num(13),
        Tok::Op(Op::Plus),
        Tok::Op(Op::Plus),
    ];
    let ans = evaluate_postfix(&input);
    assert_eq!(ans, Ok(86))
}

#[test]
fn test_arith_eval() {
    // 1 + 2 - 3 - 1 - 2 * 2
    let input = vec![
        Tok::Num(1),
        Tok::Op(Op::Plus),
        Tok::Num(2),
        Tok::Op(Op::Minus),
        Tok::Num(3),
        Tok::Op(Op::Minus),
        Tok::Num(1),
        Tok::Op(Op::Minus),
        Tok::Num(2),
        Tok::Op(Op::Times),
        Tok::Num(2),
    ];
    println!("{:?}", &input);
    let list = postfix_of_infix(&input).unwrap();
    println!("{:?}", &list);
    let ans = evaluate_postfix(&list);
    println!("{:?}", ans);
    assert_eq!(ans, Ok(-5));
}

#[test]
fn test_paren_eval() {
    // 2 * (23 - 3)
    let input = vec![
        Tok::Num(2),
        Tok::Op(Op::Times),
        Tok::Op(Op::ParenOpen),
        Tok::Num(23),
        Tok::Op(Op::Minus),
        Tok::Num(3),
        Tok::Op(Op::ParenClose),
    ];
    println!("{:?}", &input);
    let list = postfix_of_infix(&input).unwrap();
    println!("Postfix{:?}", &list);
    assert_eq!(
        list,
        vec![
            Tok::Num(2),
            Tok::Num(23),
            Tok::Num(3),
            Tok::Op(Op::Minus),
            Tok::Op(Op::Times)
        ]
    );
    let ans = evaluate_postfix(&list);
    println!("{:?}", ans);
    assert_eq!(ans, Ok(40));
}

#[test]
fn test_tok_of_char() {
    let input = vec!['2', '*', '(', '2', '3', '-', '3', ')'];
    let list = tok_of_char(&input).unwrap();
    let list1 = postfix_of_infix(&list).unwrap();
    let ans = evaluate_postfix(&list1);
    println!("Ans {:?}", ans);
    assert_eq!(ans, Ok(40));
}

#[test]
fn precedence_of_mul_over_add() {
    assert_eq!(eval_str("1+2*3"), Ok(7));
    assert_eq!(eval_str("2*3+1"), Ok(7));
}

#[test]
fn subtraction_is_left_associative() {
    assert_eq!(eval_str("8-3-2"), Ok(3));
    assert_eq!(eval_str("100/10/5"), Ok(2));
    assert_eq!(eval_str("8/2*4"), Ok(16));
}

#[test]
fn parentheses_group() {
    assert_eq!(eval_str("2*(23-3)"), Ok(40));
    assert_eq!(eval_str("((1+2))*(3+(4-1))"), Ok(18));
}

#[test]
fn multi_digit_numbers_keep_digit_order() {
    assert_eq!(
        tok_of_char(&chars("123+4")),
        Ok(vec![Tok::Num(123), Tok::Op(Op::Plus), Tok::Num(4)])
    );
    assert_eq!(tok_of_char(&chars("007")), Ok(vec![Tok::Num(7)]));
    assert_eq!(tok_of_char(&chars("(1050)")), Ok(vec![Tok::Op(Op::ParenOpen), Tok::Num(1050), Tok::Op(Op::ParenClose)]));
    assert_eq!(tok_of_char(&chars("")), Ok(vec![]));
}

#[test]
fn division_truncates_toward_zero() {
    assert_eq!(eval_str("7/2"), Ok(3));
    assert_eq!(eval_str("(0-7)/2"), Ok(-3));
    assert_eq!(eval_str("7/(0-2)"), Ok(-3));
}

#[test]
fn unclosed_paren_fails_conversion() {
    let infix = tok_of_char(&chars("(1+2")).unwrap();
    assert_eq!(postfix_of_infix(&infix), Err(ArithError::UnbalancedParens));
}

#[test]
fn unmatched_close_paren_fails_conversion() {
    let infix = tok_of_char(&chars("1+2)")).unwrap();
    assert_eq!(postfix_of_infix(&infix), Err(ArithError::UnbalancedParens));
}

#[test]
fn division_by_zero_fails() {
    let infix = tok_of_char(&chars("5/0")).unwrap();
    let post = postfix_of_infix(&infix).unwrap();
    assert_eq!(evaluate_postfix(&post), Err(ArithError::DivisionByZero));
}

#[test]
fn unknown_symbol_fails_lexing() {
    assert_eq!(tok_of_char(&chars("1+x")), Err(ArithError::UnknownSymbol('x')));
    assert_eq!(tok_of_char(&chars("1 + 2")), Err(ArithError::UnknownSymbol(' ')));
}

#[test]
fn oversized_number_fails_lexing() {
    assert_eq!(
        tok_of_char(&chars("9223372036854775807")),
        Ok(vec![Tok::Num(isize::MAX)])
    );
    assert_eq!(
        tok_of_char(&chars("9223372036854775808")),
        Err(ArithError::NumberTooLarge)
    );
}

#[test]
fn overflow_fails_evaluation() {
    assert_eq!(eval_str("9223372036854775807+1"), Err(ArithError::Overflow));
    assert_eq!(eval_str("9223372036854775807*2"), Err(ArithError::Overflow));
    assert_eq!(eval_str("0-9223372036854775807-2"), Err(ArithError::Overflow));
    let min_div = vec![Tok::Num(isize::MIN), Tok::Num(-1), Tok::Op(Op::Divide)];
    assert_eq!(evaluate_postfix(&min_div), Err(ArithError::Overflow));
}

#[test]
fn too_few_operands_fail() {
    let post = vec![Tok::Num(1), Tok::Op(Op::Plus)];
    assert_eq!(evaluate_postfix(&post), Err(ArithError::StackUnderflow));
    assert_eq!(eval_str("1+"), Err(ArithError::StackUnderflow));
}

#[test]
fn parenthesis_in_postfix_fails() {
    let post = vec![Tok::Num(1), Tok::Op(Op::ParenOpen)];
    assert_eq!(evaluate_postfix(&post), Err(ArithError::ParenInPostfix));
}

#[test]
fn residual_stack_fails() {
    assert_eq!(evaluate_postfix(&vec![]), Err(ArithError::ResidualStack));
    let post = vec![Tok::Num(1), Tok::Num(2)];
    assert_eq!(evaluate_postfix(&post), Err(ArithError::ResidualStack));
}

#[test]
fn conversion_is_deterministic() {
    let infix = tok_of_char(&chars("1-2*(3+4)/5-6")).unwrap();
    let a = postfix_of_infix(&infix);
    let b = postfix_of_infix(&infix);
    assert_eq!(a, b);
    assert!(a.unwrap().iter().all(|t| !matches!(t, Tok::Op(Op::ParenOpen) | Tok::Op(Op::ParenClose))));
}

#[test]
fn precedence_table() {
    assert_eq!(precedence_check(&Op::Plus, &Op::Minus), Precedence::Equal);
    assert_eq!(precedence_check(&Op::Times, &Op::Times), Precedence::Equal);
    assert_eq!(precedence_check(&Op::Times, &Op::Divide), Precedence::Higher);
    assert_eq!(precedence_check(&Op::Divide, &Op::Plus), Precedence::Higher);
    assert_eq!(precedence_check(&Op::Plus, &Op::Times), Precedence::Lower);
    assert_eq!(precedence_check(&Op::ParenOpen, &Op::Plus), Precedence::Lower);
    assert_eq!(precedence_check(&Op::Plus, &Op::ParenOpen), Precedence::Higher);
}

#[test]
fn operator_stack_ordering() {
    assert!(check_ops(&vec![]));
    assert!(check_ops(&vec![Op::Plus, Op::Times]));
    assert!(!check_ops(&vec![Op::Times, Op::Plus]));
    assert!(check_ops(&vec![Op::Times, Op::ParenOpen, Op::Plus]));
    assert!(check_ops(&vec![Op::Plus, Op::Minus]));
    assert!(check_ops_rec(&vec![Op::Times], Op::Times));
    assert!(check_ops_rec(&vec![Op::Plus], Op::Divide));
    assert!(!check_ops_rec(&vec![Op::Divide], Op::Minus));
    assert!(check_ops_rec(&vec![Op::Divide], Op::ParenOpen));
}

#[test]
fn whole_pipeline() {
    assert_eq!(evaluate_chars(&chars("2*(23-3)")), Ok(40));
    assert_eq!(evaluate_chars(&chars("1+2*3-4/2")), Ok(5));
    assert_eq!(evaluate_chars(&chars("(1")), Err(ArithError::UnbalancedParens));
    assert_eq!(evaluate_chars(&chars("a")), Err(ArithError::UnknownSymbol('a')));
}

#[test]
fn balanced_string_follows_levels() {
    let s: String = balanced_string(&vec![]).into_iter().collect();
    assert_eq!(s, "1");
    let s: String = balanced_string(&vec![2, 1, 1, 0]).into_iter().collect();
    assert_eq!(s, "1+(1+(1+1)+1)");
    assert_eq!(evaluate_chars(&chars(&s)), Ok(5));
}
