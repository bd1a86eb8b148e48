use bad_racket::parsing::{expression_order, find_matching_parenthesis, is_balanced, parse_args};

fn s(text: &str) -> String {
    String::from(text)
}

#[test]
fn parse_args_doc_example() {
    let args = parse_args(&s("(+ 2 (+ 1 1) (* 4 5) (/ 15 (+ 2 1)))"));
    assert_eq!(args, vec!["2", "(+ 1 1)", "(* 4 5)", "(/ 15 (+ 2 1))"]);
}

#[test]
fn parse_args_two_numbers() {
    assert_eq!(parse_args(&s("(+ 3 4)")), vec!["3", "4"]);
}

#[test]
fn parse_args_operator_only() {
    // the operator is never an argument
    assert_eq!(parse_args(&s("(foo)")), Vec::<String>::new());
    assert_eq!(parse_args(&s("(foo )")), vec![""]);
}

#[test]
fn parse_args_empty_expression() {
    assert_eq!(parse_args(&s("()")), Vec::<String>::new());
}

#[test]
fn parse_args_define() {
    assert_eq!(parse_args(&s("(define x 5)")), vec!["x", "5"]);
}

#[test]
fn parse_args_double_space() {
    // two adjacent separators after the operator leave an empty first argument
    assert_eq!(parse_args(&s("(+  1 2)")), vec!["", "1", "2"]);
    // after a later argument the second separator stays in the next one
    assert_eq!(parse_args(&s("(+ 1  2)")), vec!["1", " 2"]);
}

#[test]
fn parse_args_tabs_and_newlines() {
    assert_eq!(parse_args(&s("(+\t1\n2)")), vec!["1", "2"]);
}

#[test]
fn parse_args_trailing_space() {
    assert_eq!(parse_args(&s("(+ 3 4 )")), vec!["3", "4"]);
}

#[test]
fn parse_args_arguments_are_balanced() {
    let args = parse_args(&s("(f (a b) (c (d e)) g (h))"));
    assert_eq!(args, vec!["(a b)", "(c (d e))", "g", "(h)"]);
    for a in &args {
        assert!(is_balanced(a));
    }
}

#[test]
fn find_matching_nested() {
    let text = s("(a (b) c)");
    assert_eq!(find_matching_parenthesis(&text, 0), 8);
    assert_eq!(find_matching_parenthesis(&text, 3), 5);
}

#[test]
fn find_matching_unmatched_is_zero() {
    assert_eq!(find_matching_parenthesis(&s("(()"), 0), 0);
    assert_eq!(find_matching_parenthesis(&s("(a"), 0), 0);
    assert_eq!(find_matching_parenthesis(&s(""), 0), 0);
    assert_eq!(find_matching_parenthesis(&s("()"), 5), 0);
}

#[test]
fn find_matching_later_start() {
    let text = s("x (y) (z w)");
    assert_eq!(find_matching_parenthesis(&text, 2), 4);
    assert_eq!(find_matching_parenthesis(&text, 6), 10);
}

#[test]
fn expression_order_nested() {
    assert_eq!(expression_order(&s("(a (b) c)")), vec![[3, 5], [0, 8]]);
}

#[test]
fn expression_order_sequence() {
    assert_eq!(
        expression_order(&s("(a)(b (c))")),
        vec![[0, 2], [6, 8], [3, 9]]
    );
}

#[test]
fn expression_order_no_parentheses() {
    assert_eq!(expression_order(&s("abc")), Vec::<[usize; 2]>::new());
    assert_eq!(expression_order(&s("")), Vec::<[usize; 2]>::new());
}

#[test]
fn expression_order_agrees_with_find_matching() {
    let text = s("(+ 1 (* 2 (- 3 4)) (/ 5 6))");
    let pairs = expression_order(&text);
    assert_eq!(pairs.len(), 4);
    for p in &pairs {
        assert_eq!(text.as_bytes()[p[0]], b'(');
        assert_eq!(text.as_bytes()[p[1]], b')');
        assert_eq!(find_matching_parenthesis(&text, p[0]), p[1]);
    }
}

#[test]
fn every_parenthesis_is_paired() {
    let text = s("((a)(b c))");
    let pairs = expression_order(&text);
    for (i, c) in text.chars().enumerate() {
        if c == '(' {
            assert!(pairs.iter().any(|p| p[0] == i));
        }
        if c == ')' {
            assert!(pairs.iter().any(|p| p[1] == i));
        }
    }
}

#[test]
fn balanced_check() {
    assert!(is_balanced("(a (b) c)"));
    assert!(is_balanced(""));
    assert!(!is_balanced("(a"));
    assert!(!is_balanced(")("));
    assert!(!is_balanced("a)"));
}
