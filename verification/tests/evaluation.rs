use bad_racket::evaluation::{
    eval_arithmetic, eval_boolean, eval_comparison, eval_cond, eval_define, evaluate,
    evaluate_expresion, FloatOp, FloatRequest, RunEnd, Step,
};
use bad_racket::table::VarTable;

fn strings(v: &[&str]) -> Vec<String> {
    v.iter().map(|x| String::from(*x)).collect()
}

fn float_answer(req: &FloatRequest) -> String {
    let x: Vec<f32> = req
        .args
        .iter()
        .map(|a| a.parse::<f32>().unwrap())
        .collect();
    match req.op {
        FloatOp::Add => (x[0] + x[1]).to_string(),
        FloatOp::Sub => (x[0] - x[1]).to_string(),
        FloatOp::Mul => (x[0] * x[1]).to_string(),
        FloatOp::Div => (x[0] / x[1]).to_string(),
        FloatOp::Rem => (x[0] % x[1]).to_string(),
        FloatOp::Sqrt => f32::sqrt(x[0]).to_string(),
        FloatOp::Neg => (-1.0 * x[0]).to_string(),
        FloatOp::Value => x[0].to_string(),
        FloatOp::Eq => (x[0] == x[1]).to_string(),
        FloatOp::Gt => (x[0] > x[1]).to_string(),
        FloatOp::Lt => (x[0] < x[1]).to_string(),
        FloatOp::Le => (x[0] <= x[1]).to_string(),
        FloatOp::Ge => (x[0] >= x[1]).to_string(),
    }
}

/// Runs a program to its end, answering its floating-point requests, and gives the lines
/// it prints and how it ended.
fn run(prog: &str, table: &mut VarTable) -> (Vec<String>, RunEnd) {
    let prog = String::from(prog);
    let mut answers: Vec<String> = Vec::new();
    loop {
        let mut attempt = table.duplicate();
        let r = evaluate(&prog, &mut attempt, &answers);
        if let RunEnd::Float(req) = &r.end {
            answers.push(float_answer(req));
            continue;
        }
        *table = attempt;
        return (r.lines, r.end);
    }
}

fn done_ok(step: Step) -> String {
    match step {
        Step::Done(Ok(v)) => v,
        _ => panic!("expected a value"),
    }
}

fn done_err(step: Step) -> String {
    match step {
        Step::Done(Err(e)) => e,
        _ => panic!("expected an error"),
    }
}

fn float_request(step: Step) -> FloatRequest {
    match step {
        Step::Float(req) => req,
        _ => panic!("expected a floating-point request"),
    }
}

/// Calls `f` with more and more answers, computing each one it asks for, until it asks no
/// more; gives its result and the operations it asked for.
fn settle(f: impl Fn(&Vec<String>, &mut usize) -> Step) -> (Step, Vec<FloatRequest>) {
    let mut answers: Vec<String> = Vec::new();
    let mut asked = Vec::new();
    loop {
        let mut next = 0;
        match f(&answers, &mut next) {
            Step::Float(req) => {
                assert_eq!(next, answers.len());
                answers.push(float_answer(&req));
                asked.push(req);
            }
            other => {
                assert_eq!(next, answers.len());
                return (other, asked);
            }
        }
    }
}

fn arith(op: &str, args: &[&str]) -> (Step, Vec<FloatRequest>) {
    settle(|answers, next| eval_arithmetic(op, strings(args), answers, next))
}

fn compare(op: &str, args: &[&str]) -> (Step, Vec<FloatRequest>) {
    settle(|answers, next| eval_comparison(op, strings(args), answers, next))
}

#[test]
fn arithmetic_requests_one_operation_at_a_time() {
    let mut next = 0;
    let req = float_request(eval_arithmetic("+", strings(&["1", "2.5", "4"]), &Vec::new(), &mut next));
    assert!(matches!(req.op, FloatOp::Add));
    assert_eq!(req.args, strings(&["1", "2.5"]));
    assert_eq!(next, 0);
    let mut next = 0;
    let req = float_request(eval_arithmetic("+", strings(&["1", "2.5", "4"]), &strings(&["3.5"]), &mut next));
    assert!(matches!(req.op, FloatOp::Add));
    assert_eq!(req.args, strings(&["3.5", "4"]));
    assert_eq!(next, 1);
    let mut next = 0;
    let r = eval_arithmetic("+", strings(&["1", "2.5", "4"]), &strings(&["3.5", "7.5"]), &mut next);
    assert_eq!(done_ok(r), "7.5");
    assert_eq!(next, 2);
}

#[test]
fn arithmetic_folds_left_to_right() {
    let (r, asked) = arith("-", &["10", "4", "3"]);
    assert_eq!(done_ok(r), "3");
    assert_eq!(asked.len(), 2);
    assert!(matches!(asked[1].op, FloatOp::Sub));
    assert_eq!(asked[1].args, strings(&["6", "3"]));
    assert_eq!(done_ok(arith("*", &["2", "3.5", "2"]).0), "14");
    assert_eq!(done_ok(arith("/", &["1", "4"]).0), "0.25");
    assert_eq!(done_ok(arith("+", &["0.1", "0.2"]).0), "0.3");
    assert_eq!(done_ok(arith("/", &["1", "0"]).0), "inf");
}

#[test]
fn arithmetic_single_operand() {
    let (r, asked) = arith("+", &["1.50"]);
    assert_eq!(done_ok(r), "1.5");
    assert!(matches!(asked[0].op, FloatOp::Value));
    let (r, asked) = arith("-", &["5"]);
    assert_eq!(done_ok(r), "-5");
    assert!(matches!(asked[0].op, FloatOp::Neg));
    assert_eq!(done_ok(arith("*", &["1e2"]).0), "100");
}

#[test]
fn arithmetic_rejects_non_numbers() {
    assert_eq!(done_err(arith("+", &["1", "x"]).0), "At least one arg is not a number");
    assert_eq!(done_err(arith("*", &["true"]).0), "At least one arg is not a number");
}

#[test]
fn arithmetic_arity() {
    assert_eq!(done_err(arith("modulo", &["1"]).0), "Modulo only takes two arguments");
    assert_eq!(done_err(arith("sqrt", &["1", "2"]).0), "Sqrt only takes one argument");
    let (r, asked) = arith("modulo", &["7", "3"]);
    assert_eq!(done_ok(r), "1");
    assert!(matches!(asked[0].op, FloatOp::Rem));
    let (r, asked) = arith("sqrt", &["16"]);
    assert_eq!(done_ok(r), "4");
    assert!(matches!(asked[0].op, FloatOp::Sqrt));
}

#[test]
fn arithmetic_without_arguments_aborts() {
    assert!(matches!(arith("+", &[]).0, Step::Abort));
    assert!(matches!(arith("-", &[]).0, Step::Abort));
}

#[test]
fn arithmetic_unknown_operator_is_zero() {
    assert_eq!(done_ok(arith("pow", &["1"]).0), "0");
}

#[test]
fn comparison_results() {
    assert_eq!(done_ok(compare("<", &["1"]).0), "true");
    assert_eq!(done_ok(compare("<", &[]).0), "true");
    assert_eq!(done_err(compare("=", &["a", "1"]).0), "At least one arg is not a number");
    let (r, asked) = compare("<", &["1", "2", "3"]);
    assert_eq!(done_ok(r), "true");
    assert_eq!(asked.len(), 2);
    assert!(matches!(asked[0].op, FloatOp::Lt));
    assert_eq!(asked[1].args, strings(&["2", "3"]));
    // every neighbouring pair is compared, even after one fails
    let (r, asked) = compare(">=", &["3", "4", "4"]);
    assert_eq!(done_ok(r), "false");
    assert_eq!(asked.len(), 2);
    assert_eq!(done_ok(compare("=", &["1", "1.0", "1e0"]).0), "true");
    assert_eq!(done_ok(compare(">", &["3", "2", "2"]).0), "false");
    assert_eq!(done_ok(compare("<=", &["1", "1", "2"]).0), "true");
    assert_eq!(done_ok(compare("=", &["nan", "nan"]).0), "false");
    assert_eq!(done_ok(compare("!=", &["1", "2"]).0), "false");
}

#[test]
fn boolean_results() {
    assert_eq!(done_ok(eval_boolean("and", strings(&["true", "true"]))), "true");
    assert_eq!(done_ok(eval_boolean("and", strings(&["true", "false"]))), "false");
    assert_eq!(done_ok(eval_boolean("or", strings(&["false", "true"]))), "true");
    assert_eq!(done_ok(eval_boolean("or", strings(&["false", "false"]))), "false");
    assert_eq!(done_ok(eval_boolean("xor", strings(&["true", "false"]))), "true");
    assert_eq!(done_ok(eval_boolean("xor", strings(&["true", "true"]))), "false");
    assert_eq!(done_ok(eval_boolean("nand", strings(&["true", "true"]))), "false");
    assert_eq!(done_ok(eval_boolean("nand", strings(&["true", "false"]))), "true");
    // `nor` computes what `nand` computes
    assert_eq!(done_ok(eval_boolean("nor", strings(&["false", "false"]))), "true");
    assert_eq!(done_ok(eval_boolean("nor", strings(&["true", "false"]))), "true");
    assert_eq!(done_ok(eval_boolean("not", strings(&["true"]))), "false");
    assert_eq!(done_ok(eval_boolean("maybe", strings(&["true"]))), "false");
}

#[test]
fn boolean_errors() {
    assert_eq!(done_err(eval_boolean("and", strings(&["1"]))), "At least one arg is not a boolean");
    assert_eq!(done_err(eval_boolean("xor", strings(&["true"]))), "XOR only takes two arguments");
    assert_eq!(done_err(eval_boolean("not", strings(&["true", "true"]))), "NOT only takes one argument");
    assert!(matches!(eval_boolean("or", Vec::new()), Step::Abort));
}

#[test]
fn conditional_results() {
    assert_eq!(done_ok(eval_cond("if", strings(&["true", "1", "2"]))), "1");
    assert_eq!(done_ok(eval_cond("if", strings(&["false", "1", "2"]))), "2");
    assert_eq!(
        done_err(eval_cond("if", strings(&["1", "1", "2"]))),
        "Conditional condition doesn't evaluate to a boolean"
    );
    assert!(matches!(eval_cond("if", strings(&["false", "1"])), Step::Abort));
    assert!(matches!(eval_cond("if", Vec::new()), Step::Abort));
    assert_eq!(done_err(eval_cond("cond", strings(&["true"]))), "Not implemented");
    assert_eq!(
        done_err(eval_cond("when", Vec::new())),
        "What? How did you manage to get to evaluate condition without a condition clause"
    );
}

#[test]
fn define_sets_variable() {
    let mut table = VarTable::new();
    let mut next = 0;
    let r = eval_define(&strings(&[" x ", "5"]), &mut table, &Vec::new(), &mut next);
    assert_eq!(done_ok(r), "");
    assert_eq!(table.get("x"), Some(&String::from("5")));
}

#[test]
fn define_errors() {
    let mut table = VarTable::new();
    let mut next = 0;
    assert_eq!(
        done_err(eval_define(&strings(&["x"]), &mut table, &Vec::new(), &mut next)),
        "Defining of variable should be (define var_name expr)"
    );
    assert_eq!(
        done_err(eval_define(&strings(&["x", "(foo 1)"]), &mut table, &Vec::new(), &mut next)),
        "Something went wrong in evaluating expression"
    );
    assert!(!table.contains_key("x"));
}

#[test]
fn expression_literals() {
    let mut table = VarTable::new();
    let mut next = 0;
    let answers = Vec::new();
    let mut ev = |e: &str| evaluate_expresion(&String::from(e), &mut table, &answers, &mut next);
    assert_eq!(done_ok(ev(" 42 ")), "42");
    assert_eq!(done_ok(ev("1e3")), "1e3");
    assert_eq!(done_ok(ev("true")), "true");
    assert_eq!(done_ok(ev("#t")), "true");
    assert_eq!(done_ok(ev("#f")), "false");
}

#[test]
fn expression_uses_answers() {
    let mut table = VarTable::new();
    let mut next = 0;
    let e = String::from("(+ 1 2)");
    let req = float_request(evaluate_expresion(&e, &mut table, &Vec::new(), &mut next));
    assert!(matches!(req.op, FloatOp::Add));
    assert_eq!(req.args, strings(&["1", "2"]));
    assert_eq!(next, 0);
    let answers = strings(&["3"]);
    assert_eq!(done_ok(evaluate_expresion(&e, &mut table, &answers, &mut next)), "3");
    assert_eq!(next, 1);
}

#[test]
fn expression_nested_requests_in_order() {
    let mut table = VarTable::new();
    let e = String::from("(* (+ 1 2) (- 10 4))");
    let mut next = 0;
    let req = float_request(evaluate_expresion(&e, &mut table, &strings(&["3"]), &mut next));
    assert!(matches!(req.op, FloatOp::Sub));
    assert_eq!(next, 1);
    let mut next = 0;
    let req = float_request(evaluate_expresion(&e, &mut table, &strings(&["3", "6"]), &mut next));
    assert!(matches!(req.op, FloatOp::Mul));
    assert_eq!(req.args, strings(&["3", "6"]));
    let mut next = 0;
    assert_eq!(
        done_ok(evaluate_expresion(&e, &mut table, &strings(&["3", "6", "18"]), &mut next)),
        "18"
    );
    assert_eq!(next, 3);
}

#[test]
fn expression_errors_and_aborts() {
    let mut table = VarTable::new();
    let mut next = 0;
    let answers = Vec::new();
    let mut ev = |e: &str| evaluate_expresion(&String::from(e), &mut table, &answers, &mut next);
    assert_eq!(done_err(ev("(foo 1)")), "Invalid symbol `foo`");
    assert_eq!(done_err(ev("(x)")), "Invalid syntax");
    assert_eq!(done_err(ev("()")), "Invalid syntax");
    assert!(matches!(ev("x"), Step::Abort));
    assert!(matches!(ev(""), Step::Abort));
    assert!(matches!(ev("(+ (1 2)"), Step::Abort));
    assert!(matches!(ev("(and)"), Step::Done(Err(_))));
}

#[test]
fn expression_boolean_and_conditional() {
    let mut table = VarTable::new();
    let mut next = 0;
    let answers = Vec::new();
    let mut ev = |e: &str| evaluate_expresion(&String::from(e), &mut table, &answers, &mut next);
    assert_eq!(done_ok(ev("(and #t #f)")), "false");
    assert_eq!(done_ok(ev("(or #f (not #f))")), "true");
    assert_eq!(done_ok(ev("(if #t 1 2)")), "1");
    assert_eq!(done_ok(ev("(if (and #t #t) yes no)")), "");
}

#[test]
fn define_then_use() {
    let mut table = VarTable::new();
    let mut next = 0;
    let answers = Vec::new();
    assert_eq!(
        done_ok(evaluate_expresion(&String::from("(define x #t)"), &mut table, &answers, &mut next)),
        ""
    );
    assert_eq!(
        done_ok(evaluate_expresion(&String::from("x"), &mut table, &answers, &mut next)),
        "true"
    );
    assert_eq!(
        done_ok(evaluate_expresion(&String::from("(not x)"), &mut table, &answers, &mut next)),
        "false"
    );
}

#[test]
fn program_prints_each_result() {
    let mut table = VarTable::new();
    let (lines, end) = run("(+ 1 2)\n(* 2 3.5)\n(< 1 2)\n(+ 1 2 3 4)\n(- 7)", &mut table);
    assert_eq!(lines, strings(&["3", "7", "#t", "10", "-7"]));
    assert!(matches!(end, RunEnd::Finished));
}

#[test]
fn program_with_variables() {
    let mut table = VarTable::new();
    let (lines, _) = run("#lang racket\n(define x 5)\n(define y (* x 2))\n(+ x y)", &mut table);
    assert_eq!(lines, strings(&["", "", "15"]));
    assert_eq!(table.get("y"), Some(&String::from("10")));
}

#[test]
fn program_stops_at_error() {
    let mut table = VarTable::new();
    let (lines, end) = run("(+ 1 1) (foo 2) (+ 3 3)", &mut table);
    assert_eq!(lines, strings(&["2", "Error: Invalid symbol `foo`"]));
    assert!(matches!(end, RunEnd::Finished));
}

#[test]
fn program_prints_variable_name() {
    let mut table = VarTable::new();
    run("(define x 5)", &mut table);
    let (lines, end) = run("x", &mut table);
    assert_eq!(lines, strings(&["5"]));
    assert!(matches!(end, RunEnd::Finished));
    let (lines, _) = run("y", &mut table);
    assert!(lines.is_empty());
}

#[test]
fn empty_program_prints_nothing() {
    let mut table = VarTable::new();
    let (lines, end) = run("", &mut table);
    assert!(lines.is_empty());
    assert!(matches!(end, RunEnd::Finished));
}

#[test]
fn unmatched_parenthesis_aborts() {
    let mut table = VarTable::new();
    let (lines, end) = run("(+ 1", &mut table);
    assert!(lines.is_empty());
    assert!(matches!(end, RunEnd::Aborted));
}

#[test]
fn empty_pair_defined_repeats_forever() {
    let mut table = VarTable::new();
    let (lines, end) = run("(define () 5)()", &mut table);
    assert_eq!(lines, strings(&["", "5"]));
    match end {
        RunEnd::Forever(line) => assert_eq!(line, "5"),
        _ => panic!("expected a run without end"),
    }
}

#[test]
fn empty_pair_undefined_is_an_error() {
    let mut table = VarTable::new();
    let (lines, end) = run("()", &mut table);
    assert_eq!(lines, strings(&["Error: Invalid syntax"]));
    assert!(matches!(end, RunEnd::Finished));
}

#[test]
fn extra_answers_change_nothing() {
    let prog = String::from("(and #t #f) (or #f #f)");
    let mut t1 = VarTable::new();
    let r1 = evaluate(&prog, &mut t1, &Vec::new());
    let mut t2 = VarTable::new();
    let r2 = evaluate(&prog, &mut t2, &strings(&["9", "10"]));
    assert_eq!(r1.lines, strings(&["#f", "#f"]));
    assert_eq!(r1.lines, r2.lines);
}

#[test]
fn non_ascii_literal_and_names() {
    let mut table = VarTable::new();
    let mut next = 0;
    let answers = Vec::new();
    let mut ev = |e: &str| evaluate_expresion(&String::from(e), &mut table, &answers, &mut next);
    assert_eq!(done_ok(ev("\u{a0}42\u{3000}")), "42");
    assert_eq!(done_ok(ev("\u{2003}#t")), "true");
    let mut table = VarTable::new();
    let mut next = 0;
    assert_eq!(
        done_ok(eval_define(&strings(&[" π ", "3.14"]), &mut table, &answers, &mut next)),
        ""
    );
    assert_eq!(table.get("π"), Some(&String::from("3.14")));
    assert_eq!(
        done_ok(evaluate_expresion(&String::from("\u{a0}π"), &mut table, &answers, &mut next)),
        "3.14"
    );
    assert_eq!(
        done_err(eval_define(&strings(&["é", "1", "2"]), &mut table, &answers, &mut next)),
        "Defining of variable should be (define var_name expr)"
    );
}

#[test]
fn non_ascii_program_without_parentheses() {
    let mut table = VarTable::new();
    table.insert(String::from("π"), String::from("3.14"));
    let (lines, end) = run(" π\n", &mut table);
    assert_eq!(lines, strings(&["3.14"]));
    assert!(matches!(end, RunEnd::Finished));
}
