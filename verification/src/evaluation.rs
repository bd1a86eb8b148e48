//! Evaluation of expressions and programs.
//!
//! Arithmetic and numeric comparison compute on floating-point numbers, which this library
//! leaves to its caller, one operation at a time: where evaluation needs such a result it
//! either takes the next of the answers it was given or stops with a [`FloatRequest`]
//! naming one operation and its operands; folds over several arguments and chains of
//! comparisons are carried out here, over those answers. The caller computes the
//! requested result, appends it to the answers and evaluates again from the same starting
//! point; evaluation is deterministic, so it retraces its steps and goes further.

use vstd::prelude::*;

use crate::parsing::{
    balanced, counter_fits, find_matching_parenthesis, inner_of, is_balanced, lemma_close_search_range,
    lemma_split_args_shorter, matching_close, parse_args, split_args, strings_view,
};
use crate::table::VarTable;
use crate::text::{
    is_bool_literal, is_float_literal, is_separator, is_separator_char, lemma_trimmed,
    parses_as_bool, parses_as_float, same, trim, trimmed,
};
use vstd::utf8::is_ascii_chars;

verus! {

/// A floating-point operation on `f32` values, each operand read with std's float parsing
/// and the result written as `f32` writes itself.
#[derive(Clone, Copy)]
pub enum FloatOp {
    /// The sum of the two operands.
    Add,
    /// The first operand minus the second.
    Sub,
    /// The product of the two operands.
    Mul,
    /// The first operand divided by the second.
    Div,
    /// The remainder of the first operand divided by the second.
    Rem,
    /// The square root of the operand.
    Sqrt,
    /// `-1.0` times the operand.
    Neg,
    /// The operand itself.
    Value,
    /// Whether the two operands are equal: `true` or `false`.
    Eq,
    /// Whether the first operand is greater than the second.
    Gt,
    /// Whether the first operand is less than the second.
    Lt,
    /// Whether the first operand is at most the second.
    Le,
    /// Whether the first operand is at least the second.
    Ge,
}

/// A floating-point operation that evaluation needs, and its operands: each is a number
/// std's float parsing accepts, or an earlier result.
pub struct FloatRequest {
    pub op: FloatOp,
    pub args: Vec<String>,
}

/// How far the evaluation of an expression got.
pub enum Step {
    /// The expression evaluated to a value, or to an error message.
    Done(Result<String, String>),
    /// A floating-point result is needed and no answer was left for it.
    Float(FloatRequest),
    /// Evaluation cannot go on: the interpreter stops here.
    Abort,
}

/// The mathematical counterpart of [`Step`].
pub enum StepSpec {
    Done(Result<Seq<char>, Seq<char>>),
    Float(FloatOp, Seq<Seq<char>>),
    Abort,
}

impl View for Step {
    type V = StepSpec;

    open spec fn view(&self) -> StepSpec {
        match self {
            Step::Done(Ok(v)) => StepSpec::Done(Ok(v@)),
            Step::Done(Err(e)) => StepSpec::Done(Err(e@)),
            Step::Float(req) => StepSpec::Float(req.op, strings_view(req.args@)),
            Step::Abort => StepSpec::Abort,
        }
    }
}

pub open spec fn is_arith_op(c: Seq<char>) -> bool {
    c == "*"@ || c == "+"@ || c == "-"@ || c == "/"@ || c == "modulo"@ || c == "sqrt"@
}

pub open spec fn is_boolean_op(c: Seq<char>) -> bool {
    c == "and"@ || c == "or"@ || c == "xor"@ || c == "nand"@ || c == "nor"@ || c == "not"@
}

pub open spec fn is_comparison_op(c: Seq<char>) -> bool {
    c == "="@ || c == ">"@ || c == "<"@ || c == "<="@ || c == ">="@
}

pub open spec fn is_cond_op(c: Seq<char>) -> bool {
    c == "if"@ || c == "cond"@
}

pub open spec fn all_floats(args: Seq<Seq<char>>) -> bool {
    forall|i: int| 0 <= i < args.len() ==> is_float_literal(#[trigger] args[i])
}

pub open spec fn all_bools(args: Seq<Seq<char>>) -> bool {
    forall|i: int| 0 <= i < args.len() ==> is_bool_literal(#[trigger] args[i])
}

pub open spec fn all_true(args: Seq<Seq<char>>) -> bool {
    forall|i: int| 0 <= i < args.len() ==> #[trigger] args[i] == "true"@
}

pub open spec fn any_true(args: Seq<Seq<char>>) -> bool {
    exists|i: int| 0 <= i < args.len() && #[trigger] args[i] == "true"@
}

/// How a boolean is written.
pub open spec fn bool_text(b: bool) -> Seq<char> {
    if b {
        "true"@
    } else {
        "false"@
    }
}

/// How far a floating-point computation got, and how many answers it has used.
pub struct FloatOut {
    pub step: StepSpec,
    pub next: int,
}

/// The operation one answer stands for, taken from the answers when one is left.
pub open spec fn ask(f: FloatOp, operands: Seq<Seq<char>>, answers: Seq<Seq<char>>, next: int) -> FloatOut {
    if 0 <= next < answers.len() {
        FloatOut { step: StepSpec::Done(Ok(answers[next])), next: next + 1 }
    } else {
        FloatOut { step: StepSpec::Float(f, operands), next }
    }
}

/// Combines `acc` with the operands from the `i`-th on, left to right, with `f`: each result
/// is the next answer.
pub open spec fn fold_answers(
    f: FloatOp,
    acc: Seq<char>,
    args: Seq<Seq<char>>,
    i: int,
    answers: Seq<Seq<char>>,
    next: int,
) -> FloatOut
    decreases args.len() - i,
{
    if i < 0 || i >= args.len() {
        FloatOut { step: StepSpec::Done(Ok(acc)), next }
    } else if 0 <= next < answers.len() {
        fold_answers(f, answers[next], args, i + 1, answers, next + 1)
    } else {
        FloatOut { step: StepSpec::Float(f, seq![acc, args[i]]), next }
    }
}

/// Compares each operand from the `i`-th on with the one before it, with `f`: `holds` so
/// far and each answer `true` gives `true`.
pub open spec fn compare_answers(
    f: FloatOp,
    args: Seq<Seq<char>>,
    i: int,
    holds: bool,
    answers: Seq<Seq<char>>,
    next: int,
) -> FloatOut
    decreases args.len() - i,
{
    if i < 1 || i >= args.len() {
        FloatOut { step: StepSpec::Done(Ok(bool_text(holds))), next }
    } else if 0 <= next < answers.len() {
        compare_answers(f, args, i + 1, holds && answers[next] == "true"@, answers, next + 1)
    } else {
        FloatOut { step: StepSpec::Float(f, seq![args[i - 1], args[i]]), next }
    }
}

/// The operation that `+`, `-`, `*` or `/` folds its operands with.
pub open spec fn fold_op(op: Seq<char>) -> FloatOp {
    if op == "+"@ {
        FloatOp::Add
    } else if op == "-"@ {
        FloatOp::Sub
    } else if op == "*"@ {
        FloatOp::Mul
    } else {
        FloatOp::Div
    }
}

/// The comparison that `=`, `>`, `<`, `<=` or `>=` makes between neighbours.
pub open spec fn compare_op(op: Seq<char>) -> FloatOp {
    if op == "="@ {
        FloatOp::Eq
    } else if op == ">"@ {
        FloatOp::Gt
    } else if op == "<"@ {
        FloatOp::Lt
    } else if op == "<="@ {
        FloatOp::Le
    } else {
        FloatOp::Ge
    }
}

/// An arithmetic operator (`+ - * / modulo sqrt`) on evaluated arguments. `+ - * /` fold
/// their operands left to right; one operand alone is taken as it is, or negated by `-`.
pub open spec fn arith_step(
    op: Seq<char>,
    args: Seq<Seq<char>>,
    answers: Seq<Seq<char>>,
    next: int,
) -> FloatOut {
    if !all_floats(args) {
        FloatOut { step: StepSpec::Done(Err("At least one arg is not a number"@)), next }
    } else if op == "+"@ || op == "*"@ || op == "/"@ || op == "-"@ {
        if args.len() == 0 {
            FloatOut { step: StepSpec::Abort, next }
        } else if args.len() == 1 {
            ask(if op == "-"@ { FloatOp::Neg } else { FloatOp::Value }, args, answers, next)
        } else {
            fold_answers(fold_op(op), args[0], args, 1, answers, next)
        }
    } else if op == "modulo"@ {
        if args.len() != 2 {
            FloatOut { step: StepSpec::Done(Err("Modulo only takes two arguments"@)), next }
        } else {
            ask(FloatOp::Rem, args, answers, next)
        }
    } else if op == "sqrt"@ {
        if args.len() != 1 {
            FloatOut { step: StepSpec::Done(Err("Sqrt only takes one argument"@)), next }
        } else {
            ask(FloatOp::Sqrt, args, answers, next)
        }
    } else {
        FloatOut { step: StepSpec::Done(Ok("0"@)), next }
    }
}

/// A numeric comparison (`= > < <= >=`) on evaluated arguments: whether each argument
/// stands in the relation to the next.
pub open spec fn comparison_step(
    op: Seq<char>,
    args: Seq<Seq<char>>,
    answers: Seq<Seq<char>>,
    next: int,
) -> FloatOut {
    if !all_floats(args) {
        FloatOut { step: StepSpec::Done(Err("At least one arg is not a number"@)), next }
    } else if is_comparison_op(op) {
        compare_answers(compare_op(op), args, 1, true, answers, next)
    } else {
        FloatOut { step: StepSpec::Done(Ok("false"@)), next }
    }
}

/// The step of a boolean operator (`and or xor nand nor not`) on evaluated arguments.
/// `nor`, like `nand`, gives the negation of `and`.
pub open spec fn boolean_step(op: Seq<char>, args: Seq<Seq<char>>) -> StepSpec {
    if !all_bools(args) {
        StepSpec::Done(Err("At least one arg is not a boolean"@))
    } else if op == "and"@ {
        if args.len() == 0 {
            StepSpec::Abort
        } else {
            StepSpec::Done(Ok(bool_text(all_true(args))))
        }
    } else if op == "or"@ {
        if args.len() == 0 {
            StepSpec::Abort
        } else {
            StepSpec::Done(Ok(bool_text(any_true(args))))
        }
    } else if op == "xor"@ {
        if args.len() != 2 {
            StepSpec::Done(Err("XOR only takes two arguments"@))
        } else {
            StepSpec::Done(Ok(bool_text((args[0] == "true"@) != (args[1] == "true"@))))
        }
    } else if op == "nand"@ || op == "nor"@ {
        if args.len() == 0 {
            StepSpec::Abort
        } else {
            StepSpec::Done(Ok(bool_text(!all_true(args))))
        }
    } else if op == "not"@ {
        if args.len() != 1 {
            StepSpec::Done(Err("NOT only takes one argument"@))
        } else {
            StepSpec::Done(Ok(bool_text(args[0] != "true"@)))
        }
    } else {
        StepSpec::Done(Ok("false"@))
    }
}

/// The step of a conditional (`if`, `cond`) on evaluated arguments.
pub open spec fn cond_step(op: Seq<char>, args: Seq<Seq<char>>) -> StepSpec {
    if op == "if"@ {
        if args.len() == 0 {
            StepSpec::Abort
        } else if args[0] == "true"@ {
            if args.len() < 2 {
                StepSpec::Abort
            } else {
                StepSpec::Done(Ok(args[1]))
            }
        } else if args[0] == "false"@ {
            if args.len() < 3 {
                StepSpec::Abort
            } else {
                StepSpec::Done(Ok(args[2]))
            }
        } else {
            StepSpec::Done(Err("Conditional condition doesn't evaluate to a boolean"@))
        }
    } else if op == "cond"@ {
        StepSpec::Done(Err("Not implemented"@))
    } else {
        StepSpec::Done(
            Err("What? How did you manage to get to evaluate condition without a condition clause"@),
        )
    }
}

fn is_arithmetic(c: &str) -> (r: bool)
    ensures
        r == is_arith_op(c@),
{
    same(c, "*") || same(c, "+") || same(c, "-") || same(c, "/") || same(c, "modulo") || same(
        c,
        "sqrt",
    )
}

fn is_boolean(c: &str) -> (r: bool)
    ensures
        r == is_boolean_op(c@),
{
    same(c, "and") || same(c, "or") || same(c, "xor") || same(c, "nand") || same(c, "nor")
        || same(c, "not")
}

fn is_comparison(c: &str) -> (r: bool)
    ensures
        r == is_comparison_op(c@),
{
    same(c, "=") || same(c, ">") || same(c, "<") || same(c, "<=") || same(c, ">=")
}

fn is_conditional(c: &str) -> (r: bool)
    ensures
        r == is_cond_op(c@),
{
    same(c, "if") || same(c, "cond")
}

fn all_parse_as_float(args: &Vec<String>) -> (r: bool)
    ensures
        r == all_floats(strings_view(args@)),
{
    let mut i: usize = 0;
    while i < args.len()
        invariant
            i <= args@.len(),
            forall|j: int| 0 <= j < i ==> is_float_literal(#[trigger] strings_view(args@)[j]),
        decreases args@.len() - i,
    {
        if !parses_as_float(args[i].as_str()) {
            assert(!is_float_literal(strings_view(args@)[i as int]));
            return false;
        }
        i += 1;
    }
    true
}

fn all_parse_as_bool(args: &Vec<String>) -> (r: bool)
    ensures
        r == all_bools(strings_view(args@)),
{
    let mut i: usize = 0;
    while i < args.len()
        invariant
            i <= args@.len(),
            forall|j: int| 0 <= j < i ==> is_bool_literal(#[trigger] strings_view(args@)[j]),
        decreases args@.len() - i,
    {
        if !parses_as_bool(args[i].as_str()) {
            assert(!is_bool_literal(strings_view(args@)[i as int]));
            return false;
        }
        i += 1;
    }
    true
}

fn text_of_bool(b: bool) -> (r: String)
    ensures
        r@ == bool_text(b),
{
    if b {
        String::from_str("true")
    } else {
        String::from_str("false")
    }
}

/// Takes the next answer for operation `f` on `operands`, or asks for it.
fn take_answer(
    f: FloatOp,
    operands: Vec<String>,
    answers: &Vec<String>,
    next: &mut usize,
) -> (r: Step)
    ensures
        ({
            let out = ask(f, strings_view(operands@), strings_view(answers@), *old(next) as int);
            &&& r@ == out.step
            &&& *final(next) == out.next
        }),
{
    if *next < answers.len() {
        let v = answers[*next].clone();
        *next = *next + 1;
        Step::Done(Ok(v))
    } else {
        Step::Float(FloatRequest { op: f, args: operands })
    }
}

fn pair_of(a: String, b: String) -> (r: Vec<String>)
    ensures
        strings_view(r@) == seq![a@, b@],
{
    let mut r: Vec<String> = Vec::new();
    r.push(a);
    r.push(b);
    assert(strings_view(r@) =~= seq![a@, b@]);
    r
}

/// Folds `args` left to right with `f`, each result being the next answer.
fn fold_with(f: FloatOp, args: &Vec<String>, answers: &Vec<String>, next: &mut usize) -> (r: Step)
    requires
        args@.len() >= 1,
    ensures
        ({
            let a = strings_view(args@);
            let out = fold_answers(f, a[0], a, 1, strings_view(answers@), *old(next) as int);
            &&& r@ == out.step
            &&& *final(next) == out.next
        }),
{
    let ghost a = strings_view(args@);
    let ghost ans = strings_view(answers@);
    let ghost target = fold_answers(f, a[0], a, 1, ans, *next as int);
    let mut acc = args[0].clone();
    let mut i: usize = 1;
    while i < args.len()
        invariant
            a == strings_view(args@),
            ans == strings_view(answers@),
            1 <= i <= args@.len(),
            target == fold_answers(f, a[0], a, 1, ans, *old(next) as int),
            fold_answers(f, acc@, a, i as int, ans, *next as int) == target,
        decreases args@.len() - i,
    {
        if *next < answers.len() {
            acc = answers[*next].clone();
            *next = *next + 1;
            i += 1;
        } else {
            return Step::Float(FloatRequest { op: f, args: pair_of(acc, args[i].clone()) });
        }
    }
    Step::Done(Ok(acc))
}

/// Compares each argument with the one before it by `f`, each result being the next answer.
fn compare_with(f: FloatOp, args: &Vec<String>, answers: &Vec<String>, next: &mut usize) -> (r: Step)
    ensures
        ({
            let out = compare_answers(
                f,
                strings_view(args@),
                1,
                true,
                strings_view(answers@),
                *old(next) as int,
            );
            &&& r@ == out.step
            &&& *final(next) == out.next
        }),
{
    let ghost a = strings_view(args@);
    let ghost ans = strings_view(answers@);
    let ghost target = compare_answers(f, a, 1, true, ans, *next as int);
    let mut holds = true;
    let mut i: usize = 1;
    while i < args.len()
        invariant
            a == strings_view(args@),
            ans == strings_view(answers@),
            1 <= i,
            target == compare_answers(f, a, 1, true, ans, *old(next) as int),
            compare_answers(f, a, i as int, holds, ans, *next as int) == target,
        decreases args@.len() - i,
    {
        if *next < answers.len() {
            let t = same(answers[*next].as_str(), "true");
            holds = holds && t;
            *next = *next + 1;
            i += 1;
        } else {
            return Step::Float(
                FloatRequest { op: f, args: pair_of(args[i - 1].clone(), args[i].clone()) },
            );
        }
    }
    Step::Done(Ok(text_of_bool(holds)))
}

/// Evaluates an arithmetic operator on evaluated arguments: checks that each is a number
/// and that there are as many as the operator takes; the floating-point results come from
/// `answers`, from the `next`-th on, or are asked for.
pub fn eval_arithmetic(
    operand: &str,
    args: Vec<String>,
    answers: &Vec<String>,
    next: &mut usize,
) -> (r: Step)
    ensures
        ({
            let out = arith_step(
                operand@,
                strings_view(args@),
                strings_view(answers@),
                *old(next) as int,
            );
            &&& r@ == out.step
            &&& *final(next) == out.next
        }),
{
    if !all_parse_as_float(&args) {
        return Step::Done(Err(String::from_str("At least one arg is not a number")));
    }
    if same(operand, "+") || same(operand, "*") || same(operand, "/") || same(operand, "-") {
        if args.len() == 0 {
            return Step::Abort;
        }
        if args.len() == 1 {
            let f = if same(operand, "-") {
                FloatOp::Neg
            } else {
                FloatOp::Value
            };
            return take_answer(f, args, answers, next);
        }
        let f = if same(operand, "+") {
            FloatOp::Add
        } else if same(operand, "-") {
            FloatOp::Sub
        } else if same(operand, "*") {
            FloatOp::Mul
        } else {
            FloatOp::Div
        };
        fold_with(f, &args, answers, next)
    } else if same(operand, "modulo") {
        if args.len() != 2 {
            return Step::Done(Err(String::from_str("Modulo only takes two arguments")));
        }
        take_answer(FloatOp::Rem, args, answers, next)
    } else if same(operand, "sqrt") {
        if args.len() != 1 {
            return Step::Done(Err(String::from_str("Sqrt only takes one argument")));
        }
        take_answer(FloatOp::Sqrt, args, answers, next)
    } else {
        Step::Done(Ok(String::from_str("0")))
    }
}

/// Evaluates a numeric comparison on evaluated arguments: checks that each is a number,
/// and compares each argument with the one before it; the comparisons come from `answers`,
/// from the `next`-th on, or are asked for.
pub fn eval_comparison(
    operand: &str,
    args: Vec<String>,
    answers: &Vec<String>,
    next: &mut usize,
) -> (r: Step)
    ensures
        ({
            let out = comparison_step(
                operand@,
                strings_view(args@),
                strings_view(answers@),
                *old(next) as int,
            );
            &&& r@ == out.step
            &&& *final(next) == out.next
        }),
{
    if !all_parse_as_float(&args) {
        return Step::Done(Err(String::from_str("At least one arg is not a number")));
    }
    if is_comparison(operand) {
        let f = if same(operand, "=") {
            FloatOp::Eq
        } else if same(operand, ">") {
            FloatOp::Gt
        } else if same(operand, "<") {
            FloatOp::Lt
        } else if same(operand, "<=") {
            FloatOp::Le
        } else {
            FloatOp::Ge
        };
        compare_with(f, &args, answers, next)
    } else {
        Step::Done(Ok(String::from_str("false")))
    }
}

/// Evaluates a boolean operator on evaluated arguments.
pub fn eval_boolean(operand: &str, args: Vec<String>) -> (r: Step)
    ensures
        r@ == boolean_step(operand@, strings_view(args@)),
{
    if !all_parse_as_bool(&args) {
        return Step::Done(Err(String::from_str("At least one arg is not a boolean")));
    }
    let ghost a = strings_view(args@);
    let mut all = true;
    let mut any = false;
    let mut i: usize = 0;
    while i < args.len()
        invariant
            a == strings_view(args@),
            i <= args@.len(),
            all == forall|j: int| 0 <= j < i ==> #[trigger] a[j] == "true"@,
            any == exists|j: int| 0 <= j < i && #[trigger] a[j] == "true"@,
        decreases args@.len() - i,
    {
        let b = same(args[i].as_str(), "true");
        assert(b == (a[i as int] == "true"@));
        all = all && b;
        any = any || b;
        i += 1;
    }
    if same(operand, "and") {
        if args.len() == 0 {
            return Step::Abort;
        }
        Step::Done(Ok(text_of_bool(all)))
    } else if same(operand, "or") {
        if args.len() == 0 {
            return Step::Abort;
        }
        Step::Done(Ok(text_of_bool(any)))
    } else if same(operand, "xor") {
        if args.len() != 2 {
            return Step::Done(Err(String::from_str("XOR only takes two arguments")));
        }
        let b0 = same(args[0].as_str(), "true");
        let b1 = same(args[1].as_str(), "true");
        Step::Done(Ok(text_of_bool(b0 != b1)))
    } else if same(operand, "nand") || same(operand, "nor") {
        if args.len() == 0 {
            return Step::Abort;
        }
        Step::Done(Ok(text_of_bool(!all)))
    } else if same(operand, "not") {
        if args.len() != 1 {
            return Step::Done(Err(String::from_str("NOT only takes one argument")));
        }
        let b0 = same(args[0].as_str(), "true");
        Step::Done(Ok(text_of_bool(!b0)))
    } else {
        Step::Done(Ok(String::from_str("false")))
    }
}

/// Evaluates a conditional on evaluated arguments: `if` picks its second or third argument
/// by its first; `cond` is not implemented.
pub fn eval_cond(operand: &str, args: Vec<String>) -> (r: Step)
    ensures
        r@ == cond_step(operand@, strings_view(args@)),
{
    if same(operand, "if") {
        if args.len() == 0 {
            return Step::Abort;
        }
        if same(args[0].as_str(), "true") {
            if args.len() < 2 {
                return Step::Abort;
            }
            Step::Done(Ok(args[1].clone()))
        } else if same(args[0].as_str(), "false") {
            if args.len() < 3 {
                return Step::Abort;
            }
            Step::Done(Ok(args[2].clone()))
        } else {
            Step::Done(Err(String::from_str("Conditional condition doesn't evaluate to a boolean")))
        }
    } else if same(operand, "cond") {
        Step::Done(Err(String::from_str("Not implemented")))
    } else {
        Step::Done(
            Err(
                String::from_str(
                    "What? How did you manage to get to evaluate condition without a condition clause",
                ),
            ),
        )
    }
}

/// The result of evaluating an expression: its step, the variables afterwards, and how many
/// of the floating-point answers have been used.
pub struct EvalOut {
    pub step: StepSpec,
    pub table: Map<Seq<char>, Seq<char>>,
    pub next: int,
}

/// The first position at or after `f` that does not hold an argument separator.
pub open spec fn skip_separators(s: Seq<char>, f: int) -> int
    decreases s.len() - f,
{
    if 0 <= f < s.len() && is_separator(s[f]) {
        skip_separators(s, f + 1)
    } else {
        f
    }
}

/// Skipping separators never moves backwards.
pub proof fn lemma_skip_separators(s: Seq<char>, f: int)
    ensures
        skip_separators(s, f) >= f,
    decreases s.len() - f,
{
    if 0 <= f < s.len() && is_separator(s[f]) {
        lemma_skip_separators(s, f + 1);
    }
}

/// The position of the first space at or after `i`, or the length of `s` when there is none.
pub open spec fn first_space(s: Seq<char>, i: int) -> int
    decreases s.len() - i,
{
    if i < 0 || i >= s.len() {
        s.len() as int
    } else if s[i] == ' ' {
        i
    } else {
        first_space(s, i + 1)
    }
}

/// `command` applied to evaluated arguments.
pub open spec fn dispatch(
    command: Seq<char>,
    values: Seq<Seq<char>>,
    answers: Seq<Seq<char>>,
    next: int,
) -> FloatOut {
    if is_arith_op(command) {
        arith_step(command, values, answers, next)
    } else if is_boolean_op(command) {
        FloatOut { step: boolean_step(command, values), next }
    } else if is_comparison_op(command) {
        comparison_step(command, values, answers, next)
    } else if is_cond_op(command) {
        FloatOut { step: cond_step(command, values), next }
    } else {
        FloatOut { step: StepSpec::Done(Err("Invalid symbol `"@ + command + "`"@)), next }
    }
}

/// What an evaluated argument contributes: its value, or the empty string for an error.
pub open spec fn arg_value(r: Result<Seq<char>, Seq<char>>) -> Seq<char> {
    match r {
        Ok(v) => v,
        Err(_) => seq![],
    }
}

/// The arguments evaluated so far: `stopped` holds the step that ended evaluation early
/// (a floating-point request or an abort), `values` the values in order.
pub struct ArgsOut {
    pub stopped: Option<StepSpec>,
    pub values: Seq<Seq<char>>,
    pub table: Map<Seq<char>, Seq<char>>,
    pub next: int,
}

/// The operator applied to its evaluated arguments, unless their evaluation stopped early.
pub open spec fn apply_args(command: Seq<char>, a: ArgsOut, answers: Seq<Seq<char>>) -> EvalOut {
    match a.stopped {
        Some(st) => EvalOut { step: st, table: a.table, next: a.next },
        None => {
            let d = dispatch(command, a.values, answers, a.next);
            EvalOut { step: d.step, table: a.table, next: d.next }
        },
    }
}

/// Define the trimmed first argument as the value of the second.
pub open spec fn define_after(args: Seq<Seq<char>>, r: EvalOut) -> EvalOut {
    match r.step {
        StepSpec::Done(Ok(v)) => EvalOut {
            step: StepSpec::Done(Ok(seq![])),
            table: r.table.insert(trimmed(args[0]), v),
            next: r.next,
        },
        StepSpec::Done(Err(_)) => EvalOut {
            step: StepSpec::Done(Err("Something went wrong in evaluating expression"@)),
            table: r.table,
            next: r.next,
        },
        _ => r,
    }
}

pub open spec fn define_arity_error(table: Map<Seq<char>, Seq<char>>, next: int) -> EvalOut {
    EvalOut {
        step: StepSpec::Done(Err("Defining of variable should be (define var_name expr)"@)),
        table,
        next,
    }
}

/// Evaluates the first `i` of `args` in order, each in the variables the previous one left.
/// (`bound` exceeds the length of every argument.)
pub open spec fn eval_args_upto(
    args: Seq<Seq<char>>,
    i: int,
    bound: int,
    table: Map<Seq<char>, Seq<char>>,
    answers: Seq<Seq<char>>,
    next: int,
) -> ArgsOut
    decreases bound, i,
{
    if i <= 0 {
        ArgsOut { stopped: None, values: seq![], table, next }
    } else {
        let prev = eval_args_upto(args, i - 1, bound, table, answers, next);
        if prev.stopped is Some {
            prev
        } else if i - 1 >= args.len() || args[i - 1].len() >= bound {
            ArgsOut { stopped: Some(StepSpec::Abort), ..prev }
        } else {
            let r = eval_expr(args[i - 1], prev.table, answers, prev.next);
            match r.step {
                StepSpec::Done(v) => ArgsOut {
                    stopped: None,
                    values: prev.values.push(arg_value(v)),
                    table: r.table,
                    next: r.next,
                },
                st => ArgsOut { stopped: Some(st), values: prev.values, table: r.table, next: r.next },
            }
        }
    }
}

/// The evaluation of expression `e`, with the variables `table`, where the answers to the
/// floating-point requests from the `next`-th on are those in `answers`.
///
/// A number or boolean evaluates to itself, `#t` and `#f` to `true` and `false`, a defined
/// name to its value. Otherwise `e` is read as `(operator arg arg ...)`: `define` defines a
/// name; any other operator has its arguments evaluated first, in order, and then applied.
pub open spec fn eval_expr(
    e: Seq<char>,
    table: Map<Seq<char>, Seq<char>>,
    answers: Seq<Seq<char>>,
    next: int,
) -> EvalOut
    decreases e.len(), 0int,
{
    let t = trimmed(e);
    if is_float_literal(t) || is_bool_literal(t) {
        EvalOut { step: StepSpec::Done(Ok(t)), table, next }
    } else if t == "#t"@ {
        EvalOut { step: StepSpec::Done(Ok("true"@)), table, next }
    } else if t == "#f"@ {
        EvalOut { step: StepSpec::Done(Ok("false"@)), table, next }
    } else if table.contains_key(t) {
        EvalOut { step: StepSpec::Done(Ok(table[t])), table, next }
    } else if t.len() <= 1 {
        EvalOut { step: StepSpec::Abort, table, next }
    } else {
        let f = skip_separators(t, 1);
        if f > t.len() - 1 {
            EvalOut { step: StepSpec::Abort, table, next }
        } else {
            let inner = t.subrange(f, t.len() - 1);
            let dex = first_space(inner, 0);
            if dex >= inner.len() {
                EvalOut { step: StepSpec::Done(Err("Invalid syntax"@)), table, next }
            } else if !balanced(inner) {
                EvalOut { step: StepSpec::Abort, table, next }
            } else {
                let command = inner.subrange(0, dex);
                let args = split_args(inner);
                proof {
                    lemma_trimmed(e);
                    lemma_skip_separators(t, 1);
                    lemma_split_args_shorter(inner);
                    assert(inner.len() + 1 < e.len());
                    if args.len() == 2 {
                        assert(args[1].len() <= inner.len());
                    }
                }
                if command == "define"@ {
                    if args.len() == 2 {
                        define_after(args, eval_expr(args[1], table, answers, next))
                    } else {
                        define_arity_error(table, next)
                    }
                } else {
                    let a = eval_args_upto(
                        args,
                        args.len() as int,
                        inner.len() as int + 1,
                        table,
                        answers,
                        next,
                    );
                    apply_args(command, a, answers)
                }
            }
        }
    }
}

/// The evaluation of `(define name expr)` on its arguments `name expr`.
pub open spec fn define_step(
    args: Seq<Seq<char>>,
    table: Map<Seq<char>, Seq<char>>,
    answers: Seq<Seq<char>>,
    next: int,
) -> EvalOut {
    if args.len() == 2 {
        define_after(args, eval_expr(args[1], table, answers, next))
    } else {
        define_arity_error(table, next)
    }
}

/// `t` (already trimmed) evaluates without being read as `(operator arg arg ...)`: it is a
/// number, a boolean, `#t`, `#f`, a defined name, or too short to be read at all.
pub open spec fn evaluates_directly(t: Seq<char>, table: Map<Seq<char>, Seq<char>>) -> bool {
    ||| is_float_literal(t)
    ||| is_bool_literal(t)
    ||| t == "#t"@
    ||| t == "#f"@
    ||| table.contains_key(t)
    ||| t.len() <= 1
}

/// The evaluator can read `e`: trimmed, it evaluates directly or is ASCII text (the text
/// of an expression is cut at character positions, which must be byte positions too).
pub open spec fn readable_expr(e: Seq<char>, table: Map<Seq<char>, Seq<char>>) -> bool {
    is_ascii_chars(trimmed(e)) || evaluates_directly(trimmed(e), table)
}

/// Once the evaluation of the arguments has stopped, evaluating more of them changes nothing.
proof fn lemma_args_stopped(
    args: Seq<Seq<char>>,
    j: int,
    k: int,
    bound: int,
    table: Map<Seq<char>, Seq<char>>,
    answers: Seq<Seq<char>>,
    next: int,
)
    requires
        0 <= j <= k,
        eval_args_upto(args, j, bound, table, answers, next).stopped is Some,
    ensures
        eval_args_upto(args, k, bound, table, answers, next) == eval_args_upto(
            args,
            j,
            bound,
            table,
            answers,
            next,
        ),
    decreases k - j,
{
    if k > j {
        lemma_args_stopped(args, j, k - 1, bound, table, answers, next);
    }
}

/// Evaluates an expression: a number or boolean evaluates to itself, `#t` and `#f` to
/// `true` and `false`, a defined name to its value, and `(operator arg arg ...)` to the
/// operator applied to its evaluated arguments; `(define name expr)` defines `name`.
///
/// `answers` are the floating-point results already computed, in the order evaluation asks
/// for them; `next` is the first one not used yet, and moves past those this evaluation uses.
pub fn evaluate_expresion(
    expr: &String,
    var_table: &mut VarTable,
    answers: &Vec<String>,
    next: &mut usize,
) -> (r: Step)
    requires
        readable_expr(expr@, old(var_table)@),
        *old(next) <= answers@.len(),
    ensures
        *final(next) <= answers@.len(),
        ({
            let out = eval_expr(expr@, old(var_table)@, strings_view(answers@), *old(next) as int);
            &&& r@ == out.step
            &&& final(var_table)@ == out.table
            &&& *final(next) == out.next
        }),
    decreases expr@.len(), 0int,
{
    let ghost e = expr@;
    let ghost tbl0 = var_table@;
    let ghost ans = strings_view(answers@);
    let ghost next0 = *next as int;
    let t = trim(expr.as_str());
    proof {
        lemma_trimmed(e);
    }
    // a number or a boolean evaluates to itself
    if parses_as_float(t.as_str()) || parses_as_bool(t.as_str()) {
        return Step::Done(Ok(t));
    } else if same(t.as_str(), "#t") {
        return Step::Done(Ok(String::from_str("true")));
    } else if same(t.as_str(), "#f") {
        return Step::Done(Ok(String::from_str("false")));
    }
    match var_table.get(t.as_str()) {
        Some(v) => {
            return Step::Done(Ok(v.clone()));
        },
        None => {},
    }
    let len = t.as_str().unicode_len();
    if len <= 1 {
        return Step::Abort;
    }
    assert(is_ascii_chars(t@));
    // remove the outer parentheses and the separators after the opening one
    let mut first_non_space: usize = 1;
    while first_non_space < len && is_separator_char(t.as_str().get_char(first_non_space))
        invariant
            len == t@.len(),
            1 <= first_non_space <= len,
            skip_separators(t@, 1) == skip_separators(t@, first_non_space as int),
        decreases len - first_non_space,
    {
        first_non_space += 1;
    }
    assert(skip_separators(t@, first_non_space as int) == first_non_space);
    if first_non_space > len - 1 {
        return Step::Abort;
    }
    let inner = String::from_str(t.as_str().substring_char(first_non_space, len - 1));
    let ghost iv = inner@;
    assert(iv == t@.subrange(first_non_space as int, len - 1));
    let n = inner.as_str().unicode_len();
    let mut dex: usize = 0;
    while dex < n && inner.as_str().get_char(dex) != ' '
        invariant
            n == inner@.len(),
            dex <= n,
            first_space(inner@, 0) == first_space(inner@, dex as int),
        decreases n - dex,
    {
        dex += 1;
    }
    if dex >= n {
        return Step::Done(Err(String::from_str("Invalid syntax")));
    }
    assert(first_space(inner@, 0) == dex);
    if !is_balanced(inner.as_str()) {
        return Step::Abort;
    }
    let command = String::from_str(inner.as_str().substring_char(0, dex));
    let mut orig = String::from_str("(");
    orig.append(inner.as_str());
    orig.append(")");
    proof {
        reveal_strlit("(");
        reveal_strlit(")");
        assert(inner_of(orig@) =~= iv);
        assert forall|j: int| 0 <= j < iv.len() implies '\0' <= #[trigger] iv[j] <= '\u{7f}' by {
            assert(iv[j] == t@[first_non_space + j]);
        }
        assert forall|j: int| 0 <= j < orig@.len() implies '\0' <= #[trigger] orig@[j] <= '\u{7f}' by {
            if 1 <= j < orig@.len() - 1 {
                assert(orig@[j] == iv[j - 1]);
            }
        }
        lemma_skip_separators(t@, 1);
        lemma_split_args_shorter(iv);
    }
    let args = parse_args(&orig);
    let ghost a = strings_view(args@);
    assert(a == split_args(iv));
    assert forall|j: int| 0 <= j < args@.len() implies is_ascii_chars(#[trigger] args@[j]@) by {
        assert(args@[j]@ == a[j]);
    }
    if args.len() == 2 {
        proof {
            lemma_trimmed(args@[1]@);
        }
    }
    if same(command.as_str(), "define") {
        return eval_define(&args, var_table, answers, next);
    }
    // evaluate all the arguments, in order
    let ghost bound = iv.len() as int + 1;
    let mut values: Vec<String> = Vec::new();
    let mut i: usize = 0;
    assert(strings_view(values@) =~= seq![]);
    assert(eval_expr(e, tbl0, ans, next0) == apply_args(
        command@,
        eval_args_upto(a, a.len() as int, bound, tbl0, ans, next0),
        ans,
    ));
    while i < args.len()
        invariant
            eval_expr(e, tbl0, ans, next0) == apply_args(
                command@,
                eval_args_upto(a, a.len() as int, bound, tbl0, ans, next0),
                ans,
            ),
            a == strings_view(args@),
            tbl0 == old(var_table)@,
            next0 == *old(next) as int,
            i <= args@.len(),
            forall|j: int| 0 <= j < a.len() ==> (#[trigger] a[j]).len() < bound && is_ascii_chars(a[j]),
            bound < e.len(),
            e == expr@,
            *next <= answers@.len(),
            ans == strings_view(answers@),
            ({
                let st = eval_args_upto(a, i as int, bound, tbl0, ans, next0);
                &&& st.stopped is None
                &&& strings_view(values@) == st.values
                &&& var_table@ == st.table
                &&& *next == st.next
            }),
        decreases args@.len() - i,
    {
        assert(a[i as int] == args@[i as int]@);
        proof {
            lemma_trimmed(a[i as int]);
        }
        let ghost prev = eval_args_upto(a, i as int, bound, tbl0, ans, next0);
        let st = evaluate_expresion(&args[i], var_table, answers, next);
        let ghost r = eval_expr(a[i as int], prev.table, ans, prev.next);
        assert(st@ == r.step && var_table@ == r.table && *next == r.next);
        match st {
            Step::Done(Ok(v)) => {
                let ghost old_values = values@;
                values.push(v);
                assert(strings_view(values@) =~= strings_view(old_values).push(v@));
            },
            Step::Done(Err(_)) => {
                let ghost old_values = values@;
                values.push(String::new());
                assert(strings_view(values@) =~= strings_view(old_values).push(seq![]));
            },
            other => {
                proof {
                    lemma_args_stopped(a, i as int + 1, a.len() as int, bound, tbl0, ans, next0);
                }
                return other;
            },
        }
        i += 1;
    }
    proof {
        lemma_replay_dispatch(command@, strings_view(values@), ans, seq![], *next as int);
    }
    if is_arithmetic(command.as_str()) {
        eval_arithmetic(command.as_str(), values, answers, next)
    } else if is_boolean(command.as_str()) {
        eval_boolean(command.as_str(), values)
    } else if is_comparison(command.as_str()) {
        eval_comparison(command.as_str(), values, answers, next)
    } else if is_conditional(command.as_str()) {
        eval_cond(command.as_str(), values)
    } else {
        let mut msg = String::from_str("Invalid symbol `");
        msg.append(command.as_str());
        msg.append("`");
        Step::Done(Err(msg))
    }
}

/// Evaluates `(define name expr)` on its arguments `name expr`: defines the trimmed name as
/// the value of `expr` and evaluates to the empty string.
pub fn eval_define(
    args: &Vec<String>,
    var_table: &mut VarTable,
    answers: &Vec<String>,
    next: &mut usize,
) -> (r: Step)
    requires
        args@.len() == 2 ==> readable_expr(args@[1]@, old(var_table)@),
        *old(next) <= answers@.len(),
    ensures
        *final(next) <= answers@.len(),
        ({
            let out = define_step(
                strings_view(args@),
                old(var_table)@,
                strings_view(answers@),
                *old(next) as int,
            );
            &&& r@ == out.step
            &&& final(var_table)@ == out.table
            &&& *final(next) == out.next
        }),
    decreases (if args@.len() == 2 {
        args@[1]@.len()
    } else {
        0
    }), 1int,
{
    if args.len() == 2 {
        let res = evaluate_expresion(&args[1], var_table, answers, next);
        match res {
            Step::Done(Ok(arg)) => {
                let key = trim(args[0].as_str());
                var_table.insert(key, arg);
                Step::Done(Ok(String::new()))
            },
            Step::Done(Err(_)) => Step::Done(
                Err(String::from_str("Something went wrong in evaluating expression")),
            ),
            other => other,
        }
    } else {
        Step::Done(Err(String::from_str("Defining of variable should be (define var_name expr)")))
    }
}

/// What evaluation does with the floating-point answers: it uses them in order, never more
/// than there are; it stops for a request only once it has used them all; and when it does
/// not stop for a request, answers added after those given change nothing.
proof fn lemma_replay_expr(
    e: Seq<char>,
    table: Map<Seq<char>, Seq<char>>,
    answers: Seq<Seq<char>>,
    extra: Seq<Seq<char>>,
    next: int,
)
    requires
        0 <= next <= answers.len(),
    ensures
        ({
            let o = eval_expr(e, table, answers, next);
            &&& next <= o.next <= answers.len()
            &&& o.step is Float ==> o.next == answers.len()
            &&& !(o.step is Float) ==> eval_expr(e, table, answers + extra, next) == o
        }),
    decreases e.len(), 0int,
{
    let t = trimmed(e);
    let more = answers + extra;
    if is_float_literal(t) || is_bool_literal(t) || t == "#t"@ || t == "#f"@ || table.contains_key(t)
        || t.len() <= 1 {
    } else {
        let f = skip_separators(t, 1);
        if f <= t.len() - 1 {
            let inner = t.subrange(f, t.len() - 1);
            let dex = first_space(inner, 0);
            if dex < inner.len() && balanced(inner) {
                let command = inner.subrange(0, dex);
                let args = split_args(inner);
                lemma_trimmed(e);
                lemma_skip_separators(t, 1);
                lemma_split_args_shorter(inner);
                if command == "define"@ {
                    if args.len() == 2 {
                        lemma_replay_expr(args[1], table, answers, extra, next);
                    }
                } else {
                    let bound = inner.len() as int + 1;
                    lemma_replay_args(args, args.len() as int, bound, table, answers, extra, next);
                    let a = eval_args_upto(args, args.len() as int, bound, table, answers, next);
                    if a.stopped is None {
                        lemma_replay_dispatch(command, a.values, answers, extra, a.next);
                    }
                }
            }
        }
    }
}

proof fn lemma_replay_fold(
    f: FloatOp,
    acc: Seq<char>,
    args: Seq<Seq<char>>,
    i: int,
    answers: Seq<Seq<char>>,
    extra: Seq<Seq<char>>,
    next: int,
)
    requires
        0 <= next <= answers.len(),
    ensures
        ({
            let o = fold_answers(f, acc, args, i, answers, next);
            &&& next <= o.next <= answers.len()
            &&& o.step is Float ==> o.next == answers.len()
            &&& !(o.step is Float) ==> fold_answers(f, acc, args, i, answers + extra, next) == o
        }),
    decreases args.len() - i,
{
    if 0 <= i < args.len() && next < answers.len() {
        assert((answers + extra)[next] == answers[next]);
        lemma_replay_fold(f, answers[next], args, i + 1, answers, extra, next + 1);
    }
}

proof fn lemma_replay_compare(
    f: FloatOp,
    args: Seq<Seq<char>>,
    i: int,
    holds: bool,
    answers: Seq<Seq<char>>,
    extra: Seq<Seq<char>>,
    next: int,
)
    requires
        0 <= next <= answers.len(),
    ensures
        ({
            let o = compare_answers(f, args, i, holds, answers, next);
            &&& next <= o.next <= answers.len()
            &&& o.step is Float ==> o.next == answers.len()
            &&& !(o.step is Float) ==> compare_answers(f, args, i, holds, answers + extra, next)
                == o
        }),
    decreases args.len() - i,
{
    if 1 <= i < args.len() && next < answers.len() {
        assert((answers + extra)[next] == answers[next]);
        lemma_replay_compare(
            f,
            args,
            i + 1,
            holds && answers[next] == "true"@,
            answers,
            extra,
            next + 1,
        );
    }
}

proof fn lemma_replay_dispatch(
    command: Seq<char>,
    values: Seq<Seq<char>>,
    answers: Seq<Seq<char>>,
    extra: Seq<Seq<char>>,
    next: int,
)
    requires
        0 <= next <= answers.len(),
    ensures
        ({
            let o = dispatch(command, values, answers, next);
            &&& next <= o.next <= answers.len()
            &&& o.step is Float ==> o.next == answers.len()
            &&& !(o.step is Float) ==> dispatch(command, values, answers + extra, next) == o
        }),
{
    if next < answers.len() {
        assert((answers + extra)[next] == answers[next]);
    }
    if values.len() >= 1 {
        lemma_replay_fold(fold_op(command), values[0], values, 1, answers, extra, next);
    }
    lemma_replay_compare(compare_op(command), values, 1, true, answers, extra, next);
}

proof fn lemma_replay_args(
    args: Seq<Seq<char>>,
    i: int,
    bound: int,
    table: Map<Seq<char>, Seq<char>>,
    answers: Seq<Seq<char>>,
    extra: Seq<Seq<char>>,
    next: int,
)
    requires
        0 <= next <= answers.len(),
    ensures
        ({
            let a = eval_args_upto(args, i, bound, table, answers, next);
            &&& next <= a.next <= answers.len()
            &&& (a.stopped matches Some(st) && st is Float) ==> a.next == answers.len()
            &&& !(a.stopped matches Some(st) && st is Float) ==> eval_args_upto(
                args,
                i,
                bound,
                table,
                answers + extra,
                next,
            ) == a
        }),
    decreases bound, i,
{
    if i > 0 {
        lemma_replay_args(args, i - 1, bound, table, answers, extra, next);
        let prev = eval_args_upto(args, i - 1, bound, table, answers, next);
        if prev.stopped is None && i - 1 < args.len() && args[i - 1].len() < bound {
            lemma_replay_expr(args[i - 1], prev.table, answers, extra, prev.next);
        }
    }
}

/// Law: the evaluation of an expression uses the floating-point answers in order, never
/// more than there are; when it stops for a floating-point result it has used all of them;
/// and when it does not, answers added after them change nothing.
pub proof fn law_expression_answers(
    e: Seq<char>,
    table: Map<Seq<char>, Seq<char>>,
    answers: Seq<Seq<char>>,
    extra: Seq<Seq<char>>,
    next: int,
)
    requires
        0 <= next <= answers.len(),
    ensures
        next <= eval_expr(e, table, answers, next).next <= answers.len(),
        eval_expr(e, table, answers, next).step is Float ==> eval_expr(
            e,
            table,
            answers,
            next,
        ).next == answers.len(),
        !(eval_expr(e, table, answers, next).step is Float) ==> eval_expr(
            e,
            table,
            answers + extra,
            next,
        ) == eval_expr(e, table, answers, next),
{
    lemma_replay_expr(e, table, answers, extra, next);
}

/// Law: a number or a boolean evaluates to itself (trimmed), and changes nothing.
pub proof fn law_literal_evaluates_to_itself(
    e: Seq<char>,
    table: Map<Seq<char>, Seq<char>>,
    answers: Seq<Seq<char>>,
    next: int,
)
    requires
        is_float_literal(trimmed(e)) || is_bool_literal(trimmed(e)),
    ensures
        eval_expr(e, table, answers, next) == (EvalOut {
            step: StepSpec::Done(Ok(trimmed(e))),
            table,
            next,
        }),
{
}

/// Law: once `(define name expr)` has defined `name`, the name evaluates to the value that
/// `expr` had, and reading it changes nothing (for a name that is not itself a number, a
/// boolean, `#t` or `#f`).
pub proof fn law_define_then_use(
    name: Seq<char>,
    expr: Seq<char>,
    table: Map<Seq<char>, Seq<char>>,
    answers: Seq<Seq<char>>,
    next: int,
)
    requires
        !is_float_literal(trimmed(name)),
        !is_bool_literal(trimmed(name)),
        trimmed(name) != "#t"@,
        trimmed(name) != "#f"@,
    ensures
        ({
            let value = eval_expr(expr, table, answers, next);
            let defined = define_step(seq![name, expr], table, answers, next);
            value.step matches StepSpec::Done(Ok(v)) ==> {
                &&& defined.step == StepSpec::Done(Ok(Seq::<char>::empty()))
                &&& eval_expr(name, defined.table, answers, defined.next) == (EvalOut {
                    step: StepSpec::Done(Ok(v)),
                    table: defined.table,
                    next: defined.next,
                })
            }
        }),
{
    let args = seq![name, expr];
    assert(args[0] == name && args[1] == expr);
}

/// Law: the expression `()` evaluates to a value only as the name of a variable, so then it
/// changes neither the variables nor the answers used, and evaluating it again gives the
/// same value: a program that comes back to it prints that value without end.
pub proof fn law_empty_pair_is_stable(
    table: Map<Seq<char>, Seq<char>>,
    answers: Seq<Seq<char>>,
    next: int,
)
    ensures
        ({
            let o = eval_expr("()"@, table, answers, next);
            o.step matches StepSpec::Done(Ok(_)) ==> {
                &&& o.table == table
                &&& o.next == next
                &&& o.step == StepSpec::Done(Ok(table["()"@]))
            }
        }),
{
    reveal_strlit("()");
    reveal_strlit("#t");
    reveal_strlit("#f");
    reveal_strlit("true");
    reveal_strlit("false");
    reveal_strlit("inf");
    reveal_strlit("infinity");
    reveal_strlit("nan");
    let s = "()"@;
    assert(s.len() == 2 && s[0] == '(' && s[1] == ')');
    assert(crate::text::trim_start_spec(s) == s);
    assert(crate::text::trim_end_spec(s) == s);
    assert(trimmed(s) == s);
    assert(crate::text::unsigned_part(s) == s);
    assert forall|i: int| 0 <= i <= s.len() implies !#[trigger] crate::text::is_mantissa(
        s.subrange(0, i),
    ) by {
        let m = s.subrange(0, i);
        if i > 0 {
            assert(m[0] == '(');
        } else {
            assert(m.len() == 0);
        }
    }
    assert(!is_float_literal(s));
    assert(s != "true"@ && s != "false"@);
    assert(s != "#t"@) by {
        assert("#t"@[0] == '#');
    }
    assert(s != "#f"@) by {
        assert("#f"@[0] == '#');
    }
    if !table.contains_key(s) {
        assert(skip_separators(s, 1) == 1);
        let inner = s.subrange(1, 1);
        assert(inner.len() == 0);
        assert(first_space(inner, 0) == 0);
    }
}

/// How the evaluation of a program ended.
pub enum RunEnd {
    /// The program ran to its end, or stopped after printing an error.
    Finished,
    /// A floating-point result is needed and no answer was left for it.
    Float(FloatRequest),
    /// The interpreter stops here.
    Aborted,
    /// The interpreter prints this line again and again, without end.
    Forever(String),
}

/// The lines a program printed, and how it ended.
pub struct Run {
    pub lines: Vec<String>,
    pub end: RunEnd,
}

pub enum RunEndSpec {
    Finished,
    Float(FloatOp, Seq<Seq<char>>),
    Aborted,
    Forever(Seq<char>),
}

impl View for RunEnd {
    type V = RunEndSpec;

    open spec fn view(&self) -> RunEndSpec {
        match self {
            RunEnd::Finished => RunEndSpec::Finished,
            RunEnd::Float(req) => RunEndSpec::Float(req.op, strings_view(req.args@)),
            RunEnd::Aborted => RunEndSpec::Aborted,
            RunEnd::Forever(line) => RunEndSpec::Forever(line@),
        }
    }
}

/// The lines printed, how the program ended, the variables and the answers used.
pub struct RunOut {
    pub lines: Seq<Seq<char>>,
    pub end: RunEndSpec,
    pub table: Map<Seq<char>, Seq<char>>,
    pub next: int,
}

/// The position of the first `(` at or after `c`, or the length of `prog` when there is none.
pub open spec fn first_open_from(prog: Seq<char>, c: int) -> int
    decreases prog.len() - c,
{
    if c < 0 || c >= prog.len() {
        prog.len() as int
    } else if prog[c] == '(' {
        c
    } else {
        first_open_from(prog, c + 1)
    }
}

/// The search for a `(` does not move backwards.
pub proof fn lemma_first_open_from(prog: Seq<char>, c: int)
    requires
        0 <= c,
    ensures
        c <= first_open_from(prog, c) <= prog.len() || (c > prog.len() && first_open_from(prog, c)
            == prog.len()),
    decreases prog.len() - c,
{
    if c < prog.len() && prog[c] != '(' {
        lemma_first_open_from(prog, c + 1);
    }
}

/// How a value is printed: `true` and `false` as `#t` and `#f`.
pub open spec fn shown(v: Seq<char>) -> Seq<char> {
    if trimmed(v) == "true"@ {
        "#t"@
    } else if trimmed(v) == "false"@ {
        "#f"@
    } else {
        v
    }
}

/// Runs the program from position `cursor`, having printed `lines` so far: each expression
/// in parentheses is evaluated and its value printed; an error is printed and ends the
/// run. When no `(` is left, the whole program, trimmed, is printed as a variable's value
/// if it is the name of one.
pub open spec fn run_from(
    prog: Seq<char>,
    cursor: int,
    table: Map<Seq<char>, Seq<char>>,
    answers: Seq<Seq<char>>,
    next: int,
    lines: Seq<Seq<char>>,
) -> RunOut
    decreases prog.len() - cursor,
{
    let p = first_open_from(prog, cursor);
    if cursor < 0 || p >= prog.len() {
        let tr = trimmed(prog);
        let printed = if table.contains_key(tr) {
            lines.push(table[tr])
        } else {
            lines
        };
        RunOut { lines: printed, end: RunEndSpec::Finished, table, next }
    } else {
        let ender = matching_close(prog, p);
        if ender + 1 < p {
            RunOut { lines, end: RunEndSpec::Aborted, table, next }
        } else {
            let r = eval_expr(prog.subrange(p, ender + 1), table, answers, next);
            match r.step {
                StepSpec::Float(op, a) => RunOut {
                    lines,
                    end: RunEndSpec::Float(op, a),
                    table: r.table,
                    next: r.next,
                },
                StepSpec::Abort => RunOut {
                    lines,
                    end: RunEndSpec::Aborted,
                    table: r.table,
                    next: r.next,
                },
                StepSpec::Done(Err(m)) => RunOut {
                    lines: lines.push("Error: "@ + m),
                    end: RunEndSpec::Finished,
                    table: r.table,
                    next: r.next,
                },
                StepSpec::Done(Ok(v)) => {
                    let printed = lines.push(shown(v));
                    if ender == 0 {
                        RunOut { lines: printed, end: RunEndSpec::Aborted, table: r.table, next: r.next }
                    } else if ender - 1 <= p {
                        RunOut {
                            lines: printed,
                            end: RunEndSpec::Forever(shown(v)),
                            table: r.table,
                            next: r.next,
                        }
                    } else {
                        proof {
                            lemma_first_open_from(prog, cursor);
                            lemma_close_search_range(prog, p, p);
                        }
                        run_from(prog, ender - 1, r.table, answers, r.next, printed)
                    }
                },
            }
        }
    }
}

/// What running the program `prog` prints, with the variables `table`, where the answers to
/// the floating-point requests are `answers`, in order.
pub open spec fn evaluate_program(
    prog: Seq<char>,
    table: Map<Seq<char>, Seq<char>>,
    answers: Seq<Seq<char>>,
) -> RunOut {
    if prog.len() == 0 {
        RunOut { lines: seq![], end: RunEndSpec::Finished, table, next: 0 }
    } else {
        run_from(prog, 0, table, answers, 0, seq![])
    }
}

proof fn lemma_replay_run(
    prog: Seq<char>,
    cursor: int,
    table: Map<Seq<char>, Seq<char>>,
    answers: Seq<Seq<char>>,
    extra: Seq<Seq<char>>,
    next: int,
    lines: Seq<Seq<char>>,
)
    requires
        0 <= next <= answers.len(),
    ensures
        ({
            let o = run_from(prog, cursor, table, answers, next, lines);
            &&& next <= o.next <= answers.len()
            &&& o.end is Float ==> o.next == answers.len()
            &&& !(o.end is Float) ==> run_from(prog, cursor, table, answers + extra, next, lines)
                == o
        }),
    decreases prog.len() - cursor,
{
    let p = first_open_from(prog, cursor);
    if cursor >= 0 && p < prog.len() {
        let ender = matching_close(prog, p);
        if ender + 1 >= p {
            let e = prog.subrange(p, ender + 1);
            lemma_replay_expr(e, table, answers, extra, next);
            let r = eval_expr(e, table, answers, next);
            if let StepSpec::Done(Ok(v)) = r.step {
                if ender != 0 && ender - 1 > p {
                    lemma_first_open_from(prog, cursor);
                    lemma_close_search_range(prog, p, p);
                    lemma_replay_run(
                        prog,
                        ender - 1,
                        r.table,
                        answers,
                        extra,
                        r.next,
                        lines.push(shown(v)),
                    );
                }
            }
        }
    }
}

/// Law: a program run uses the floating-point answers in order, never more than there are;
/// when it stops for a floating-point result it has used all of them; and when it does not,
/// answers added after them change nothing. So computing the result a run asks for,
/// appending it to the answers and running again takes the run further.
pub proof fn law_program_answers(
    prog: Seq<char>,
    table: Map<Seq<char>, Seq<char>>,
    answers: Seq<Seq<char>>,
    extra: Seq<Seq<char>>,
)
    ensures
        evaluate_program(prog, table, answers).next <= answers.len(),
        evaluate_program(prog, table, answers).end is Float ==> evaluate_program(
            prog,
            table,
            answers,
        ).next == answers.len(),
        !(evaluate_program(prog, table, answers).end is Float) ==> evaluate_program(
            prog,
            table,
            answers + extra,
        ) == evaluate_program(prog, table, answers),
{
    if prog.len() > 0 {
        lemma_replay_run(prog, 0, table, answers, extra, 0, seq![]);
    }
}

fn shown_text(v: String) -> (r: String)
    ensures
        r@ == shown(v@),
{
    let t = trim(v.as_str());
    if same(t.as_str(), "true") {
        String::from_str("#t")
    } else if same(t.as_str(), "false") {
        String::from_str("#f")
    } else {
        v
    }
}

/// Evaluates a whole program: the lines it prints and how it ends. The variables it defines
/// stay in `var_table`. `answers` are the floating-point results already computed, in the
/// order the program asks for them.
pub fn evaluate(prog: &String, var_table: &mut VarTable, answers: &Vec<String>) -> (r: Run)
    requires
        is_ascii_chars(prog@) || forall|p: int| 0 <= p < prog@.len() ==> prog@[p] != '(',
        forall|p: int| 0 <= p < prog@.len() && prog@[p] == '(' ==> counter_fits(prog@, p),
    ensures
        ({
            let out = evaluate_program(prog@, old(var_table)@, strings_view(answers@));
            &&& strings_view(r.lines@) == out.lines
            &&& r.end@ == out.end
            &&& final(var_table)@ == out.table
        }),
{
    let ghost tbl0 = var_table@;
    let ghost ans = strings_view(answers@);
    let end = prog.as_str().unicode_len();
    let mut lines: Vec<String> = Vec::new();
    let mut next: usize = 0;
    if end == 0 {
        return Run { lines, end: RunEnd::Finished };
    }
    let mut cursor: usize = 0;
    assert(strings_view(lines@) =~= seq![]);
    loop
        invariant
            end == prog@.len(),
            is_ascii_chars(prog@) || forall|p: int| 0 <= p < prog@.len() ==> prog@[p] != '(',
            forall|p: int| 0 <= p < prog@.len() && prog@[p] == '(' ==> counter_fits(prog@, p),
            cursor < end,
            next <= answers@.len(),
            ans == strings_view(answers@),
            tbl0 == old(var_table)@,
            run_from(prog@, cursor as int, var_table@, ans, next as int, strings_view(lines@))
                == evaluate_program(prog@, tbl0, ans),
        decreases end - cursor,
    {
        let ghost c0 = cursor as int;
        let ghost tbl = var_table@;
        let ghost next1 = next as int;
        let ghost lines0 = strings_view(lines@);
        // go up to the next opening parenthesis
        while cursor < end && prog.as_str().get_char(cursor) != '('
            invariant
                end == prog@.len(),
                c0 <= cursor,
                first_open_from(prog@, c0) == first_open_from(prog@, cursor as int),
            decreases end - cursor,
        {
            cursor += 1;
        }
        if cursor >= end {
            // no parenthesis left: the program may be the name of a variable
            let trimmed_prog = trim(prog.as_str());
            match var_table.get(trimmed_prog.as_str()) {
                Some(v) => {
                    lines.push(v.clone());
                    assert(strings_view(lines@) =~= lines0.push(v@));
                },
                None => {},
            }
            return Run { lines, end: RunEnd::Finished };
        }
        assert(first_open_from(prog@, cursor as int) == cursor);
        // find where the current expression ends
        let ender = find_matching_parenthesis(prog, cursor);
        if ender + 1 < cursor {
            return Run { lines, end: RunEnd::Aborted };
        }
        let expression = String::from_str(prog.as_str().substring_char(cursor, ender + 1));
        proof {
            let ev = expression@;
            assert forall|j: int| 0 <= j < ev.len() implies '\0' <= #[trigger] ev[j] <= '\u{7f}' by {
                assert(ev[j] == prog@[cursor + j]);
            }
        }
        let st = evaluate_expresion(&expression, var_table, answers, &mut next);
        match st {
            Step::Float(req) => {
                return Run { lines, end: RunEnd::Float(req) };
            },
            Step::Abort => {
                return Run { lines, end: RunEnd::Aborted };
            },
            Step::Done(Err(err)) => {
                let mut line = String::from_str("Error: ");
                line.append(err.as_str());
                lines.push(line);
                assert(strings_view(lines@) =~= lines0.push("Error: "@ + err@));
                return Run { lines, end: RunEnd::Finished };
            },
            Step::Done(Ok(res)) => {
                let line = shown_text(res);
                let ghost printed = line@;
                if ender == 0 {
                    lines.push(line);
                    assert(strings_view(lines@) =~= lines0.push(printed));
                    return Run { lines, end: RunEnd::Aborted };
                }
                if ender - 1 <= cursor {
                    let again = line.clone();
                    lines.push(line);
                    assert(strings_view(lines@) =~= lines0.push(printed));
                    return Run { lines, end: RunEnd::Forever(again) };
                }
                lines.push(line);
                assert(strings_view(lines@) =~= lines0.push(printed));
                // go to the next expression
                cursor = ender - 1;
            },
        }
    }
}

} // verus!
