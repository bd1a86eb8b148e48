//! What each operator computes, stated directly over its inputs and results.
//!
//! These laws say what the boolean operators, the comparisons and the arithmetic folds are
//! for, without going through the step functions that define them: which answers a chain of
//! comparisons or a fold uses, which operation it asks for next and on which operands, and
//! what it gives once every answer is there.

use vstd::prelude::*;

use crate::evaluation::{
    all_floats, arith_step, boolean_step, comparison_step, compare_answers, cond_step,
    fold_answers, FloatOp, StepSpec,
};
use crate::text::{is_bool_literal, is_float_literal};

verus! {

/// The names of the operators, told apart.
proof fn lemma_operator_names()
    ensures
        "and"@ != "or"@,
        "and"@ != "xor"@,
        "and"@ != "nand"@,
        "and"@ != "nor"@,
        "and"@ != "not"@,
        "or"@ != "xor"@,
        "or"@ != "nand"@,
        "or"@ != "nor"@,
        "or"@ != "not"@,
        "xor"@ != "nand"@,
        "xor"@ != "nor"@,
        "xor"@ != "not"@,
        "nand"@ != "not"@,
        "nor"@ != "not"@,
        "true"@ != "false"@,
        "+"@ != "-"@,
        "+"@ != "*"@,
        "+"@ != "/"@,
        "-"@ != "*"@,
        "-"@ != "/"@,
        "*"@ != "/"@,
        "="@ != ">"@,
        "="@ != "<"@,
        "="@ != "<="@,
        "="@ != ">="@,
        ">"@ != "<"@,
        ">"@ != "<="@,
        ">"@ != ">="@,
        "<"@ != "<="@,
        "<"@ != ">="@,
        "<="@ != ">="@,
{
    reveal_strlit("and");
    reveal_strlit("or");
    reveal_strlit("xor");
    reveal_strlit("nand");
    reveal_strlit("nor");
    reveal_strlit("not");
    reveal_strlit("true");
    reveal_strlit("false");
    reveal_strlit("+");
    reveal_strlit("-");
    reveal_strlit("*");
    reveal_strlit("/");
    reveal_strlit("=");
    reveal_strlit(">");
    reveal_strlit("<");
    reveal_strlit("<=");
    reveal_strlit(">=");
    assert("and"@[0] != "or"@[0]);
    assert("and"@[0] != "xor"@[0]);
    assert("and"@[0] != "nand"@[0]);
    assert("and"@[0] != "nor"@[0]);
    assert("and"@[0] != "not"@[0]);
    assert("or"@.len() != "xor"@.len());
    assert("or"@.len() != "nand"@.len());
    assert("or"@[0] != "nor"@[0]);
    assert("or"@[0] != "not"@[0]);
    assert("xor"@.len() != "nand"@.len());
    assert("xor"@[0] != "nor"@[0]);
    assert("xor"@[0] != "not"@[0]);
    assert("nand"@.len() != "not"@.len());
    assert("nor"@[2] != "not"@[2]);
    assert("true"@.len() != "false"@.len());
    assert("+"@[0] != "-"@[0]);
    assert("+"@[0] != "*"@[0]);
    assert("+"@[0] != "/"@[0]);
    assert("-"@[0] != "*"@[0]);
    assert("-"@[0] != "/"@[0]);
    assert("*"@[0] != "/"@[0]);
    assert("="@[0] != ">"@[0]);
    assert("="@[0] != "<"@[0]);
    assert("="@.len() != "<="@.len());
    assert("="@.len() != ">="@.len());
    assert(">"@[0] != "<"@[0]);
    assert(">"@.len() != "<="@.len());
    assert(">"@.len() != ">="@.len());
    assert("<"@.len() != "<="@.len());
    assert("<"@.len() != ">="@.len());
    assert("<="@[0] != ">="@[0]);
}

/// Law: `xor` of two booleans is `true` exactly when they differ; of two equal booleans it
/// is `false`.
pub proof fn law_xor_is_exclusive_or(a: Seq<char>, b: Seq<char>)
    requires
        is_bool_literal(a),
        is_bool_literal(b),
    ensures
        a == b ==> boolean_step("xor"@, seq![a, b]) == StepSpec::Done(Ok("false"@)),
        a != b ==> boolean_step("xor"@, seq![a, b]) == StepSpec::Done(Ok("true"@)),
{
    lemma_operator_names();
    let args = seq![a, b];
    assert(args[0] == a && args[1] == b);
}

/// Law: `not` of a boolean is the other boolean.
pub proof fn law_not_negates(a: Seq<char>)
    requires
        is_bool_literal(a),
    ensures
        a == "true"@ ==> boolean_step("not"@, seq![a]) == StepSpec::Done(Ok("false"@)),
        a == "false"@ ==> boolean_step("not"@, seq![a]) == StepSpec::Done(Ok("true"@)),
{
    lemma_operator_names();
    let args = seq![a];
    assert(args[0] == a);
}

/// Law: on one or more booleans, `and` is `true` when every one is `true` and `false` when
/// one is `false`; `or` is `true` when one is `true` and `false` when every one is `false`;
/// `nand` and `nor` each give the other boolean than `and`.
pub proof fn law_and_or_nand(args: Seq<Seq<char>>)
    requires
        args.len() >= 1,
        forall|i: int| 0 <= i < args.len() ==> is_bool_literal(#[trigger] args[i]),
    ensures
        (forall|i: int| 0 <= i < args.len() ==> #[trigger] args[i] == "true"@) ==> boolean_step(
            "and"@,
            args,
        ) == StepSpec::Done(Ok("true"@)),
        (exists|i: int| 0 <= i < args.len() && #[trigger] args[i] == "false"@) ==> boolean_step(
            "and"@,
            args,
        ) == StepSpec::Done(Ok("false"@)),
        (exists|i: int| 0 <= i < args.len() && #[trigger] args[i] == "true"@) ==> boolean_step(
            "or"@,
            args,
        ) == StepSpec::Done(Ok("true"@)),
        (forall|i: int| 0 <= i < args.len() ==> #[trigger] args[i] == "false"@) ==> boolean_step(
            "or"@,
            args,
        ) == StepSpec::Done(Ok("false"@)),
        boolean_step("and"@, args) == StepSpec::Done(Ok("true"@)) <==> boolean_step("nand"@, args)
            == StepSpec::Done(Ok("false"@)),
        boolean_step("and"@, args) == StepSpec::Done(Ok("false"@)) <==> boolean_step("nand"@, args)
            == StepSpec::Done(Ok("true"@)),
        boolean_step("nor"@, args) == boolean_step("nand"@, args),
{
    lemma_operator_names();
    if forall|i: int| 0 <= i < args.len() ==> #[trigger] args[i] == "false"@ {
        assert(args[0] == "false"@);
        assert(args[0] != "true"@);
    }
}

/// The chain of comparisons from the `i`-th argument on: with enough answers it uses one
/// per neighbouring pair and holds when every one is `true`; otherwise it asks for the pair
/// its answers run out on.
proof fn lemma_compare_chain(
    f: FloatOp,
    args: Seq<Seq<char>>,
    i: int,
    holds: bool,
    answers: Seq<Seq<char>>,
    next: int,
)
    requires
        1 <= i <= args.len(),
        0 <= next <= answers.len(),
    ensures
        ({
            let o = compare_answers(f, args, i, holds, answers, next);
            let n = args.len() - i;
            &&& next + n <= answers.len() ==> {
                &&& o.next == next + n
                &&& o.step == StepSpec::Done(
                    Ok(
                        if holds && forall|j: int|
                            0 <= j < n ==> #[trigger] answers[next + j] == "true"@ {
                            "true"@
                        } else {
                            "false"@
                        },
                    ),
                )
            }
            &&& next + n > answers.len() ==> {
                let k = i + answers.len() - next;
                &&& o.next == answers.len()
                &&& o.step == StepSpec::Float(f, seq![args[k - 1], args[k]])
            }
        }),
    decreases args.len() - i,
{
    if i < args.len() && next < answers.len() {
        let h2 = holds && answers[next] == "true"@;
        lemma_compare_chain(f, args, i + 1, h2, answers, next + 1);
        let n = args.len() - i;
        if next + n <= answers.len() {
            let all = forall|j: int| 0 <= j < n ==> #[trigger] answers[next + j] == "true"@;
            let rest = forall|j: int| 0 <= j < n - 1 ==> #[trigger] answers[next + 1 + j] == "true"@;
            if all {
                assert forall|j: int| 0 <= j < n - 1 implies #[trigger] answers[next + 1 + j] == "true"@ by {
                    assert(answers[next + (j + 1)] == "true"@);
                }
                assert(answers[next + 0] == "true"@);
            }
            if answers[next] == "true"@ && rest {
                assert forall|j: int| 0 <= j < n implies #[trigger] answers[next + j] == "true"@ by {
                    if j > 0 {
                        assert(answers[next + 1 + (j - 1)] == "true"@);
                    }
                }
            }
            assert((holds && all) == (h2 && rest));
        }
    }
}

/// Law: a numeric comparison over numbers compares each argument with the next, in order,
/// asking for the comparison the operator names (`=` equality, `>`, `<`, `<=`, `>=`). With
/// an answer for every neighbouring pair it uses exactly one per pair and gives `true`
/// when every answer is `true`, else `false`; when the answers run out it asks for the pair
/// they ran out on.
pub proof fn law_comparison_chain(
    op: Seq<char>,
    args: Seq<Seq<char>>,
    answers: Seq<Seq<char>>,
    next: int,
)
    requires
        op == "="@ || op == ">"@ || op == "<"@ || op == "<="@ || op == ">="@,
        all_floats(args),
        0 <= next <= answers.len(),
    ensures
        ({
            let o = comparison_step(op, args, answers, next);
            let n = if args.len() == 0 { 0 } else { args.len() - 1 };
            let f = if op == "="@ {
                FloatOp::Eq
            } else if op == ">"@ {
                FloatOp::Gt
            } else if op == "<"@ {
                FloatOp::Lt
            } else if op == "<="@ {
                FloatOp::Le
            } else {
                FloatOp::Ge
            };
            &&& next + n <= answers.len() ==> {
                &&& o.next == next + n
                &&& o.step == StepSpec::Done(
                    Ok(
                        if forall|j: int| 0 <= j < n ==> #[trigger] answers[next + j] == "true"@ {
                            "true"@
                        } else {
                            "false"@
                        },
                    ),
                )
            }
            &&& next + n > answers.len() ==> {
                let k = 1 + answers.len() - next;
                &&& o.next == answers.len()
                &&& o.step == StepSpec::Float(f, seq![args[k - 1], args[k]])
            }
        }),
{
    lemma_operator_names();
    let f = crate::evaluation::compare_op(op);
    if args.len() >= 1 {
        lemma_compare_chain(f, args, 1, true, answers, next);
    }
}

/// A fold from the `i`-th argument on, with `acc` so far: with enough answers it uses one
/// per remaining argument and gives the last; otherwise it asks for the argument its
/// answers run out on, combined with the last answer (or `acc` when it used none).
proof fn lemma_fold_chain(
    f: FloatOp,
    acc: Seq<char>,
    args: Seq<Seq<char>>,
    i: int,
    answers: Seq<Seq<char>>,
    next: int,
)
    requires
        1 <= i <= args.len(),
        0 <= next <= answers.len(),
    ensures
        ({
            let o = fold_answers(f, acc, args, i, answers, next);
            let n = args.len() - i;
            &&& next + n <= answers.len() ==> {
                &&& o.next == next + n
                &&& o.step == StepSpec::Done(Ok(if n == 0 { acc } else { answers[next + n - 1] }))
            }
            &&& next + n > answers.len() ==> {
                let k = i + answers.len() - next;
                &&& o.next == answers.len()
                &&& o.step == StepSpec::Float(
                    f,
                    seq![if answers.len() == next { acc } else { answers[answers.len() - 1] }, args[k]],
                )
            }
        }),
    decreases args.len() - i,
{
    if i < args.len() && next < answers.len() {
        lemma_fold_chain(f, answers[next], args, i + 1, answers, next + 1);
    }
}

/// Law: `+`, `-`, `*` and `/` on two or more numbers fold every argument, left to right,
/// with the operation they name: the first request combines the first two arguments, and
/// each later one combines the previous answer with the next argument. With an answer for
/// every argument after the first, exactly that many are used and the last is the result.
/// On one number, `-` asks for its negation and the others for the number itself.
pub proof fn law_arithmetic_fold(
    op: Seq<char>,
    args: Seq<Seq<char>>,
    answers: Seq<Seq<char>>,
    next: int,
)
    requires
        op == "+"@ || op == "-"@ || op == "*"@ || op == "/"@,
        all_floats(args),
        args.len() >= 1,
        0 <= next <= answers.len(),
    ensures
        ({
            let o = arith_step(op, args, answers, next);
            let n = args.len() - 1;
            let f = if op == "+"@ {
                FloatOp::Add
            } else if op == "-"@ {
                FloatOp::Sub
            } else if op == "*"@ {
                FloatOp::Mul
            } else {
                FloatOp::Div
            };
            &&& n >= 1 && next + n <= answers.len() ==> {
                &&& o.next == next + n
                &&& o.step == StepSpec::Done(Ok(answers[next + n - 1]))
            }
            &&& n >= 1 && next + n > answers.len() ==> {
                let k = 1 + answers.len() - next;
                &&& o.next == answers.len()
                &&& o.step == StepSpec::Float(
                    f,
                    seq![if answers.len() == next { args[0] } else { answers[answers.len() - 1] }, args[k]],
                )
            }
            &&& n == 0 && next < answers.len() ==> {
                &&& o.next == next + 1
                &&& o.step == StepSpec::Done(Ok(answers[next]))
            }
            &&& n == 0 && next == answers.len() ==> {
                &&& o.next == next
                &&& o.step == StepSpec::Float(
                    if op == "-"@ { FloatOp::Neg } else { FloatOp::Value },
                    args,
                )
            }
        }),
{
    lemma_operator_names();
    if args.len() >= 2 {
        lemma_fold_chain(crate::evaluation::fold_op(op), args[0], args, 1, answers, next);
    }
}

/// Law: a boolean operator on an argument that is not a boolean gives the error that says
/// so; `xor` on other than two booleans, and `not` on other than one, give their arity
/// errors.
pub proof fn law_boolean_operands(op: Seq<char>, args: Seq<Seq<char>>)
    requires
        op == "and"@ || op == "or"@ || op == "xor"@ || op == "nand"@ || op == "nor"@ || op
            == "not"@,
    ensures
        (exists|i: int| 0 <= i < args.len() && !is_bool_literal(#[trigger] args[i]))
            ==> boolean_step(op, args) == StepSpec::Done(
            Err("At least one arg is not a boolean"@),
        ),
        (forall|i: int| 0 <= i < args.len() ==> is_bool_literal(#[trigger] args[i])) && op
            == "xor"@ && args.len() != 2 ==> boolean_step(op, args) == StepSpec::Done(
            Err("XOR only takes two arguments"@),
        ),
        (forall|i: int| 0 <= i < args.len() ==> is_bool_literal(#[trigger] args[i])) && op
            == "not"@ && args.len() != 1 ==> boolean_step(op, args) == StepSpec::Done(
            Err("NOT only takes one argument"@),
        ),
{
    lemma_operator_names();
}

/// Law: an arithmetic operator or a comparison on an argument that is not a number gives
/// the error that says so and uses no answer. `modulo` on two numbers asks for the
/// remainder of the first by the second, and `sqrt` on one number for its square root
/// (or each takes the next answer); on other counts of numbers they give their arity
/// errors.
pub proof fn law_numeric_operands(
    op: Seq<char>,
    args: Seq<Seq<char>>,
    answers: Seq<Seq<char>>,
    next: int,
)
    requires
        0 <= next <= answers.len(),
    ensures
        (exists|i: int| 0 <= i < args.len() && !is_float_literal(#[trigger] args[i])) ==> {
            &&& arith_step(op, args, answers, next).step == StepSpec::Done(
                Err("At least one arg is not a number"@),
            )
            &&& arith_step(op, args, answers, next).next == next
            &&& comparison_step(op, args, answers, next).step == StepSpec::Done(
                Err("At least one arg is not a number"@),
            )
            &&& comparison_step(op, args, answers, next).next == next
        },
        all_floats(args) && op == "modulo"@ ==> {
            let o = arith_step(op, args, answers, next);
            &&& args.len() != 2 ==> o.step == StepSpec::Done(
                Err("Modulo only takes two arguments"@),
            ) && o.next == next
            &&& args.len() == 2 && next == answers.len() ==> o.step == StepSpec::Float(
                FloatOp::Rem,
                seq![args[0], args[1]],
            ) && o.next == next
            &&& args.len() == 2 && next < answers.len() ==> o.step == StepSpec::Done(
                Ok(answers[next]),
            ) && o.next == next + 1
        },
        all_floats(args) && op == "sqrt"@ ==> {
            let o = arith_step(op, args, answers, next);
            &&& args.len() != 1 ==> o.step == StepSpec::Done(Err("Sqrt only takes one argument"@))
                && o.next == next
            &&& args.len() == 1 && next == answers.len() ==> o.step == StepSpec::Float(
                FloatOp::Sqrt,
                seq![args[0]],
            ) && o.next == next
            &&& args.len() == 1 && next < answers.len() ==> o.step == StepSpec::Done(
                Ok(answers[next]),
            ) && o.next == next + 1
        },
{
    reveal_strlit("modulo");
    reveal_strlit("sqrt");
    reveal_strlit("+");
    reveal_strlit("-");
    reveal_strlit("*");
    reveal_strlit("/");
    assert("modulo"@.len() != "+"@.len());
    assert("modulo"@.len() != "-"@.len());
    assert("modulo"@.len() != "*"@.len());
    assert("modulo"@.len() != "/"@.len());
    assert("sqrt"@.len() != "+"@.len());
    assert("sqrt"@.len() != "-"@.len());
    assert("sqrt"@.len() != "*"@.len());
    assert("sqrt"@.len() != "/"@.len());
    assert("sqrt"@.len() != "modulo"@.len());
    if args.len() == 2 {
        assert(args =~= seq![args[0], args[1]]);
    }
    if args.len() == 1 {
        assert(args =~= seq![args[0]]);
    }
}

/// Law: `if` on a condition that is neither `true` nor `false` gives the error that says
/// so, and `cond` gives the error that it is not implemented.
pub proof fn law_conditional_errors(args: Seq<Seq<char>>)
    ensures
        args.len() >= 1 && args[0] != "true"@ && args[0] != "false"@ ==> cond_step("if"@, args)
            == StepSpec::Done(Err("Conditional condition doesn't evaluate to a boolean"@)),
        cond_step("cond"@, args) == StepSpec::Done(Err("Not implemented"@)),
{
    reveal_strlit("if");
    reveal_strlit("cond");
    assert("if"@.len() != "cond"@.len());
}

/// Law: `and`, `or`, `nand`, `nor`, `+`, `-`, `*` and `/` with no argument stop the
/// interpreter, as does `if` without the branch its condition picks.
pub proof fn law_missing_operands_abort(op: Seq<char>, args: Seq<Seq<char>>, answers: Seq<Seq<char>>, next: int)
    ensures
        (op == "and"@ || op == "or"@ || op == "nand"@ || op == "nor"@) && args.len() == 0
            ==> boolean_step(op, args) == StepSpec::Abort,
        (op == "+"@ || op == "-"@ || op == "*"@ || op == "/"@) && args.len() == 0 ==> arith_step(
            op,
            args,
            answers,
            next,
        ).step == StepSpec::Abort,
        args.len() == 0 ==> cond_step("if"@, args) == StepSpec::Abort,
        args.len() >= 1 && args[0] == "true"@ && args.len() < 2 ==> cond_step("if"@, args)
            == StepSpec::Abort,
        args.len() >= 1 && args[0] == "false"@ && args.len() < 3 ==> cond_step("if"@, args)
            == StepSpec::Abort,
{
    lemma_operator_names();
    assert(all_floats(args) || args.len() > 0);
}

} // verus!
