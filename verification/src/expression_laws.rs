//! How an expression whose arguments are literals is evaluated: the operator is applied to
//! every one of its arguments, in the order they are written.

use vstd::prelude::*;

use crate::evaluation::{
    apply_args, define_step, dispatch, eval_args_upto, eval_expr, first_space, skip_separators, ArgsOut,
    EvalOut, StepSpec,
};
use crate::parsing::{
    balance, balanced, paren_pairs, scan_parens, split_args, split_upto, Split,
};
use crate::text::{
    is_blank, is_bool_literal, is_float_literal, is_mantissa, is_separator, trim_end_spec,
    trim_start_spec, trimmed, unsigned_part,
};

verus! {

/// A word with no blank and no parenthesis in it.
pub open spec fn plain_atom(a: Seq<char>) -> bool {
    &&& a.len() > 0
    &&& forall|i: int|
        0 <= i < a.len() ==> !is_blank(#[trigger] a[i]) && a[i] != '(' && a[i] != ')'
}

/// The arguments written one after another, each after a single space.
pub open spec fn spaced(args: Seq<Seq<char>>) -> Seq<char>
    decreases args.len(),
{
    if args.len() == 0 {
        seq![]
    } else {
        spaced(args.drop_last()) + seq![' '] + args.last()
    }
}

/// The expression `(op arg arg ...)` with single spaces between its words.
pub open spec fn flat_expression(op: Seq<char>, args: Seq<Seq<char>>) -> Seq<char> {
    seq!['('] + op + spaced(args) + seq![')']
}

/// A word with no blank at either end is its own trimming.
proof fn lemma_plain_trimmed(a: Seq<char>)
    requires
        a.len() > 0,
        !is_blank(a[0]),
        !is_blank(a.last()),
    ensures
        trimmed(a) == a,
{
    assert(trim_start_spec(a) == a);
    assert(trim_end_spec(a) == a);
}

/// `spaced` of the first `i` arguments is a prefix of `spaced` of them all.
proof fn lemma_spaced_prefix(args: Seq<Seq<char>>, i: int)
    requires
        0 <= i <= args.len(),
    ensures
        spaced(args.take(i)).len() <= spaced(args).len(),
        forall|t: int|
            0 <= t < spaced(args.take(i)).len() ==> #[trigger] spaced(args)[t] == spaced(
                args.take(i),
            )[t],
    decreases args.len(),
{
    if i == args.len() {
        assert(args.take(i) =~= args);
    } else {
        let d = args.drop_last();
        assert(args.take(i) =~= d.take(i));
        lemma_spaced_prefix(d, i);
    }
}

/// `spaced` of the first `i + 1` arguments adds a space and the `i`-th argument.
proof fn lemma_spaced_step(args: Seq<Seq<char>>, i: int)
    requires
        0 <= i < args.len(),
    ensures
        spaced(args.take(i + 1)) == spaced(args.take(i)) + seq![' '] + args[i],
{
    let t = args.take(i + 1);
    assert(t.drop_last() =~= args.take(i));
    assert(t.last() == args[i]);
}

/// Where the `i`-th space of `op + spaced(args)` stands.
pub open spec fn space_at(op: Seq<char>, args: Seq<Seq<char>>, i: int) -> int {
    (op.len() + spaced(args.take(i)).len()) as int
}

/// The characters of `op + spaced(args)` around the `i`-th argument.
proof fn lemma_flat_chars(op: Seq<char>, args: Seq<Seq<char>>, i: int)
    requires
        0 <= i < args.len(),
    ensures
        ({
            let s = op + spaced(args);
            let p = space_at(op, args, i);
            &&& space_at(op, args, i + 1) == p + 1 + args[i].len()
            &&& space_at(op, args, i + 1) <= s.len()
            &&& s[p] == ' '
            &&& forall|t: int| 0 <= t < args[i].len() ==> #[trigger] s[p + 1 + t] == args[i][t]
        }),
{
    lemma_spaced_step(args, i);
    lemma_spaced_prefix(args, i + 1);
    let s = op + spaced(args);
    let sp = spaced(args.take(i));
    let sp1 = spaced(args.take(i + 1));
    assert(sp1[sp.len() as int] == ' ');
    assert(spaced(args)[sp.len() as int] == sp1[sp.len() as int]);
    assert forall|t: int| 0 <= t < args[i].len() implies #[trigger] s[space_at(op, args, i) + 1
        + t] == args[i][t] by {
        assert(sp1[sp.len() + 1 + t] == args[i][t]);
        assert(spaced(args)[sp.len() + 1 + t] == sp1[sp.len() + 1 + t]);
    }
}

/// A text without parentheses has no matched pairs and is balanced.
proof fn lemma_no_parens(s: Seq<char>, k: int)
    requires
        0 <= k <= s.len(),
        forall|i: int| 0 <= i < s.len() ==> #[trigger] s[i] != '(' && s[i] != ')',
    ensures
        scan_parens(s, k).pairs == Seq::<(int, int)>::empty(),
        balance(s, 0, k) == 0,
    decreases k,
{
    if k > 0 {
        lemma_no_parens(s, k - 1);
    }
}

/// Where no split point lies, the split does not change.
proof fn lemma_split_steady(s: Seq<char>, lo: int, hi: int)
    requires
        1 <= lo <= hi <= s.len(),
        forall|p: int| lo <= p < hi ==> !is_separator(#[trigger] s[p]),
    ensures
        split_upto(s, Seq::<(int, int)>::empty(), hi) == split_upto(
            s,
            Seq::<(int, int)>::empty(),
            lo,
        ),
    decreases hi - lo,
{
    if hi > lo {
        lemma_split_steady(s, lo, hi - 1);
        assert(!is_separator(s[hi - 1]));
    }
}

/// The state of the split of `op + spaced(args)` once the `i`-th argument has been read.
pub open spec fn split_after(op: Seq<char>, args: Seq<Seq<char>>, i: int) -> Split {
    if i <= 1 {
        Split { begin: op.len() as int, args: seq![] }
    } else {
        Split { begin: space_at(op, args, i - 1) + 1, args: args.take(i - 1) }
    }
}

proof fn lemma_split_flat(op: Seq<char>, args: Seq<Seq<char>>, i: int)
    requires
        plain_atom(op),
        forall|j: int| 0 <= j < args.len() ==> plain_atom(#[trigger] args[j]),
        1 <= i <= args.len(),
    ensures
        split_upto(op + spaced(args), Seq::<(int, int)>::empty(), space_at(op, args, i))
            == split_after(op, args, i),
    decreases i,
{
    let s = op + spaced(args);
    let e = Seq::<(int, int)>::empty();
    lemma_flat_chars(op, args, i - 1);
    let p = space_at(op, args, i - 1);
    let a = args[i - 1];
    assert(plain_atom(a));
    assert forall|q: int| p + 1 <= q < p + 1 + a.len() implies !is_separator(#[trigger] s[q]) by {
        assert(s[p + 1 + (q - p - 1)] == a[q - p - 1]);
        assert(!is_blank(a[q - p - 1]));
    }
    if i == 1 {
        assert(args.take(0) =~= Seq::<Seq<char>>::empty());
        assert(p == op.len());
        assert forall|q: int| 1 <= q < op.len() implies !is_separator(#[trigger] s[q]) by {
            assert(s[q] == op[q]);
            assert(!is_blank(op[q]));
        }
        lemma_split_steady(s, 1, op.len() as int);
        assert(split_upto(s, e, p + 1) == (Split { begin: p, args: seq![] }));
    } else {
        lemma_split_flat(op, args, i - 1);
        let prev = split_upto(s, e, p);
        lemma_flat_chars(op, args, i - 2);
        assert(crate::parsing::is_split_point(s, e, p));
        assert(prev.begin != 0);
        let first = space_at(op, args, i - 2) + 1;
        if i == 2 {
            assert(spaced(args.take(0)) =~= Seq::<char>::empty()) by {
                assert(args.take(0) =~= Seq::<Seq<char>>::empty());
            }
            assert(prev.args =~= args.take(0));
            assert(crate::parsing::arg_start(prev) == first);
        } else {
            assert(prev.args.len() == i - 2);
            assert(crate::parsing::arg_start(prev) == first);
        }
        assert(p > prev.begin);
        let piece = s.subrange(first, p);
        assert(piece =~= args[i - 2]) by {
            let b = args[i - 2];
            let q0 = space_at(op, args, i - 2);
            assert forall|t: int| 0 <= t < b.len() implies piece[t] == b[t] by {
                assert(s[q0 + 1 + t] == b[t]);
            }
        }
        assert(prev.args.push(args[i - 2]) =~= args.take(i - 1));
        assert(split_upto(s, e, p + 1) == split_after(op, args, i));
    }
    lemma_split_steady(s, p + 1, p + 1 + a.len());
}

/// The arguments of `op + spaced(args)` are `args`.
proof fn lemma_split_args_flat(op: Seq<char>, args: Seq<Seq<char>>)
    requires
        plain_atom(op),
        args.len() >= 1,
        forall|j: int| 0 <= j < args.len() ==> plain_atom(#[trigger] args[j]),
    ensures
        split_args(op + spaced(args)) == args,
{
    let s = op + spaced(args);
    let n = args.len() as int;
    assert forall|i: int| 0 <= i < s.len() implies #[trigger] s[i] != '(' && s[i] != ')' by {
        if i < op.len() {
            assert(s[i] == op[i]);
        } else {
            lemma_flat_chars(op, args, 0);
            assert(s[i] == spaced(args)[i - op.len()]);
            lemma_spaced_chars(args, i - op.len());
        }
    }
    lemma_no_parens(s, s.len() as int);
    assert(paren_pairs(s) == Seq::<(int, int)>::empty());
    lemma_split_flat(op, args, n);
    lemma_flat_chars(op, args, n - 1);
    assert(args.take(n) =~= args);
    assert(space_at(op, args, n) == s.len());
    let sp = split_after(op, args, n);
    let last = s.subrange(if n == 1 { op.len() + 1int } else { sp.begin }, s.len() as int);
    assert(last =~= args[n - 1]) by {
        let q0 = space_at(op, args, n - 1);
        assert forall|t: int| 0 <= t < args[n - 1].len() implies last[t] == args[n - 1][t] by {
            assert(s[q0 + 1 + t] == args[n - 1][t]);
        }
    }
    assert(args.take(n - 1).push(args[n - 1]) =~= args);
}

/// Every character of `spaced(args)` is a space or a character of an argument.
proof fn lemma_spaced_chars(args: Seq<Seq<char>>, t: int)
    requires
        0 <= t < spaced(args).len(),
        forall|j: int| 0 <= j < args.len() ==> plain_atom(#[trigger] args[j]),
    ensures
        spaced(args)[t] != '(' && spaced(args)[t] != ')',
    decreases args.len(),
{
    let d = args.drop_last();
    assert forall|j: int| 0 <= j < d.len() implies plain_atom(#[trigger] d[j]) by {
        assert(d[j] == args[j]);
    }
    let a = args.last();
    assert(plain_atom(args[args.len() - 1]));
    let l = spaced(d).len();
    if t < l {
        lemma_spaced_chars(d, t);
    } else if t > l {
        assert(spaced(args)[t] == a[t - l - 1]);
    }
}

/// Each argument is shorter than the arguments written out.
proof fn lemma_spaced_len(args: Seq<Seq<char>>, j: int)
    requires
        0 <= j < args.len(),
    ensures
        args[j].len() < spaced(args).len(),
{
    lemma_spaced_step(args, j);
    lemma_spaced_prefix(args, j + 1);
}

/// Literal arguments evaluate to themselves, changing nothing.
proof fn lemma_literal_args(
    args: Seq<Seq<char>>,
    i: int,
    bound: int,
    table: Map<Seq<char>, Seq<char>>,
    answers: Seq<Seq<char>>,
    next: int,
)
    requires
        0 <= i <= args.len(),
        forall|j: int|
            0 <= j < args.len() ==> plain_atom(#[trigger] args[j]) && (is_float_literal(args[j])
                || is_bool_literal(args[j])),
        forall|j: int| 0 <= j < args.len() ==> #[trigger] args[j].len() < bound,
    ensures
        eval_args_upto(args, i, bound, table, answers, next) == (ArgsOut {
            stopped: None,
            values: args.take(i),
            table,
            next,
        }),
    decreases i,
{
    if i > 0 {
        lemma_literal_args(args, i - 1, bound, table, answers, next);
        let a = args[i - 1];
        assert(plain_atom(a));
        assert(a.len() < bound);
        assert(!is_blank(a[0]));
        assert(!is_blank(a[a.len() - 1]));
        lemma_plain_trimmed(a);
        crate::evaluation::law_literal_evaluates_to_itself(a, table, answers, next);
        assert(args.take(i - 1).push(a) =~= args.take(i));
    } else {
        assert(args.take(0) =~= Seq::<Seq<char>>::empty());
    }
}

/// The text of an expression in parentheses is neither a literal nor `#t` or `#f`.
proof fn lemma_parenthesised_not_literal(e: Seq<char>)
    requires
        e.len() >= 2,
        e[0] == '(',
    ensures
        !is_float_literal(e),
        !is_bool_literal(e),
        e != "#t"@,
        e != "#f"@,
{
    reveal_strlit("#t");
    reveal_strlit("#f");
    reveal_strlit("true");
    reveal_strlit("false");
    reveal_strlit("inf");
    reveal_strlit("INF");
    reveal_strlit("infinity");
    reveal_strlit("INFINITY");
    reveal_strlit("nan");
    reveal_strlit("NAN");
    assert(unsigned_part(e) == e);
    assert forall|i: int| 0 <= i <= e.len() implies !#[trigger] is_mantissa(e.subrange(0, i)) by {
        let m = e.subrange(0, i);
        if i > 0 {
            assert(m[0] == '(');
        } else {
            assert(m.len() == 0);
        }
    }
    assert(e != "true"@ && e != "false"@) by {
        assert("true"@[0] != '(');
        assert("false"@[0] != '(');
    }
    assert("#t"@[0] != '(');
    assert("#f"@[0] != '(');
}

/// Where the first space of a text stands, when none comes before it.
proof fn lemma_first_space_at(s: Seq<char>, i: int, d: int)
    requires
        0 <= i <= d < s.len(),
        s[d] == ' ',
        forall|j: int| i <= j < d ==> #[trigger] s[j] != ' ',
    ensures
        first_space(s, i) == d,
    decreases d - i,
{
    if i < d {
        lemma_first_space_at(s, i + 1, d);
    }
}

/// Law: an expression `(op arg ... arg)` whose arguments are numbers or booleans, written
/// with single spaces, applies its operator to every argument, in the order written: its
/// evaluation is the operator's on the whole list of arguments, and changes no variable.
/// (`define` is not applied this way, and a variable named by the whole text is read
/// instead.)
pub proof fn law_operator_applies_to_every_argument(
    op: Seq<char>,
    args: Seq<Seq<char>>,
    table: Map<Seq<char>, Seq<char>>,
    answers: Seq<Seq<char>>,
    next: int,
)
    requires
        plain_atom(op),
        op != "define"@,
        args.len() >= 1,
        forall|j: int|
            0 <= j < args.len() ==> plain_atom(#[trigger] args[j]) && (is_float_literal(args[j])
                || is_bool_literal(args[j])),
        !table.contains_key(flat_expression(op, args)),
    ensures
        ({
            let d = dispatch(op, args, answers, next);
            eval_expr(flat_expression(op, args), table, answers, next) == (EvalOut {
                step: d.step,
                table,
                next: d.next,
            })
        }),
{
    let e = flat_expression(op, args);
    let s = op + spaced(args);
    assert(e.len() == s.len() + 2);
    assert(e[0] == '(');
    assert(e.last() == ')');
    reveal_strlit("(");
    lemma_plain_trimmed(e);
    lemma_parenthesised_not_literal(e);
    assert(e[1] == op[0]);
    assert(!is_blank(op[0]));
    assert(skip_separators(e, 1) == 1);
    let inner = e.subrange(1, e.len() - 1);
    assert(inner =~= s);
    lemma_flat_chars(op, args, 0);
    assert(args.take(0) =~= Seq::<Seq<char>>::empty());
    assert forall|j: int| 0 <= j < op.len() implies #[trigger] s[j] != ' ' by {
        assert(s[j] == op[j]);
        assert(!is_blank(op[j]));
    }
    lemma_first_space_at(s, 0, op.len() as int);
    assert(s.subrange(0, op.len() as int) =~= op);
    lemma_split_args_flat(op, args);
    assert forall|i: int| 0 <= i < s.len() implies #[trigger] s[i] != '(' && s[i] != ')' by {
        if i < op.len() {
            assert(s[i] == op[i]);
        } else {
            assert(s[i] == spaced(args)[i - op.len()]);
            lemma_spaced_chars(args, i - op.len());
        }
    }
    assert forall|k: int| 0 <= k <= s.len() implies #[trigger] balance(s, 0, k) >= 0 by {
        lemma_no_parens(s, k);
    }
    lemma_no_parens(s, s.len() as int);
    assert(balanced(s));
    let bound = s.len() + 1int;
    assert forall|j: int| 0 <= j < args.len() implies #[trigger] args[j].len() < bound by {
        lemma_spaced_len(args, j);
    }
    lemma_literal_args(args, args.len() as int, bound, table, answers, next);
    assert(args.take(args.len() as int) =~= args);
}

/// Law: `(if c x y)`, with `c` a boolean and `x`, `y` numbers or booleans, evaluates to `x`
/// when `c` is `true` and to `y` when `c` is `false`, and changes no variable and uses no
/// answer.
pub proof fn law_if_picks_branch(
    c: Seq<char>,
    x: Seq<char>,
    y: Seq<char>,
    table: Map<Seq<char>, Seq<char>>,
    answers: Seq<Seq<char>>,
    next: int,
)
    requires
        is_bool_literal(c),
        plain_atom(x),
        plain_atom(y),
        is_float_literal(x) || is_bool_literal(x),
        is_float_literal(y) || is_bool_literal(y),
        !table.contains_key("(if "@ + c + " "@ + x + " "@ + y + ")"@),
    ensures
        ({
            let o = eval_expr("(if "@ + c + " "@ + x + " "@ + y + ")"@, table, answers, next);
            &&& c == "true"@ ==> o == (EvalOut { step: StepSpec::Done(Ok(x)), table, next })
            &&& c == "false"@ ==> o == (EvalOut { step: StepSpec::Done(Ok(y)), table, next })
        }),
{
    reveal_strlit("(if ");
    reveal_strlit(" ");
    reveal_strlit(")");
    reveal_strlit("if");
    reveal_strlit("true");
    reveal_strlit("false");
    reveal_strlit("define");
    let op = "if"@;
    let args = seq![c, x, y];
    assert(plain_atom(c)) by {
        assert forall|i: int| 0 <= i < c.len() implies !is_blank(#[trigger] c[i]) && c[i] != '('
            && c[i] != ')' by {
            if c == "true"@ {
                assert(c[i] == "true"@[i]);
            } else {
                assert(c[i] == "false"@[i]);
            }
        }
    }
    assert(plain_atom(op));
    assert(op != "define"@) by {
        assert(op.len() != "define"@.len());
    }
    assert(args[0] == c && args[1] == x && args[2] == y);
    let a1 = seq![c];
    let a2 = seq![c, x];
    assert(a1.drop_last() =~= Seq::<Seq<char>>::empty());
    assert(a1.last() == c);
    assert(spaced(Seq::<Seq<char>>::empty()) =~= Seq::<char>::empty());
    assert(spaced(a1) =~= seq![' '] + c);
    assert(a2.drop_last() =~= a1);
    assert(a2.last() == x);
    assert(spaced(a2) =~= seq![' '] + c + seq![' '] + x);
    assert(args.drop_last() =~= a2);
    assert(args.last() == y);
    assert(spaced(args) =~= seq![' '] + c + seq![' '] + x + seq![' '] + y);
    assert(flat_expression(op, args) =~= "(if "@ + c + " "@ + x + " "@ + y + ")"@);
    law_operator_applies_to_every_argument(op, args, table, answers, next);
    assert(!crate::evaluation::is_arith_op(op)) by {
        reveal_strlit("*");
        reveal_strlit("+");
        reveal_strlit("-");
        reveal_strlit("/");
        reveal_strlit("modulo");
        reveal_strlit("sqrt");
    }
    assert(!crate::evaluation::is_boolean_op(op)) by {
        reveal_strlit("and");
        reveal_strlit("or");
        reveal_strlit("xor");
        reveal_strlit("nand");
        reveal_strlit("nor");
        reveal_strlit("not");
    }
    assert(!crate::evaluation::is_comparison_op(op)) by {
        reveal_strlit("=");
        reveal_strlit(">");
        reveal_strlit("<");
        reveal_strlit("<=");
        reveal_strlit(">=");
    }
    assert("true"@ != "false"@) by {
        assert("true"@.len() != "false"@.len());
    }
}

/// Law: `#t` and `#f` (with any blanks around them) evaluate to `true` and `false`, and
/// change nothing.
pub proof fn law_hash_booleans(
    e: Seq<char>,
    table: Map<Seq<char>, Seq<char>>,
    answers: Seq<Seq<char>>,
    next: int,
)
    ensures
        trimmed(e) == "#t"@ ==> eval_expr(e, table, answers, next) == (EvalOut {
            step: StepSpec::Done(Ok("true"@)),
            table,
            next,
        }),
        trimmed(e) == "#f"@ ==> eval_expr(e, table, answers, next) == (EvalOut {
            step: StepSpec::Done(Ok("false"@)),
            table,
            next,
        }),
{
    reveal_strlit("#t");
    reveal_strlit("#f");
    reveal_strlit("true");
    reveal_strlit("false");
    reveal_strlit("inf");
    reveal_strlit("INF");
    reveal_strlit("infinity");
    reveal_strlit("INFINITY");
    reveal_strlit("nan");
    reveal_strlit("NAN");
    let t = trimmed(e);
    if t == "#t"@ || t == "#f"@ {
        assert(t[0] == '#');
        assert(unsigned_part(t) == t);
        assert forall|i: int| 0 <= i <= t.len() implies !#[trigger] is_mantissa(t.subrange(0, i)) by {
            let m = t.subrange(0, i);
            if i > 0 {
                assert(m[0] == '#');
            } else {
                assert(m.len() == 0);
            }
        }
        assert(!is_float_literal(t));
        assert(t != "true"@ && t != "false"@) by {
            assert("true"@[0] != '#');
            assert("false"@[0] != '#');
        }
        assert("#t"@ != "#f"@) by {
            assert("#t"@[1] != "#f"@[1]);
        }
    }
}

/// Law: `(define name expr)` defines the trimmed `name` as the value of `expr`, replacing
/// any earlier value, and evaluates to the empty string; when `expr` gives an error it
/// gives its own error and defines nothing; on other than two arguments it gives the arity
/// error and changes nothing.
pub proof fn law_define(
    args: Seq<Seq<char>>,
    table: Map<Seq<char>, Seq<char>>,
    answers: Seq<Seq<char>>,
    next: int,
)
    ensures
        args.len() != 2 ==> define_step(args, table, answers, next) == (EvalOut {
            step: StepSpec::Done(Err("Defining of variable should be (define var_name expr)"@)),
            table,
            next,
        }),
        args.len() == 2 ==> {
            let r = eval_expr(args[1], table, answers, next);
            let d = define_step(args, table, answers, next);
            &&& r.step matches StepSpec::Done(Ok(v)) ==> {
                &&& d.step == StepSpec::Done(Ok(Seq::<char>::empty()))
                &&& d.table.contains_key(trimmed(args[0]))
                &&& d.table[trimmed(args[0])] == v
                &&& forall|n: Seq<char>| n != trimmed(args[0]) ==> (#[trigger] d.table.contains_key(n)
                    == r.table.contains_key(n) && (r.table.contains_key(n) ==> d.table[n]
                    == r.table[n]))
                &&& d.next == r.next
            }
            &&& r.step matches StepSpec::Done(Err(_)) ==> {
                &&& d.step == StepSpec::Done(Err("Something went wrong in evaluating expression"@))
                &&& d.table == r.table
                &&& d.next == r.next
            }
        },
{
}

/// Law: an operator that is none of the arithmetic, boolean, comparison or conditional
/// ones gives the error that names it, and uses no answer.
pub proof fn law_unknown_operator(op: Seq<char>, values: Seq<Seq<char>>, answers: Seq<Seq<char>>, next: int)
    requires
        !crate::evaluation::is_arith_op(op),
        !crate::evaluation::is_boolean_op(op),
        !crate::evaluation::is_comparison_op(op),
        !crate::evaluation::is_cond_op(op),
    ensures
        dispatch(op, values, answers, next).step == StepSpec::Done(
            Err("Invalid symbol `"@ + op + "`"@),
        ),
        dispatch(op, values, answers, next).next == next,
{
}

/// Law: an operator alone in parentheses, `(op)`, is a syntax error, unless a variable is
/// named by the whole text.
pub proof fn law_operator_alone_is_invalid(
    op: Seq<char>,
    table: Map<Seq<char>, Seq<char>>,
    answers: Seq<Seq<char>>,
    next: int,
)
    requires
        plain_atom(op),
        !table.contains_key(seq!['('] + op + seq![')']),
    ensures
        eval_expr(seq!['('] + op + seq![')'], table, answers, next) == (EvalOut {
            step: StepSpec::Done(Err("Invalid syntax"@)),
            table,
            next,
        }),
{
    let e = seq!['('] + op + seq![')'];
    assert(e[0] == '(');
    assert(e.last() == ')');
    reveal_strlit("(");
    lemma_plain_trimmed(e);
    lemma_parenthesised_not_literal(e);
    assert(e[1] == op[0]);
    assert(!is_blank(op[0]));
    assert(skip_separators(e, 1) == 1);
    let inner = e.subrange(1, e.len() - 1);
    assert(inner =~= op);
    assert(first_space(op, 0) == op.len()) by {
        lemma_no_space(op, 0);
    }
}

proof fn lemma_no_space(s: Seq<char>, i: int)
    requires
        0 <= i <= s.len(),
        forall|j: int| 0 <= j < s.len() ==> !is_blank(#[trigger] s[j]),
    ensures
        first_space(s, i) == s.len(),
    decreases s.len() - i,
{
    if i < s.len() {
        assert(!is_blank(s[i]));
        lemma_no_space(s, i + 1);
    }
}

} // verus!
