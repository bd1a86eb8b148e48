//! What running a program of several expressions prints: one line per expression, in order.

use vstd::prelude::*;

use crate::evaluation::{
    eval_expr, evaluate_program, first_open_from, run_from, shown, EvalOut, RunEndSpec, RunOut,
    StepSpec,
};
use crate::parsing::{balance, close_search, closes_at, lemma_close_search_found, matching_close, paren_delta};
use crate::text::trimmed;

verus! {

/// The pieces written one after another.
pub open spec fn concat(pieces: Seq<Seq<char>>) -> Seq<char>
    decreases pieces.len(),
{
    if pieces.len() == 0 {
        seq![]
    } else {
        concat(pieces.drop_last()) + pieces.last()
    }
}

/// Where the `i`-th piece starts in `concat(pieces)`.
pub open spec fn piece_start(pieces: Seq<Seq<char>>, i: int) -> int {
    concat(pieces.take(i)).len() as int
}

/// A piece of a program: text without `(`, then, from position `gap` to the end, one
/// expression in parentheses (longer than `()`) whose `(` is closed by the last character.
pub open spec fn expression_piece(piece: Seq<char>, gap: int) -> bool {
    &&& 0 <= gap
    &&& gap + 2 < piece.len()
    &&& piece[gap] == '('
    &&& forall|j: int| 0 <= j < gap ==> #[trigger] piece[j] != '('
    &&& matching_close(piece, gap) == piece.len() - 1
}

/// The lines that print the values.
pub open spec fn shown_lines(values: Seq<Seq<char>>) -> Seq<Seq<char>> {
    values.map_values(|v: Seq<char>| shown(v))
}

proof fn lemma_concat_prefix(pieces: Seq<Seq<char>>, i: int)
    requires
        0 <= i <= pieces.len(),
    ensures
        concat(pieces.take(i)).len() <= concat(pieces).len(),
        forall|t: int|
            0 <= t < concat(pieces.take(i)).len() ==> #[trigger] concat(pieces)[t] == concat(
                pieces.take(i),
            )[t],
    decreases pieces.len(),
{
    if i == pieces.len() {
        assert(pieces.take(i) =~= pieces);
    } else {
        let d = pieces.drop_last();
        assert(pieces.take(i) =~= d.take(i));
        lemma_concat_prefix(d, i);
    }
}

/// The characters of the `i`-th piece in the whole program.
proof fn lemma_piece_chars(pieces: Seq<Seq<char>>, i: int)
    requires
        0 <= i < pieces.len(),
    ensures
        piece_start(pieces, i + 1) == piece_start(pieces, i) + pieces[i].len(),
        piece_start(pieces, i + 1) <= concat(pieces).len(),
        piece_start(pieces, i) >= 0,
        forall|t: int|
            0 <= t < pieces[i].len() ==> #[trigger] concat(pieces)[piece_start(pieces, i) + t]
                == pieces[i][t],
{
    let t1 = pieces.take(i + 1);
    assert(t1.drop_last() =~= pieces.take(i));
    assert(t1.last() == pieces[i]);
    lemma_concat_prefix(pieces, i + 1);
    let c0 = concat(pieces.take(i));
    assert forall|t: int| 0 <= t < pieces[i].len() implies #[trigger] concat(pieces)[piece_start(
        pieces,
        i,
    ) + t] == pieces[i][t] by {
        assert(concat(t1)[c0.len() + t] == pieces[i][t]);
    }
}

/// The first `(` at or after `c` is at `d` when none comes between.
proof fn lemma_first_open_at(prog: Seq<char>, c: int, d: int)
    requires
        0 <= c <= d < prog.len(),
        prog[d] == '(',
        forall|j: int| c <= j < d ==> #[trigger] prog[j] != '(',
    ensures
        first_open_from(prog, c) == d,
    decreases d - c,
{
    if c < d {
        lemma_first_open_at(prog, c + 1, d);
    }
}

/// No `(` at or after `c`: the search reaches the end.
proof fn lemma_first_open_none(prog: Seq<char>, c: int)
    requires
        0 <= c <= prog.len(),
        forall|j: int| c <= j < prog.len() ==> #[trigger] prog[j] != '(',
    ensures
        first_open_from(prog, c) == prog.len(),
    decreases prog.len() - c,
{
    if c < prog.len() {
        lemma_first_open_none(prog, c + 1);
    }
}

/// From a `(`, a depth back at zero or below is reached only after a `)` that closes it.
proof fn lemma_descent(s: Seq<char>, g: int, j: int)
    requires
        0 <= g < j <= s.len(),
        s[g] == '(',
        balance(s, g, j) <= 0,
    ensures
        exists|m: int| g < m < j && #[trigger] closes_at(s, g, m),
    decreases j - g,
{
    assert(balance(s, g, g) == 0);
    assert(balance(s, g, g + 1) == 1);
    let b = balance(s, g, j - 1);
    if b >= 1 {
        assert(s[j - 1] == ')');
        assert(closes_at(s, g, j - 1));
    } else {
        lemma_descent(s, g, j - 1);
        let m = choose|m: int| g < m < j - 1 && #[trigger] closes_at(s, g, m);
        assert(closes_at(s, g, m));
    }
}

/// What the first `)` that closes the `(` of a piece tells: it is the last character, and
/// the one before it is not `(`.
proof fn lemma_piece_close(piece: Seq<char>, gap: int)
    requires
        expression_piece(piece, gap),
    ensures
        closes_at(piece, gap, piece.len() - 1),
        forall|m: int| gap <= m < piece.len() - 1 ==> !closes_at(piece, gap, m),
        piece[piece.len() - 2] != '(',
{
    lemma_close_search_found(piece, gap, gap);
    let n = piece.len() as int;
    if piece[n - 2] == '(' {
        assert(balance(piece, gap, n - 1) == balance(piece, gap, n - 2) + paren_delta(piece[n - 2]));
        lemma_descent(piece, gap, n - 2);
        let m = choose|m: int| gap < m < n - 2 && #[trigger] closes_at(piece, gap, m);
        assert(!closes_at(piece, gap, m));
    }
}

/// Depths counted in a piece are those counted at its place in the program.
proof fn lemma_balance_shift(prog: Seq<char>, piece: Seq<char>, o: int, a: int, b: int)
    requires
        0 <= o,
        0 <= a <= b <= piece.len(),
        o + piece.len() <= prog.len(),
        forall|t: int| 0 <= t < piece.len() ==> #[trigger] prog[o + t] == piece[t],
    ensures
        balance(prog, o + a, o + b) == balance(piece, a, b),
    decreases b - a,
{
    if b > a {
        lemma_balance_shift(prog, piece, o, a, b - 1);
        assert(prog[o + (b - 1)] == piece[b - 1]);
    }
}

proof fn lemma_close_shift(prog: Seq<char>, piece: Seq<char>, o: int, g: int, i: int)
    requires
        0 <= o,
        0 <= g <= i <= piece.len() - 1,
        o + piece.len() <= prog.len(),
        forall|t: int| 0 <= t < piece.len() ==> #[trigger] prog[o + t] == piece[t],
        closes_at(piece, g, piece.len() - 1),
        forall|m: int| g <= m < piece.len() - 1 ==> !closes_at(piece, g, m),
    ensures
        close_search(prog, o + g, o + i) == o + piece.len() - 1,
    decreases piece.len() - i,
{
    lemma_balance_shift(prog, piece, o, g, i);
    assert(prog[o + i] == piece[i]);
    if i < piece.len() - 1 {
        assert(!closes_at(piece, g, i));
        lemma_close_shift(prog, piece, o, g, i + 1);
    }
}

/// Where the run finds the `i`-th expression: from the cursor it stands at after the
/// expression before (or from the start), the next `(` is the one of the `i`-th piece, its
/// match is the piece's last character, and the cursor after it is past the piece's `(`.
proof fn lemma_piece_found(pieces: Seq<Seq<char>>, gaps: Seq<int>, i: int)
    requires
        gaps.len() == pieces.len(),
        0 <= i < pieces.len(),
        forall|j: int| 0 <= j < pieces.len() ==> expression_piece(#[trigger] pieces[j], gaps[j]),
    ensures
        ({
            let prog = concat(pieces);
            let o = piece_start(pieces, i);
            let g = gaps[i];
            let cursor = if i == 0 { 0 } else { o - 2 };
            let ender = o + pieces[i].len() - 1;
            &&& cursor >= 0
            &&& first_open_from(prog, cursor) == o + g
            &&& o + g < prog.len()
            &&& matching_close(prog, o + g) == ender
            &&& ender + 1 >= o + g
            &&& prog.subrange(o + g, ender + 1) == pieces[i].subrange(g, pieces[i].len() as int)
            &&& ender != 0
            &&& ender - 1 > o + g
            &&& ender - 1 == piece_start(pieces, i + 1) - 2
        }),
{
    let prog = concat(pieces);
    let o = piece_start(pieces, i);
    let cursor = if i == 0 { 0 } else { o - 2 };
    if i > 0 {
        let pp = pieces[i - 1];
        assert(expression_piece(pp, gaps[i - 1]));
        lemma_piece_chars(pieces, i - 1);
        lemma_piece_close(pp, gaps[i - 1]);
        assert(prog[piece_start(pieces, i - 1) + (pp.len() - 2)] == pp[pp.len() - 2]);
        assert(prog[piece_start(pieces, i - 1) + (pp.len() - 1)] == pp[pp.len() - 1]);
    }
    let piece = pieces[i];
    let g = gaps[i];
    assert(expression_piece(piece, g));
    lemma_piece_chars(pieces, i);
    assert(prog[o + g] == piece[g]);
    assert forall|j: int| cursor <= j < o + g implies #[trigger] prog[j] != '(' by {
        if j >= o {
            assert(prog[o + (j - o)] == piece[j - o]);
        }
    }
    lemma_first_open_at(prog, cursor, o + g);
    lemma_piece_close(piece, g);
    lemma_close_shift(prog, piece, o, g, g);
    let ender = o + piece.len() - 1;
    assert(prog.subrange(o + g, ender + 1) =~= piece.subrange(g, piece.len() as int)) by {
        assert forall|t: int| 0 <= t < piece.len() - g implies prog.subrange(o + g, ender + 1)[t]
            == piece.subrange(g, piece.len() as int)[t] by {
            assert(prog[o + (g + t)] == piece[g + t]);
        }
    }
}

/// Running the program from the `i`-th piece on prints the remaining values, one per piece.
proof fn lemma_run_pieces(
    pieces: Seq<Seq<char>>,
    gaps: Seq<int>,
    values: Seq<Seq<char>>,
    tables: Seq<Map<Seq<char>, Seq<char>>>,
    nexts: Seq<int>,
    answers: Seq<Seq<char>>,
    i: int,
)
    requires
        pieces.len() >= 1,
        gaps.len() == pieces.len(),
        values.len() == pieces.len(),
        tables.len() == pieces.len() + 1,
        nexts.len() == pieces.len() + 1,
        0 <= i <= pieces.len(),
        forall|j: int| 0 <= j < pieces.len() ==> expression_piece(#[trigger] pieces[j], gaps[j]),
        forall|j: int|
            0 <= j < pieces.len() ==> eval_expr(
                (#[trigger] pieces[j]).subrange(gaps[j], pieces[j].len() as int),
                tables[j],
                answers,
                nexts[j],
            ) == (EvalOut {
                step: StepSpec::Done(Ok(values[j])),
                table: tables[j + 1],
                next: nexts[j + 1],
            }),
    ensures
        ({
            let prog = concat(pieces);
            let k = pieces.len() as int;
            let tr = trimmed(prog);
            let cursor = if i == 0 { 0 } else { piece_start(pieces, i) - 2 };
            run_from(prog, cursor, tables[i], answers, nexts[i], shown_lines(values.take(i)))
                == (RunOut {
                lines: shown_lines(values) + (if tables[k].contains_key(tr) {
                    seq![tables[k][tr]]
                } else {
                    seq![]
                }),
                end: RunEndSpec::Finished,
                table: tables[k],
                next: nexts[k],
            })
        }),
    decreases pieces.len() - i,
{
    let prog = concat(pieces);
    let k = pieces.len() as int;
    let cursor = if i == 0 { 0 } else { piece_start(pieces, i) - 2 };
    if i == k {
        let pp = pieces[k - 1];
        assert(expression_piece(pp, gaps[k - 1]));
        lemma_piece_chars(pieces, k - 1);
        lemma_piece_close(pp, gaps[k - 1]);
        assert(prog[piece_start(pieces, k - 1) + (pp.len() - 2)] == pp[pp.len() - 2]);
        assert(prog[piece_start(pieces, k - 1) + (pp.len() - 1)] == pp[pp.len() - 1]);
        assert(pieces.take(k) =~= pieces);
        assert(piece_start(pieces, k) == prog.len());
        lemma_first_open_none(prog, cursor);
        assert(values.take(k) =~= values);
        let tr = trimmed(prog);
        let l0 = shown_lines(values);
        if tables[k].contains_key(tr) {
            assert(l0.push(tables[k][tr]) =~= l0 + seq![tables[k][tr]]);
        } else {
            assert(l0 =~= l0 + Seq::<Seq<char>>::empty());
        }
    } else {
        lemma_piece_found(pieces, gaps, i);
        assert(shown_lines(values.take(i)).push(shown(values[i])) =~= shown_lines(
            values.take(i + 1),
        ));
        lemma_run_pieces(pieces, gaps, values, tables, nexts, answers, i + 1);
    }
}

/// Law: a program written as expressions one after another (each after text without `(`)
/// prints one line per expression, in order: the value of each, shown as `#t` or `#f` for a
/// boolean, each expression evaluated with the variables and answers the one before it
/// left. Nothing is skipped and nothing stops the run early; after the last expression the
/// program only reads, as every program does at its end, the variable that its whole text
/// names. (An expression `()` is left out: the interpreter prints its value without end.)
pub proof fn law_program_prints_every_expression(
    pieces: Seq<Seq<char>>,
    gaps: Seq<int>,
    values: Seq<Seq<char>>,
    tables: Seq<Map<Seq<char>, Seq<char>>>,
    nexts: Seq<int>,
    answers: Seq<Seq<char>>,
)
    requires
        pieces.len() >= 1,
        gaps.len() == pieces.len(),
        values.len() == pieces.len(),
        tables.len() == pieces.len() + 1,
        nexts.len() == pieces.len() + 1,
        nexts[0] == 0,
        forall|j: int| 0 <= j < pieces.len() ==> expression_piece(#[trigger] pieces[j], gaps[j]),
        forall|j: int|
            0 <= j < pieces.len() ==> eval_expr(
                (#[trigger] pieces[j]).subrange(gaps[j], pieces[j].len() as int),
                tables[j],
                answers,
                nexts[j],
            ) == (EvalOut {
                step: StepSpec::Done(Ok(values[j])),
                table: tables[j + 1],
                next: nexts[j + 1],
            }),
    ensures
        ({
            let prog = concat(pieces);
            let k = pieces.len() as int;
            let tr = trimmed(prog);
            evaluate_program(prog, tables[0], answers) == (RunOut {
                lines: shown_lines(values) + (if tables[k].contains_key(tr) {
                    seq![tables[k][tr]]
                } else {
                    seq![]
                }),
                end: RunEndSpec::Finished,
                table: tables[k],
                next: nexts[k],
            })
        }),
{
    lemma_run_pieces(pieces, gaps, values, tables, nexts, answers, 0);
    lemma_piece_chars(pieces, 0);
    assert(pieces.take(0) =~= Seq::<Seq<char>>::empty());
    assert(concat(Seq::<Seq<char>>::empty()).len() == 0);
    assert(expression_piece(pieces[0], gaps[0]));
    assert(concat(pieces).len() > 0);
    assert(shown_lines(values.take(0)) =~= Seq::<Seq<char>>::empty());
}

/// Running the program from the `i`-th piece on prints the remaining values, then the
/// error of the last piece.
proof fn lemma_run_until_error(
    pieces: Seq<Seq<char>>,
    gaps: Seq<int>,
    values: Seq<Seq<char>>,
    message: Seq<char>,
    tables: Seq<Map<Seq<char>, Seq<char>>>,
    nexts: Seq<int>,
    answers: Seq<Seq<char>>,
    i: int,
)
    requires
        pieces.len() >= 1,
        gaps.len() == pieces.len(),
        values.len() == pieces.len() - 1,
        tables.len() == pieces.len() + 1,
        nexts.len() == pieces.len() + 1,
        0 <= i < pieces.len(),
        forall|j: int| 0 <= j < pieces.len() ==> expression_piece(#[trigger] pieces[j], gaps[j]),
        forall|j: int|
            0 <= j < pieces.len() - 1 ==> eval_expr(
                (#[trigger] pieces[j]).subrange(gaps[j], pieces[j].len() as int),
                tables[j],
                answers,
                nexts[j],
            ) == (EvalOut {
                step: StepSpec::Done(Ok(values[j])),
                table: tables[j + 1],
                next: nexts[j + 1],
            }),
        eval_expr(
            pieces.last().subrange(gaps.last(), pieces.last().len() as int),
            tables[pieces.len() - 1],
            answers,
            nexts[pieces.len() - 1],
        ) == (EvalOut {
            step: StepSpec::Done(Err(message)),
            table: tables[pieces.len() as int],
            next: nexts[pieces.len() as int],
        }),
    ensures
        ({
            let prog = concat(pieces);
            let k = pieces.len() as int;
            let cursor = if i == 0 { 0 } else { piece_start(pieces, i) - 2 };
            run_from(prog, cursor, tables[i], answers, nexts[i], shown_lines(values.take(i)))
                == (RunOut {
                lines: shown_lines(values).push("Error: "@ + message),
                end: RunEndSpec::Finished,
                table: tables[k],
                next: nexts[k],
            })
        }),
    decreases pieces.len() - i,
{
    lemma_piece_found(pieces, gaps, i);
    if i == pieces.len() - 1 {
        assert(values.take(i) =~= values);
    } else {
        assert(shown_lines(values.take(i)).push(shown(values[i])) =~= shown_lines(
            values.take(i + 1),
        ));
        lemma_run_until_error(pieces, gaps, values, message, tables, nexts, answers, i + 1);
    }
}

/// Law: a program whose expressions evaluate to values up to one that evaluates to an
/// error prints the values in order, then `Error: ` and the message, and stops there.
pub proof fn law_program_stops_at_error(
    pieces: Seq<Seq<char>>,
    gaps: Seq<int>,
    values: Seq<Seq<char>>,
    message: Seq<char>,
    tables: Seq<Map<Seq<char>, Seq<char>>>,
    nexts: Seq<int>,
    answers: Seq<Seq<char>>,
)
    requires
        pieces.len() >= 1,
        gaps.len() == pieces.len(),
        values.len() == pieces.len() - 1,
        tables.len() == pieces.len() + 1,
        nexts.len() == pieces.len() + 1,
        nexts[0] == 0,
        forall|j: int| 0 <= j < pieces.len() ==> expression_piece(#[trigger] pieces[j], gaps[j]),
        forall|j: int|
            0 <= j < pieces.len() - 1 ==> eval_expr(
                (#[trigger] pieces[j]).subrange(gaps[j], pieces[j].len() as int),
                tables[j],
                answers,
                nexts[j],
            ) == (EvalOut {
                step: StepSpec::Done(Ok(values[j])),
                table: tables[j + 1],
                next: nexts[j + 1],
            }),
        eval_expr(
            pieces.last().subrange(gaps.last(), pieces.last().len() as int),
            tables[pieces.len() - 1],
            answers,
            nexts[pieces.len() - 1],
        ) == (EvalOut {
            step: StepSpec::Done(Err(message)),
            table: tables[pieces.len() as int],
            next: nexts[pieces.len() as int],
        }),
    ensures
        ({
            let k = pieces.len() as int;
            evaluate_program(concat(pieces), tables[0], answers) == (RunOut {
                lines: shown_lines(values).push("Error: "@ + message),
                end: RunEndSpec::Finished,
                table: tables[k],
                next: nexts[k],
            })
        }),
{
    lemma_run_until_error(pieces, gaps, values, message, tables, nexts, answers, 0);
    lemma_piece_chars(pieces, 0);
    assert(pieces.take(0) =~= Seq::<Seq<char>>::empty());
    assert(concat(Seq::<Seq<char>>::empty()).len() == 0);
    assert(expression_piece(pieces[0], gaps[0]));
    assert(concat(pieces).len() > 0);
    assert(shown_lines(values.take(0)) =~= Seq::<Seq<char>>::empty());
}

/// Law: a value is printed as it is, except that `true` and `false` (up to blanks around
/// them) are printed as `#t` and `#f`.
pub proof fn law_booleans_print_as_hash(v: Seq<char>)
    ensures
        v == "true"@ ==> shown(v) == "#t"@,
        v == "false"@ ==> shown(v) == "#f"@,
        trimmed(v) != "true"@ && trimmed(v) != "false"@ ==> shown(v) == v,
{
    reveal_strlit("true");
    reveal_strlit("false");
    if v == "true"@ || v == "false"@ {
        assert(trimmed(v) == v) by {
            assert(crate::text::trim_start_spec(v) == v);
            assert(crate::text::trim_end_spec(v) == v);
        }
        assert("true"@.len() != "false"@.len());
    }
}

} // verus!
