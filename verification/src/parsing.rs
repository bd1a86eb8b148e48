//! Parenthesis matching and the splitting of an expression into its arguments.

use vstd::prelude::*;

use crate::text::{is_separator, is_separator_char};



verus! {

/// How a character changes the nesting depth.
pub open spec fn paren_delta(c: char) -> int {
    if c == '(' {
        1
    } else if c == ')' {
        -1
    } else {
        0
    }
}

/// The number of `(` minus the number of `)` in `s[from..to)`.
pub open spec fn balance(s: Seq<char>, from: int, to: int) -> int
    decreases to - from,
{
    if to <= from {
        0
    } else {
        balance(s, from, to - 1) + paren_delta(s[to - 1])
    }
}

/// Every `)` closes an earlier `(`, and every `(` is closed.
pub open spec fn balanced(s: Seq<char>) -> bool {
    &&& forall|k: int| 0 <= k <= s.len() ==> #[trigger] balance(s, 0, k) >= 0
    &&& balance(s, 0, s.len() as int) == 0
}

/// `s[j]` is a `)` that brings the depth counted from `begin` back to zero.
pub open spec fn closes_at(s: Seq<char>, begin: int, j: int) -> bool {
    s[j] == ')' && balance(s, begin, j) == 1
}

/// The first position at or after `i` where the parenthesis opened at `begin` is closed,
/// or 0 when there is none.
pub open spec fn close_search(s: Seq<char>, begin: int, i: int) -> int
    decreases s.len() - i,
{
    if i >= s.len() || i < 0 {
        0
    } else if closes_at(s, begin, i) {
        i
    } else {
        close_search(s, begin, i + 1)
    }
}

/// The position of the `)` matching the `(` at `begin`, or 0 when there is none.
pub open spec fn matching_close(s: Seq<char>, begin: int) -> int {
    close_search(s, begin, begin)
}

/// The state of the stack-based matching of parentheses after the first `k` characters:
/// the positions of the `(` still open, and the matched pairs in the order they were closed.
pub struct ParenScan {
    pub stack: Seq<int>,
    pub pairs: Seq<(int, int)>,
}

pub open spec fn scan_parens(s: Seq<char>, k: int) -> ParenScan
    decreases k,
{
    if k <= 0 {
        ParenScan { stack: seq![], pairs: seq![] }
    } else {
        let prev = scan_parens(s, k - 1);
        let c = s[k - 1];
        if c == '(' {
            ParenScan { stack: prev.stack.push(k - 1), pairs: prev.pairs }
        } else if c == ')' {
            ParenScan {
                stack: prev.stack.drop_last(),
                pairs: prev.pairs.push((prev.stack.last(), k - 1)),
            }
        } else {
            prev
        }
    }
}

/// The matched pairs of parentheses of `s`, `(open, close)`, in the order they close.
pub open spec fn paren_pairs(s: Seq<char>) -> Seq<(int, int)> {
    scan_parens(s, s.len() as int).pairs
}

pub open spec fn pairs_view(v: Seq<[usize; 2]>) -> Seq<(int, int)> {
    Seq::new(v.len(), |i: int| (v[i][0] as int, v[i][1] as int))
}

pub open spec fn strings_view(v: Seq<String>) -> Seq<Seq<char>> {
    v.map_values(|x: String| x@)
}

proof fn lemma_balance_bound(s: Seq<char>, from: int, to: int)
    requires
        from <= to,
    ensures
        -(to - from) <= balance(s, from, to) <= to - from,
    decreases to - from,
{
    if to > from {
        lemma_balance_bound(s, from, to - 1);
    }
}

proof fn lemma_scan_depth(s: Seq<char>, k: int)
    requires
        0 <= k <= s.len(),
        forall|j: int| 0 <= j <= k ==> #[trigger] balance(s, 0, j) >= 0,
    ensures
        scan_parens(s, k).stack.len() == balance(s, 0, k),
    decreases k,
{
    if k > 0 {
        assert(balance(s, 0, k - 1) >= 0);
        lemma_scan_depth(s, k - 1);
    }
}

proof fn lemma_close_search_skip(s: Seq<char>, begin: int, i: int, j: int)
    requires
        0 <= i <= j,
        forall|m: int| i <= m < j && m < s.len() ==> !closes_at(s, begin, m),
    ensures
        close_search(s, begin, i) == close_search(s, begin, j),
    decreases j - i,
{
    if i < j {
        lemma_close_search_skip(s, begin, i + 1, j);
    }
}

/// `matching_close` is 0 or a position of `s` at or after `i`.
pub proof fn lemma_close_search_range(s: Seq<char>, begin: int, i: int)
    ensures
        close_search(s, begin, i) == 0 || (i <= close_search(s, begin, i) < s.len()),
    decreases s.len() - i,
{
    if 0 <= i < s.len() && !closes_at(s, begin, i) {
        lemma_close_search_range(s, begin, i + 1);
    }
}

/// What the search from `i` finds: the first `)` at or after `i` that closes the `(` at
/// `begin`, or 0 when none does.
pub proof fn lemma_close_search_found(s: Seq<char>, begin: int, i: int)
    requires
        0 <= begin <= i,
    ensures
        close_search(s, begin, i) != 0 ==> {
            &&& i <= close_search(s, begin, i) < s.len()
            &&& closes_at(s, begin, close_search(s, begin, i))
            &&& forall|m: int|
                i <= m < close_search(s, begin, i) ==> !closes_at(s, begin, m)
        },
        close_search(s, begin, i) == 0 ==> forall|m: int|
            i <= m < s.len() && m != 0 ==> !closes_at(s, begin, m),
    decreases s.len() - i,
{
    assert(balance(s, begin, begin) == 0);
    if i < s.len() && !closes_at(s, begin, i) {
        lemma_close_search_found(s, begin, i + 1);
    }
}

/// The depth counted from `begin` fits an `i32` at every position up to the matching `)`
/// (or to the end, when there is none).
pub open spec fn counter_fits(s: Seq<char>, begin: int) -> bool {
    forall|i: int|
        begin <= i <= s.len() && (forall|j: int| begin <= j < i ==> !closes_at(s, begin, j))
            ==> i32::MIN <= #[trigger] balance(s, begin, i) <= i32::MAX
}

/// The depth always fits in a text no longer than `i32::MAX` characters.
pub proof fn lemma_short_text_counter_fits(s: Seq<char>, begin: int)
    requires
        0 <= begin,
        s.len() <= i32::MAX,
    ensures
        counter_fits(s, begin),
{
    assert forall|i: int| begin <= i <= s.len() implies i32::MIN <= #[trigger] balance(s, begin, i)
        <= i32::MAX by {
        lemma_balance_bound(s, begin, i);
    }
}

/// Given a string and the position of an opening parenthesis, finds the position of the
/// matching closing parenthesis; returns 0 when there is none.
pub fn find_matching_parenthesis(stg: &String, begin: usize) -> (r: usize)
    requires
        counter_fits(stg@, begin as int),
    ensures
        r == matching_close(stg@, begin as int),
        r != 0 ==> {
            &&& begin < r < stg@.len()
            &&& closes_at(stg@, begin as int, r as int)
            &&& forall|m: int| begin <= m < r ==> !closes_at(stg@, begin as int, m)
        },
        r == 0 ==> forall|m: int|
            begin <= m < stg@.len() ==> !closes_at(stg@, begin as int, m),
{
    let s = stg.as_str();
    let n = s.unicode_len();
    let mut num_open: i32 = 0;
    let mut i: usize = begin;
    while i < n
        invariant
            s@ == stg@,
            n == stg@.len(),
            counter_fits(stg@, begin as int),
            begin <= i,
            forall|j: int| begin <= j < i ==> !closes_at(stg@, begin as int, j),
            num_open == balance(stg@, begin as int, i as int),
            close_search(stg@, begin as int, begin as int) == close_search(
                stg@,
                begin as int,
                i as int,
            ),
        decreases n - i,
    {
        let at = s.get_char(i);
        if at != ')' || num_open != 1 {
            // the depth after this character is one the counter holds
            assert(!closes_at(stg@, begin as int, i as int));
            assert(i32::MIN <= balance(stg@, begin as int, i as int + 1) <= i32::MAX);
        }
        if at == '(' {
            num_open += 1;
        } else if at == ')' && num_open == 1 {
            assert(closes_at(stg@, begin as int, i as int));
            assert(balance(stg@, begin as int, begin as int) == 0);
            proof {
                lemma_close_search_found(stg@, begin as int, begin as int);
            }
            return i;
        } else if at == ')' {
            num_open -= 1;
        }
        proof {
            lemma_close_search_skip(stg@, begin as int, i as int, i as int + 1);
        }
        i += 1;
    }
    assert(balance(stg@, begin as int, begin as int) == 0);
    proof {
        lemma_close_search_found(stg@, begin as int, begin as int);
    }
    0
}

/// What the stack-based matching keeps true after the first `k` characters.
proof fn lemma_scan_invariant(s: Seq<char>, k: int)
    requires
        0 <= k <= s.len(),
        forall|j: int| 0 <= j <= k ==> #[trigger] balance(s, 0, j) >= 0,
    ensures
        ({
            let sc = scan_parens(s, k);
            &&& sc.stack.len() == balance(s, 0, k)
            &&& forall|t: int|
                0 <= t < sc.stack.len() ==> {
                    &&& 0 <= #[trigger] sc.stack[t] < k
                    &&& s[sc.stack[t]] == '('
                    &&& balance(s, sc.stack[t], k) == sc.stack.len() - t
                    &&& forall|m: int|
                        sc.stack[t] < m <= k ==> #[trigger] balance(s, sc.stack[t], m) >= 1
                }
            &&& forall|i: int|
                0 <= i < sc.pairs.len() ==> {
                    &&& 0 <= (#[trigger] sc.pairs[i]).0 < sc.pairs[i].1 < k
                    &&& s[sc.pairs[i].0] == '('
                    &&& s[sc.pairs[i].1] == ')'
                    &&& matching_close(s, sc.pairs[i].0) == sc.pairs[i].1
                }
        }),
    decreases k,
{
    if k > 0 {
        assert(balance(s, 0, k - 1) >= 0);
        lemma_scan_invariant(s, k - 1);
        let prev = scan_parens(s, k - 1);
        let sc = scan_parens(s, k);
        let c = s[k - 1];
        assert(balance(s, 0, k) == balance(s, 0, k - 1) + paren_delta(c));
        if c == '(' {
            assert(sc.stack == prev.stack.push(k - 1));
            assert forall|t: int| 0 <= t < sc.stack.len() implies {
                &&& 0 <= #[trigger] sc.stack[t] < k
                &&& s[sc.stack[t]] == '('
                &&& balance(s, sc.stack[t], k) == sc.stack.len() - t
                &&& forall|m: int|
                    sc.stack[t] < m <= k ==> #[trigger] balance(s, sc.stack[t], m) >= 1
            } by {
                if t < prev.stack.len() {
                    assert(sc.stack[t] == prev.stack[t]);
                    assert(balance(s, prev.stack[t], k) == balance(s, prev.stack[t], k - 1) + 1);
                } else {
                    assert(sc.stack[t] == k - 1);
                    assert(balance(s, k - 1, k - 1) == 0);
                    assert(balance(s, k - 1, k) == 1);
                }
            }
        } else if c == ')' {
            let o = prev.stack.last();
            let top = prev.stack.len() - 1;
            assert(prev.stack[top] == o);
            assert(sc.stack == prev.stack.drop_last());
            assert(sc.pairs == prev.pairs.push((o, k - 1)));
            assert forall|t: int| 0 <= t < sc.stack.len() implies {
                &&& 0 <= #[trigger] sc.stack[t] < k
                &&& s[sc.stack[t]] == '('
                &&& balance(s, sc.stack[t], k) == sc.stack.len() - t
                &&& forall|m: int|
                    sc.stack[t] < m <= k ==> #[trigger] balance(s, sc.stack[t], m) >= 1
            } by {
                assert(sc.stack[t] == prev.stack[t]);
                assert(balance(s, prev.stack[t], k) == balance(s, prev.stack[t], k - 1) - 1);
            }
            // the pair just closed is the one find_matching_parenthesis reports
            assert(balance(s, o, k - 1) == 1);
            assert(closes_at(s, o, k - 1));
            assert forall|m: int| o <= m < k - 1 && m < s.len() implies !closes_at(s, o, m) by {
                if m > o && s[m] == ')' {
                    assert(balance(s, o, m + 1) >= 1);
                    assert(balance(s, o, m + 1) == balance(s, o, m) - 1);
                }
            }
            lemma_close_search_skip(s, o, o, k - 1);
            assert(matching_close(s, o) == k - 1);
            assert forall|i: int| 0 <= i < sc.pairs.len() implies {
                &&& 0 <= (#[trigger] sc.pairs[i]).0 < sc.pairs[i].1 < k
                &&& s[sc.pairs[i].0] == '('
                &&& s[sc.pairs[i].1] == ')'
                &&& matching_close(s, sc.pairs[i].0) == sc.pairs[i].1
            } by {
                if i < prev.pairs.len() {
                    assert(sc.pairs[i] == prev.pairs[i]);
                }
            }
        } else {
            assert forall|t: int| 0 <= t < sc.stack.len() implies {
                &&& 0 <= #[trigger] sc.stack[t] < k
                &&& s[sc.stack[t]] == '('
                &&& balance(s, sc.stack[t], k) == sc.stack.len() - t
                &&& forall|m: int|
                    sc.stack[t] < m <= k ==> #[trigger] balance(s, sc.stack[t], m) >= 1
            } by {
                assert(balance(s, prev.stack[t], k) == balance(s, prev.stack[t], k - 1));
            }
        }
    }
}

/// Law: the pairs that `expression_order` reports match parentheses the way
/// `find_matching_parenthesis` does. Each pair `(open, close)` has a `(` at `open`, a `)`
/// at `close` after it, and `close` is the matching parenthesis of `open`.
pub proof fn law_order_pairs_are_matching(s: Seq<char>)
    requires
        balanced(s),
    ensures
        forall|i: int|
            0 <= i < paren_pairs(s).len() ==> {
                &&& 0 <= (#[trigger] paren_pairs(s)[i]).0 < paren_pairs(s)[i].1 < s.len()
                &&& s[paren_pairs(s)[i].0] == '('
                &&& s[paren_pairs(s)[i].1] == ')'
                &&& matching_close(s, paren_pairs(s)[i].0) == paren_pairs(s)[i].1
            },
{
    lemma_scan_invariant(s, s.len() as int);
}

/// The order in which the parenthesised expressions of `stg` are evaluated: the matched
/// pairs `[open, close]` of its parentheses, in the order they close.
pub fn expression_order(stg: &String) -> (r: Vec<[usize; 2]>)
    requires
        balanced(stg@),
    ensures
        pairs_view(r@) == paren_pairs(stg@),
{
    let s = stg.as_str();
    let n = s.unicode_len();
    let mut stack: Vec<usize> = Vec::new();
    let mut parentheses_eval_order: Vec<[usize; 2]> = Vec::new();
    let mut i: usize = 0;
    while i < n
        invariant
            s@ == stg@,
            n == stg@.len(),
            i <= n,
            balanced(stg@),
            stack@.len() == balance(stg@, 0, i as int),
            forall|j: int|
                0 <= j < stack@.len() ==> stack@[j] as int == #[trigger] scan_parens(
                    stg@,
                    i as int,
                ).stack[j],
            scan_parens(stg@, i as int).stack.len() == stack@.len(),
            pairs_view(parentheses_eval_order@) == scan_parens(stg@, i as int).pairs,
        decreases n - i,
    {
        let current = s.get_char(i);
        let ghost prev = scan_parens(stg@, i as int);
        assert(balance(stg@, 0, i as int + 1) >= 0);
        if current == '(' {
            stack.push(i);
        } else if current == ')' {
            let top = stack.len() - 1;
            let opener = stack[top];
            stack.pop();
            let ghost old_pairs = parentheses_eval_order@;
            parentheses_eval_order.push([opener, i]);
            assert(pairs_view(parentheses_eval_order@) =~= pairs_view(old_pairs).push(
                (opener as int, i as int),
            ));
        }
        assert(pairs_view(parentheses_eval_order@) =~= scan_parens(stg@, i as int + 1).pairs);
        i += 1;
    }
    parentheses_eval_order
}

/// Whether the parentheses of `s` are balanced.
pub fn is_balanced(s: &str) -> (r: bool)
    ensures
        r == balanced(s@),
{
    let n = s.unicode_len();
    let mut depth: usize = 0;
    let mut i: usize = 0;
    assert(balance(s@, 0, 0) == 0);
    while i < n
        invariant
            n == s@.len(),
            i <= n,
            depth == balance(s@, 0, i as int),
            forall|k: int| 0 <= k <= i ==> #[trigger] balance(s@, 0, k) >= 0,
        decreases n - i,
    {
        proof {
            lemma_balance_bound(s@, 0, i as int);
        }
        let c = s.get_char(i);
        if c == '(' {
            depth += 1;
        } else if c == ')' {
            if depth == 0 {
                assert(balance(s@, 0, i + 1) < 0);
                return false;
            }
            depth -= 1;
        }
        i += 1;
    }
    depth == 0
}

/// Position `p` lies inside (or on) one of the matched pairs.
pub open spec fn covered(pairs: Seq<(int, int)>, p: int) -> bool {
    exists|j: int| 0 <= j < pairs.len() && #[trigger] pairs[j].0 <= p <= pairs[j].1
}

/// Position `p` (not the first) is a separator outside every parenthesised sub-expression.
pub open spec fn is_split_point(s: Seq<char>, pairs: Seq<(int, int)>, p: int) -> bool {
    1 <= p < s.len() && is_separator(s[p]) && !covered(pairs, p)
}

/// The state of the splitting: `begin` is 0 while the operator is being read; then it is
/// the position of the split point that ended the operator, and after each argument the
/// position just past the split point that ended it. `args` are the arguments complete.
pub struct Split {
    pub begin: int,
    pub args: Seq<Seq<char>>,
}

/// Where the argument being read starts: the first argument starts after the split point
/// that ended the operator, a later one at `begin`.
pub open spec fn arg_start(sp: Split) -> int {
    if sp.args.len() == 0 {
        sp.begin + 1
    } else {
        sp.begin
    }
}

/// The split of `s` after its split points below `k` have been seen: the first one ends the
/// operator; each later one that lies beyond `begin` ends an argument. (A split point right
/// after the one that ended an argument ends nothing; it stays in the next argument.)
pub open spec fn split_upto(s: Seq<char>, pairs: Seq<(int, int)>, k: int) -> Split
    decreases k,
{
    if k <= 1 {
        Split { begin: 0, args: seq![] }
    } else {
        let prev = split_upto(s, pairs, k - 1);
        let p = k - 1;
        if !is_split_point(s, pairs, p) {
            prev
        } else if prev.begin == 0 {
            Split { begin: p, args: prev.args }
        } else if p > prev.begin {
            Split { begin: p + 1, args: prev.args.push(s.subrange(arg_start(prev), p)) }
        } else {
            prev
        }
    }
}

/// The arguments of `operator arg arg ...`: the pieces between split points, then the rest
/// after the last split point. An operator alone has no arguments.
pub open spec fn split_args(s: Seq<char>) -> Seq<Seq<char>> {
    let sp = split_upto(s, paren_pairs(s), s.len() as int);
    if sp.begin != 0 && sp.begin < s.len() {
        sp.args.push(s.subrange(arg_start(sp), s.len() as int))
    } else {
        sp.args
    }
}

/// The text between the outer parentheses of `(operator arg arg ...)`.
pub open spec fn inner_of(s: Seq<char>) -> Seq<char> {
    s.subrange(1, s.len() - 1)
}

/// What `parse_args` returns for `stg`.
pub open spec fn parse_args_spec(stg: Seq<char>) -> Seq<Seq<char>> {
    split_args(inner_of(stg))
}

proof fn lemma_split_begin(s: Seq<char>, pairs: Seq<(int, int)>, k: int)
    requires
        k <= s.len() || k <= 1,
    ensures
        split_upto(s, pairs, k).begin == 0 || 1 <= split_upto(s, pairs, k).begin <= k,
        split_upto(s, pairs, k).begin != 0 ==> arg_start(split_upto(s, pairs, k)) <= k,
        split_upto(s, pairs, k).args.len() > 0 ==> split_upto(s, pairs, k).begin != 0,
        k <= 1 ==> split_upto(s, pairs, k).begin == 0,
        forall|i: int|
            0 <= i < split_upto(s, pairs, k).args.len() ==> (#[trigger] split_upto(
                s,
                pairs,
                k,
            ).args[i]).len() < s.len(),
        vstd::utf8::is_ascii_chars(s) ==> forall|i: int|
            0 <= i < split_upto(s, pairs, k).args.len() ==> vstd::utf8::is_ascii_chars(
                #[trigger] split_upto(s, pairs, k).args[i],
            ),
    decreases k,
{
    if k > 1 {
        lemma_split_begin(s, pairs, k - 1);
        let prev = split_upto(s, pairs, k - 1);
        let cur = split_upto(s, pairs, k);
        if vstd::utf8::is_ascii_chars(s) {
            assert forall|i: int| 0 <= i < cur.args.len() implies vstd::utf8::is_ascii_chars(
                #[trigger] cur.args[i],
            ) by {
                if i < prev.args.len() {
                    assert(cur.args[i] == prev.args[i]);
                } else {
                    let piece = s.subrange(arg_start(prev), k - 1);
                    assert(cur.args[i] == piece);
                    assert forall|j: int| 0 <= j < piece.len() implies '\0' <= #[trigger] piece[j]
                        <= '\u{7f}' by {
                        assert(piece[j] == s[arg_start(prev) + j]);
                    }
                }
            }
        }
    }
}

/// Each argument that `split_args` gives is at most as long as the text it came from.
pub proof fn lemma_split_args_shorter(s: Seq<char>)
    ensures
        forall|i: int| 0 <= i < split_args(s).len() ==> (#[trigger] split_args(s)[i]).len() <= s.len(),
        vstd::utf8::is_ascii_chars(s) ==> forall|i: int|
            0 <= i < split_args(s).len() ==> vstd::utf8::is_ascii_chars(#[trigger] split_args(s)[i]),
{
    lemma_split_begin(s, paren_pairs(s), s.len() as int);
    let sp = split_upto(s, paren_pairs(s), s.len() as int);
    if vstd::utf8::is_ascii_chars(s) && sp.begin != 0 && sp.begin < s.len() {
        let piece = s.subrange(arg_start(sp), s.len() as int);
        assert forall|j: int| 0 <= j < piece.len() implies '\0' <= #[trigger] piece[j] <= '\u{7f}' by {
            assert(piece[j] == s[arg_start(sp) + j]);
        }
    }
    assert forall|i: int| 0 <= i < split_args(s).len() implies (#[trigger] split_args(s)[i]).len()
        <= s.len() by {
        if i < sp.args.len() {
            assert(split_args(s)[i] == sp.args[i]);
        }
    }
}

proof fn lemma_balance_split(s: Seq<char>, a: int, m: int, b: int)
    requires
        a <= m <= b,
    ensures
        balance(s, a, b) == balance(s, a, m) + balance(s, m, b),
    decreases b - m,
{
    if b > m {
        lemma_balance_split(s, a, m, b - 1);
    }
}

proof fn lemma_balance_subrange(s: Seq<char>, a: int, b: int, j: int)
    requires
        0 <= a <= b <= s.len(),
        0 <= j <= b - a,
    ensures
        balance(s.subrange(a, b), 0, j) == balance(s, a, a + j),
    decreases j,
{
    if j > 0 {
        lemma_balance_subrange(s, a, b, j - 1);
        assert(s.subrange(a, b)[j - 1] == s[a + j - 1]);
    }
}

/// A stretch that starts and ends at depth zero, in a text whose depth is never negative,
/// is balanced.
proof fn lemma_segment_balanced(s: Seq<char>, a: int, b: int)
    requires
        0 <= a <= b <= s.len(),
        balance(s, 0, a) == 0,
        balance(s, 0, b) == 0,
        forall|k: int| 0 <= k <= s.len() ==> #[trigger] balance(s, 0, k) >= 0,
    ensures
        balanced(s.subrange(a, b)),
{
    let seg = s.subrange(a, b);
    assert forall|j: int| 0 <= j <= seg.len() implies #[trigger] balance(seg, 0, j) >= 0 by {
        lemma_balance_subrange(s, a, b, j);
        lemma_balance_split(s, 0, a, a + j);
        assert(balance(s, 0, a + j) >= 0);
    }
    lemma_balance_subrange(s, a, b, b - a);
    lemma_balance_split(s, 0, a, b);
}

/// A `(` still open after `k` characters is later either still open or closed by a pair
/// that ends at or after `k`.
proof fn lemma_open_gets_closed(s: Seq<char>, k: int, o: int, m: int)
    requires
        0 <= k <= m <= s.len(),
        scan_parens(s, k).stack.contains(o),
    ensures
        scan_parens(s, m).stack.contains(o) || exists|j: int|
            0 <= j < scan_parens(s, m).pairs.len() && (#[trigger] scan_parens(s, m).pairs[j]).0
                == o && scan_parens(s, m).pairs[j].1 >= k,
    decreases m,
{
    if m > k {
        lemma_open_gets_closed(s, k, o, m - 1);
        let prev = scan_parens(s, m - 1);
        let cur = scan_parens(s, m);
        let c = s[m - 1];
        if prev.stack.contains(o) {
            let idx = choose|idx: int| 0 <= idx < prev.stack.len() && prev.stack[idx] == o;
            if c == '(' {
                assert(cur.stack == prev.stack.push(m - 1));
                assert(cur.stack[idx] == o);
                assert(cur.stack.contains(o));
            } else if c == ')' {
                assert(cur.stack == prev.stack.drop_last());
                assert(cur.pairs == prev.pairs.push((prev.stack.last(), m - 1)));
                if idx == prev.stack.len() - 1 {
                    let j = prev.pairs.len() as int;
                    assert(cur.pairs[j] == (o, m - 1));
                } else {
                    assert(cur.stack[idx] == o);
                    assert(cur.stack.contains(o));
                }
            } else {
                assert(cur == prev);
                assert(cur.stack.contains(o));
            }
        } else {
            let j = choose|j: int|
                0 <= j < prev.pairs.len() && (#[trigger] prev.pairs[j]).0 == o && prev.pairs[j].1
                    >= k;
            if c == ')' {
                assert(cur.pairs == prev.pairs.push((prev.stack.last(), m - 1)));
                assert(cur.pairs[j] == prev.pairs[j]);
            } else if c == '(' {
                assert(cur.pairs == prev.pairs);
                assert(cur.pairs[j] == prev.pairs[j]);
            } else {
                assert(cur == prev);
                assert(cur.pairs[j] == prev.pairs[j]);
            }
        }
    }
}

/// The matched pairs only grow as the scan goes on.
proof fn lemma_pairs_grow(s: Seq<char>, k: int, m: int)
    requires
        0 <= k <= m,
    ensures
        scan_parens(s, k).pairs.len() <= scan_parens(s, m).pairs.len(),
        forall|j: int|
            0 <= j < scan_parens(s, k).pairs.len() ==> #[trigger] scan_parens(s, m).pairs[j]
                == scan_parens(s, k).pairs[j],
    decreases m - k,
{
    if m > k {
        lemma_pairs_grow(s, k, m - 1);
        let prev = scan_parens(s, m - 1);
        let cur = scan_parens(s, m);
        assert forall|j: int| 0 <= j < prev.pairs.len() implies #[trigger] cur.pairs[j]
            == prev.pairs[j] by {
            if s[m - 1] == ')' {
                assert(cur.pairs == prev.pairs.push((prev.stack.last(), m - 1)));
            }
        }
    }
}

/// Law: in a balanced text every parenthesis belongs to one of the pairs that
/// `expression_order` reports: each `(` opens one and each `)` closes one.
pub proof fn law_every_parenthesis_is_paired(s: Seq<char>, p: int)
    requires
        balanced(s),
        0 <= p < s.len(),
        s[p] == '(' || s[p] == ')',
    ensures
        exists|j: int|
            0 <= j < paren_pairs(s).len() && ((#[trigger] paren_pairs(s)[j]).0 == p
                || paren_pairs(s)[j].1 == p),
{
    let n = s.len() as int;
    assert(balance(s, 0, p + 1) >= 0);
    lemma_scan_depth(s, p);
    let prev = scan_parens(s, p);
    let cur = scan_parens(s, p + 1);
    if s[p] == '(' {
        assert(cur.stack == prev.stack.push(p));
        assert(cur.stack[prev.stack.len() as int] == p);
        assert(cur.stack.contains(p));
        lemma_open_gets_closed(s, p + 1, p, n);
        lemma_scan_depth(s, n);
        let j = choose|j: int|
            0 <= j < paren_pairs(s).len() && (#[trigger] paren_pairs(s)[j]).0 == p
                && paren_pairs(s)[j].1 >= p + 1;
        assert(paren_pairs(s)[j].0 == p);
    } else {
        let j = prev.pairs.len() as int;
        assert(cur.pairs == prev.pairs.push((prev.stack.last(), p)));
        assert(cur.pairs[j].1 == p);
        lemma_pairs_grow(s, p + 1, n);
        assert(paren_pairs(s)[j] == cur.pairs[j]);
    }
}

/// In a balanced text, a position that is not a parenthesis and lies inside no matched pair
/// is at depth zero.
proof fn lemma_uncovered_depth_zero(s: Seq<char>, p: int)
    requires
        balanced(s),
        0 <= p < s.len(),
        !covered(paren_pairs(s), p),
    ensures
        balance(s, 0, p) == 0,
{
    assert(balance(s, 0, p) >= 0);
    if balance(s, 0, p) > 0 {
        lemma_scan_invariant(s, p);
        let sc = scan_parens(s, p);
        let o = sc.stack[0];
        assert(0 <= o < p);
        assert(sc.stack.contains(o));
        lemma_open_gets_closed(s, p, o, s.len() as int);
        lemma_scan_depth(s, s.len() as int);
        let j = choose|j: int|
            0 <= j < paren_pairs(s).len() && (#[trigger] paren_pairs(s)[j]).0 == o
                && paren_pairs(s)[j].1 >= p;
        assert(paren_pairs(s)[j].0 <= p <= paren_pairs(s)[j].1);
        assert(covered(paren_pairs(s), p));
    }
}

proof fn lemma_split_pieces_balanced(s: Seq<char>, k: int)
    requires
        balanced(s),
        k <= s.len(),
    ensures
        ({
            let sp = split_upto(s, paren_pairs(s), k);
            &&& sp.begin == 0 || (arg_start(sp) <= s.len() && balance(s, 0, arg_start(sp)) == 0)
            &&& forall|i: int| 0 <= i < sp.args.len() ==> balanced(#[trigger] sp.args[i])
        }),
    decreases k,
{
    if k > 1 {
        lemma_split_pieces_balanced(s, k - 1);
        let pairs = paren_pairs(s);
        let prev = split_upto(s, pairs, k - 1);
        let cur = split_upto(s, pairs, k);
        let p = k - 1;
        lemma_split_begin(s, pairs, k - 1);
        if is_split_point(s, pairs, p) {
            lemma_uncovered_depth_zero(s, p);
            assert(balance(s, 0, p + 1) == 0);
            if prev.begin != 0 && p > prev.begin {
                lemma_segment_balanced(s, arg_start(prev), p);
                assert forall|i: int| 0 <= i < cur.args.len() implies balanced(
                    #[trigger] cur.args[i],
                ) by {
                    if i < prev.args.len() {
                        assert(cur.args[i] == prev.args[i]);
                    }
                }
            }
        }
    }
}

/// Law: each argument that `parse_args` gives is balanced: a parenthesised sub-expression
/// is never cut apart.
pub proof fn law_arguments_are_balanced(stg: Seq<char>)
    requires
        stg.len() >= 2,
        balanced(inner_of(stg)),
    ensures
        forall|i: int|
            0 <= i < parse_args_spec(stg).len() ==> balanced(#[trigger] parse_args_spec(stg)[i]),
{
    let s = inner_of(stg);
    lemma_split_pieces_balanced(s, s.len() as int);
    let sp = split_upto(s, paren_pairs(s), s.len() as int);
    lemma_split_begin(s, paren_pairs(s), s.len() as int);
    if sp.begin != 0 && sp.begin < s.len() {
        lemma_segment_balanced(s, arg_start(sp), s.len() as int);
        assert forall|i: int| 0 <= i < parse_args_spec(stg).len() implies balanced(
            #[trigger] parse_args_spec(stg)[i],
        ) by {
            if i < sp.args.len() {
                assert(parse_args_spec(stg)[i] == sp.args[i]);
            }
        }
    }
}

/// Whether `pos` lies inside one of `pairs`.
fn is_covered(pairs: &Vec<[usize; 2]>, pos: usize) -> (r: bool)
    ensures
        r == covered(pairs_view(pairs@), pos as int),
{
    let mut j: usize = 0;
    while j < pairs.len()
        invariant
            j <= pairs@.len(),
            forall|m: int|
                0 <= m < j ==> !(#[trigger] pairs_view(pairs@)[m].0 <= pos <= pairs_view(
                    pairs@,
                )[m].1),
        decreases pairs@.len() - j,
    {
        let p = pairs[j];
        if pos >= p[0] && pos <= p[1] {
            assert(pairs_view(pairs@)[j as int].0 <= pos <= pairs_view(pairs@)[j as int].1);
            return true;
        }
        j += 1;
    }
    assert forall|m: int| 0 <= m < pairs_view(pairs@).len() implies !(#[trigger] pairs_view(
        pairs@,
    )[m].0 <= pos <= pairs_view(pairs@)[m].1) by {}
    false
}

/// Given an expression `(operator arg arg ...)`, returns its arguments; an argument may
/// itself be a parenthesised expression. For example `(+ 2 (+ 1 1) (* 4 5))` gives
/// `2`, `(+ 1 1)` and `(* 4 5)`. The operator is never returned: `(foo)` has no arguments.
pub fn parse_args(stg: &String) -> (r: Vec<String>)
    requires
        vstd::utf8::is_ascii_chars(stg@),
        stg@.len() >= 2,
        balanced(inner_of(stg@)),
    ensures
        strings_view(r@) == parse_args_spec(stg@),
{
    let len = stg.as_str().unicode_len();
    let inner_str = stg.as_str().substring_char(1, len - 1);
    let inner = String::from_str(inner_str);
    let ghost s = inner@;
    assert(s == inner_of(stg@));
    let n = inner.as_str().unicode_len();
    let mut res: Vec<String> = Vec::new();
    let parentheses = expression_order(&inner);
    let ghost pairs = paren_pairs(s);
    let mut cursor: usize = 1;
    let mut begin_arg: usize = 0;
    assert(strings_view(res@) =~= split_upto(s, pairs, 1).args);
    while cursor < n
        invariant
            s == inner@,
            n == s.len(),
            pairs_view(parentheses@) == pairs,
            pairs == paren_pairs(s),
            1 <= cursor,
            n >= 1 ==> cursor <= n,
            n < 1 ==> cursor == 1,
            begin_arg == split_upto(s, pairs, cursor as int).begin,
            strings_view(res@) == split_upto(s, pairs, cursor as int).args,
        decreases n - cursor,
    {
        proof {
            lemma_split_begin(s, pairs, cursor as int);
        }
        let chr = inner.as_str().get_char(cursor);
        if !is_separator_char(chr) {
            cursor += 1;
        } else if is_covered(&parentheses, cursor) {
            cursor += 1;
        } else {
            // make sure the operator is not taken as an argument
            if begin_arg == 0 {
                begin_arg = cursor;
            } else if cursor > begin_arg {
                let start = if res.len() == 0 {
                    begin_arg + 1
                } else {
                    begin_arg
                };
                let ghost old_res = res@;
                res.push(String::from_str(inner.as_str().substring_char(start, cursor)));
                assert(strings_view(res@) =~= strings_view(old_res).push(
                    s.subrange(start as int, cursor as int),
                ));
                begin_arg = cursor + 1;
            }
            cursor += 1;
        }
    }
    proof {
        lemma_split_begin(s, pairs, cursor as int);
    }
    // the last argument runs to the end of the expression
    if begin_arg != 0 && begin_arg < n {
        let start = if res.len() == 0 {
            begin_arg + 1
        } else {
            begin_arg
        };
        let ghost old_res = res@;
        res.push(String::from_str(inner.as_str().substring_char(start, n)));
        assert(strings_view(res@) =~= strings_view(old_res).push(
            s.subrange(start as int, n as int),
        ));
    }
    res
}

} // verus!
