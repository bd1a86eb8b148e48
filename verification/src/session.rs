//! The decisions of the interpreter's front end: which files are programs, and what a line
//! typed at the prompt asks for.

use vstd::prelude::*;

use crate::text::{same, trim, trimmed};

verus! {

/// `text` begins with `prefix`.
pub open spec fn starts_with(text: Seq<char>, prefix: Seq<char>) -> bool {
    text.len() >= prefix.len() && text.subrange(0, prefix.len() as int) == prefix
}

fn has_prefix(text: &str, prefix: &str) -> (r: bool)
    ensures
        r == starts_with(text@, prefix@),
{
    let n = text.unicode_len();
    let m = prefix.unicode_len();
    if n < m {
        return false;
    }
    let mut i: usize = 0;
    while i < m
        invariant
            n == text@.len(),
            m == prefix@.len(),
            m <= n,
            i <= m,
            forall|j: int| 0 <= j < i ==> text@[j] == prefix@[j],
        decreases m - i,
    {
        if text.get_char(i) != prefix.get_char(i) {
            assert(text@.subrange(0, m as int)[i as int] != prefix@[i as int]);
            return false;
        }
        i += 1;
    }
    assert(text@.subrange(0, m as int) =~= prefix@);
    true
}

/// Whether the contents of a file are a program this interpreter runs: they must begin with
/// `#lang racket`.
pub fn is_racket_program(text: &str) -> (r: bool)
    ensures
        r == starts_with(text@, "#lang racket"@),
{
    has_prefix(text, "#lang racket")
}

/// What a line typed at the prompt asks for.
pub enum ReplInput {
    /// Leave the prompt.
    Quit,
    /// Evaluate this program (the line, trimmed).
    Program(String),
}

/// Reads a line typed at the prompt: `exit` or `quit` (around blanks) leaves, anything else
/// is a program to evaluate, trimmed.
pub fn read_repl_line(line: &str) -> (r: ReplInput)
    ensures
        (trimmed(line@) == "exit"@ || trimmed(line@) == "quit"@) ==> r is Quit,
        !(trimmed(line@) == "exit"@ || trimmed(line@) == "quit"@) ==> (r matches ReplInput::Program(
            p,
        ) && p@ == trimmed(line@)),
{
    let buffer = trim(line);
    if same(buffer.as_str(), "exit") || same(buffer.as_str(), "quit") {
        ReplInput::Quit
    } else {
        ReplInput::Program(buffer)
    }
}

} // verus!
