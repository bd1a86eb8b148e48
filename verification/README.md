# bad_racket

An interpreter for a small Racket-like language of parenthesised expressions:
arithmetic, comparison, boolean operators, `if`, and `define` for variables.

- `src/text.rs`: character classes, trimming, and the recognisers of number and
  boolean literals.
- `src/parsing.rs`: parenthesis matching and the splitting of an expression into
  its arguments.
- `src/table.rs`: the table of defined variables.
- `src/evaluation.rs`: evaluation of expressions and of whole programs, with the
  specification of both.
- `src/session.rs`: what a program file must begin with, and what a line typed
  at the prompt asks for.
- `app/main.rs`: the command-line program (file and prompt input, printing, and
  the floating-point arithmetic).

The library holds no floating-point numbers. Where evaluation needs a
floating-point result (one addition, one comparison, ...) it uses the next of
the answers it was given, or stops with a request naming the operation and its
two (or one) operands; a sum of several numbers is folded one addition at a
time. The program computes the
result, adds it to the answers and evaluates again from the start; since
evaluation is deterministic and uses the answers in order, each round goes
further (see `law_program_answers`).
