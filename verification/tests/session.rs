use bad_racket::session::{is_racket_program, read_repl_line, ReplInput};

#[test]
fn racket_programs_start_with_lang_line() {
    assert!(is_racket_program("#lang racket\n(+ 1 2)"));
    assert!(is_racket_program("#lang racket"));
    assert!(!is_racket_program("(+ 1 2)"));
    assert!(!is_racket_program("#lang rack"));
    assert!(!is_racket_program(" #lang racket"));
}

#[test]
fn repl_quits_on_exit_or_quit() {
    assert!(matches!(read_repl_line("exit\n"), ReplInput::Quit));
    assert!(matches!(read_repl_line("  quit  "), ReplInput::Quit));
    assert!(matches!(read_repl_line("exit\u{3000}"), ReplInput::Quit));
    assert!(matches!(read_repl_line("\u{a0}quit\n"), ReplInput::Quit));
}

#[test]
fn repl_trims_programs() {
    match read_repl_line("  (+ 1 2)\n") {
        ReplInput::Program(p) => assert_eq!(p, "(+ 1 2)"),
        ReplInput::Quit => panic!("not a quit"),
    }
    match read_repl_line("exits\n") {
        ReplInput::Program(p) => assert_eq!(p, "exits"),
        ReplInput::Quit => panic!("not a quit"),
    }
}
