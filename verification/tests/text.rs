use bad_racket::text::{parses_as_bool, parses_as_float, same, trim};

#[test]
fn float_literals_accepted() {
    for t in [
        "1", "-2.5", "+3", "1e10", "1E-3", "2e+7", ".5", "5.", "0.0", "inf", "-Infinity",
        "NaN", "+nan", "INF", "iNfInItY", "007",
    ] {
        assert!(parses_as_float(t), "{}", t);
    }
}

#[test]
fn float_literals_rejected() {
    for t in [
        "", ".", "e5", "1e", "1.2.3", " 1", "1 ", "abc", "+", "-", "1e+", "infinit", "nana",
        "1x", "--1", "#t", "true", "1e5.0", "..5",
    ] {
        assert!(!parses_as_float(t), "{}", t);
    }
}

#[test]
fn float_literals_agree_with_std() {
    for t in [
        "1", "-2.5", "1e10", ".5", "5.", "inf", "-infinity", "NaN", "", ".", "e5", "1e", "1.2.3",
        " 1", "abc", "+", "1e+", "infinit", "3.14159", "-0", "1E-45", "+.e1", "+.1e1", "1_0",
        "0x10", "1f", "Inf ", "i",
    ] {
        assert_eq!(parses_as_float(t), t.parse::<f64>().is_ok(), "{}", t);
        assert_eq!(parses_as_float(t), t.parse::<f32>().is_ok(), "{}", t);
    }
}

#[test]
fn bool_literals() {
    assert!(parses_as_bool("true"));
    assert!(parses_as_bool("false"));
    assert!(!parses_as_bool("True"));
    assert!(!parses_as_bool("#t"));
    assert!(!parses_as_bool(" true"));
    for t in ["true", "false", "True", "#t", "", "tru"] {
        assert_eq!(parses_as_bool(t), t.parse::<bool>().is_ok());
    }
}

#[test]
fn trim_removes_outer_blanks() {
    assert_eq!(trim("  a b \n"), "a b");
    assert_eq!(trim("\t\r\n"), "");
    assert_eq!(trim("x"), "x");
    assert_eq!(trim("\u{b}\u{c}y\u{c}"), "y");
    assert_eq!(trim("\u{a0}x\u{3000}"), "x");
    for t in [
        "  a b \n", "\t\r\n", "x", "", " (+ 1 2) ", "\u{85}y\u{2028}", "\u{1680}\u{2000}z\u{200a}",
        "\u{202f}\u{205f}w\u{2029}", "\u{200b}v", "\u{1c}u",
    ] {
        assert_eq!(trim(t), t.trim());
    }
}

#[test]
fn same_compares_text() {
    assert!(same("abc", "abc"));
    assert!(!same("abc", "abd"));
    assert!(!same("abc", "ab"));
    assert!(same("", ""));
}
