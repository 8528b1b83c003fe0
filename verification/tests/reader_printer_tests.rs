use lish::printer::{print, print_debug};
use lish::reader::{read, spaces, string, symbol};
use lish::types::{Atom, LishErr};

fn read_ok(src: &str) -> Atom {
    read(src.to_owned()).unwrap()
}

#[test]
fn literals_read_unwrapped() {
    assert_eq!(read_ok("1"), Atom::Int(1));
    assert_eq!(read_ok("   7   "), Atom::Int(7));
    assert_eq!(read_ok("-12"), Atom::Int(-12));
    assert_eq!(read_ok("true"), Atom::Bool(true));
    assert_eq!(read_ok("false"), Atom::Bool(false));
    assert_eq!(read_ok("\"abc\""), Atom::String("abc".to_owned()));
    // floats never compare equal, so check the stored token directly
    assert!(matches!(read_ok("3.14"), Atom::Float(t) if t == "3.14"));
    assert!(matches!(read_ok("1e3"), Atom::Float(t) if t == "1e3"));
}

#[test]
fn bare_symbols_read_as_calls() {
    assert_eq!(read_ok("+"), Atom::list(Atom::symbol("+"), vec![]));
    assert_eq!(read_ok("abc"), Atom::list(Atom::symbol("abc"), vec![]));
    assert_eq!(read_ok("-abc"), Atom::list(Atom::symbol("-abc"), vec![]));
    assert_eq!(read_ok("->>"), Atom::list(Atom::symbol("->>"), vec![]));
}

#[test]
fn lists_read_structurally() {
    assert_eq!(read_ok("()"), Atom::Nil);
    assert_eq!(read_ok("(   )"), Atom::Nil);
    assert_eq!(read_ok("(())"), Atom::list(Atom::Nil, vec![]));
    assert_eq!(
        read_ok("(set a 2)"),
        Atom::list(
            Atom::symbol("set"),
            vec![Atom::symbol("a"), Atom::Int(2)]
        )
    );
    assert_eq!(
        read_ok("(+ 1 (+ 3 4))"),
        Atom::list(
            Atom::symbol("+"),
            vec![
                Atom::Int(1),
                Atom::list(Atom::symbol("+"), vec![Atom::Int(3), Atom::Int(4)]),
            ]
        )
    );
}

#[test]
fn reader_macros_desugar() {
    assert_eq!(
        read_ok("'a"),
        Atom::list(Atom::symbol("quote"), vec![Atom::symbol("a")])
    );
    assert_eq!(
        read_ok("'(a b)"),
        Atom::list(
            Atom::symbol("quote"),
            vec![Atom::list(Atom::symbol("a"), vec![Atom::symbol("b")])]
        )
    );
    assert_eq!(
        read_ok("`(,a b)"),
        Atom::list(
            Atom::symbol("quasiquote"),
            vec![Atom::list(
                Atom::list(Atom::symbol("unquote"), vec![Atom::symbol("a")]),
                vec![Atom::symbol("b")]
            )]
        )
    );
}

#[test]
fn comments_are_discarded() {
    assert_eq!(read_ok("123 ; such number"), Atom::Int(123));
}

#[test]
fn tolerant_brace_balancing() {
    assert_eq!(read_ok("(+ 1 2"), read_ok("(+ 1 2)"));
    assert_eq!(read_ok("+ 1 2"), read_ok("(+ 1 2)"));
    assert_eq!(read_ok("(+ 1 2 (+ 3 4"), read_ok("(+ 1 2 (+ 3 4))"));
    assert_eq!(
        read_ok("+-curried 1) 3)"),
        read_ok("((+-curried 1) 3)")
    );
    assert_eq!(
        read_ok("load-file \"compose.lish\")"),
        read_ok("(load-file \"compose.lish\")")
    );
}

#[test]
fn reader_errors() {
    assert_eq!(
        read("".to_owned()),
        Err(LishErr("Unexpected end of input".to_owned()))
    );
    assert_eq!(
        read("\"abc".to_owned()),
        Err(LishErr("Unexpected end of input".to_owned()))
    );
    assert_eq!(
        read("\"a\\qb\"".to_owned()),
        Err(LishErr("Malformed escape sequence".to_owned()))
    );
}

#[test]
fn string_escapes_round_trip() {
    assert_eq!(read_ok("\"a\\nb\""), Atom::String("a\nb".to_owned()));
    assert_eq!(read_ok("\"a\\\\b\""), Atom::String("a\\b".to_owned()));
    assert_eq!(read_ok("\"a\\\"b\""), Atom::String("a\"b".to_owned()));
}

#[test]
fn print_forms() {
    assert_eq!(print(&Ok(Atom::Bool(true))), "true");
    assert_eq!(print(&Ok(Atom::Bool(false))), "false");
    assert_eq!(print(&Ok(Atom::Int(92))), "92");
    assert_eq!(print(&Ok(Atom::Int(-5))), "-5");
    assert_eq!(print(&Ok(Atom::Float("3.14".to_owned()))), "3.14");
    assert_eq!(print(&Ok(Atom::Nil)), "()");
    assert_eq!(
        print(&Ok(Atom::list(Atom::Int(1), vec![Atom::Int(2)]))),
        "(1 2)"
    );
    assert_eq!(print(&Ok(Atom::symbol("abc"))), "abc");
    assert_eq!(print(&Err(LishErr("boom".to_owned()))), "ERROR: boom");
}

#[test]
fn test_print_nice() {
    assert_eq!(print(&Ok(Atom::String("\n".to_owned()))), "\n");
}

#[test]
fn print_debug_escapes_strings() {
    assert_eq!(
        print_debug(&Ok(Atom::String("abc".to_owned()))),
        "\"abc\""
    );
    assert_eq!(print_debug(&Ok(Atom::String("\\".to_owned()))), "\"\\\\\"");
    assert_eq!(
        print_debug(&Ok(Atom::String("\\\\".to_owned()))),
        "\"\\\\\\\\\""
    );
    assert_eq!(print_debug(&Ok(Atom::String("\n".to_owned()))), "\"\\n\"");
    assert_eq!(
        print_debug(&Ok(Atom::Func(lish::types::Builtin::Add))),
        "#fn"
    );
}

#[test]
fn literal_round_trip_through_the_debug_printer() {
    let samples = vec![
        Atom::Int(0),
        Atom::Int(42),
        Atom::Int(-42),
        Atom::Int(i64::MAX),
        Atom::Int(i64::MIN),
        Atom::Bool(true),
        Atom::Bool(false),
        Atom::Float("3.14".to_owned()),
        Atom::Float("-2.5e-3".to_owned()),
        Atom::String("plain".to_owned()),
        Atom::String("with \"quotes\" and \\ and \n".to_owned()),
        Atom::String(String::new()),
    ];
    for a in samples {
        let printed = print_debug(&Ok(a.duplicate()));
        let back = read(printed).unwrap();
        // floats never compare equal through `==`; compare tokens instead
        match (&back, &a) {
            (Atom::Float(t1), Atom::Float(t2)) => assert_eq!(t1, t2),
            _ => assert_eq!(back, a),
        }
    }
}

#[test]
fn one_space() {
    assert_eq!(spaces(" "), Some("".to_owned()));
}

#[test]
fn many_spaces() {
    assert_eq!(spaces("         "), Some("".to_owned()));
}

#[test]
fn many_spaces_before_word() {
    assert_eq!(spaces("         abc"), Some("abc".to_owned()));
}

#[test]
fn spaces_and_newlines_before_word() {
    assert_eq!(spaces("   \n\n   \n   \nabc"), Some("abc".to_owned()));
}

#[test]
fn no_spaces_err() {
    assert_eq!(spaces("abc"), None);
}

#[test]
fn symbol_runs() {
    assert_eq!(symbol("abc"), Some(("".to_owned(), "abc".to_owned())));
    assert_eq!(
        symbol("i-am-an-symbol"),
        Some(("".to_owned(), "i-am-an-symbol".to_owned()))
    );
    assert_eq!(
        symbol("compose.lish"),
        Some(("".to_owned(), "compose.lish".to_owned()))
    );
    assert_eq!(
        symbol("not entirely an symbol"),
        Some((" entirely an symbol".to_owned(), "not".to_owned()))
    );
    assert_eq!(
        symbol("!not at all an symbol"),
        Some((" at all an symbol".to_owned(), "!not".to_owned()))
    );
}

#[test]
fn empty_symbol() {
    assert_eq!(symbol(""), None);
}

#[test]
fn not_symbol() {
    assert_eq!(symbol("\""), None);
}

#[test]
fn parse_string() {
    assert_eq!(
        string("\"abc\""),
        Some(("".to_owned(), Atom::String("abc".to_owned())))
    );
    assert_eq!(
        string("\"a b\" rest"),
        Some((" rest".to_owned(), Atom::String("a b".to_owned())))
    );
    assert_eq!(string("abc"), None);
    assert_eq!(string("\"abc"), None);
}

#[test]
fn oversized_integers_fall_through_to_floats() {
    assert!(matches!(
        read_ok("9223372036854775808"),
        Atom::Float(t) if t == "9223372036854775808"
    ));
    assert_eq!(read_ok("9223372036854775807"), Atom::Int(i64::MAX));
    assert_eq!(read_ok("+5"), Atom::Int(5));
    assert_eq!(read_ok("-9223372036854775808"), Atom::Int(i64::MIN));
}
