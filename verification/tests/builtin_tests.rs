use lish::builtins::apply_builtin;
use lish::env::Env;
use lish::eval;
use lish::reader::read;
use lish::types::{Atom, Builtin, LishErr, LishResult};
use std::cmp::Ordering;

fn run(env: &mut Env, src: &str) -> LishResult {
    let ast = read(src.to_owned())?;
    eval(ast, env, 0)
}

fn run_ok(env: &mut Env, src: &str) -> Atom {
    run(env, src).unwrap()
}

fn err_msg(r: LishResult) -> String {
    match r {
        Err(LishErr(m)) => m,
        Ok(_) => panic!("expected an error"),
    }
}

fn ints(xs: &[i64]) -> Vec<Atom> {
    xs.iter().map(|x| Atom::Int(*x)).collect()
}

#[test]
fn apply_plus() {
    let mut env = Env::new();
    let mut args = vec![Atom::Func(Builtin::Add)];
    args.extend(ints(&[1, 2, 3]));
    assert_eq!(
        apply_builtin(Builtin::Apply, args, &mut env, 16),
        Ok(Atom::Int(6))
    );
}

#[test]
fn apply_lambda() {
    let mut env = Env::new();
    let lambda = Atom::Lambda {
        ast: Box::new(Atom::symbol("x")),
        params: Box::new(Atom::list(Atom::symbol("&"), vec![Atom::symbol("x")])),
        env: 0,
        is_macro: false,
    };
    let mut args = vec![lambda];
    args.extend(ints(&[1, 2, 3]));
    assert_eq!(
        apply_builtin(Builtin::Apply, args, &mut env, 16),
        Ok(Atom::list(Atom::Int(1), ints(&[2, 3])))
    );
}

#[test]
fn apply_int_not_a_function() {
    let mut env = Env::new();
    assert_eq!(
        err_msg(apply_builtin(Builtin::Apply, ints(&[1, 2, 3]), &mut env, 16)),
        "1 is not a function"
    );
}

#[test]
fn cons_int_not_a_list() {
    let mut env = Env::new_repl();
    assert_eq!(
        err_msg(run(&mut env, "(cons 1 2)")),
        "Trying to cons not a list"
    );
}

#[test]
fn first_int_not_a_list() {
    let mut env = Env::new_repl();
    assert_eq!(
        err_msg(run(&mut env, "(first 1)")),
        "Trying to get first of not list"
    );
}

#[test]
fn rest_int_not_a_list() {
    let mut env = Env::new_repl();
    assert_eq!(
        err_msg(run(&mut env, "(rest 1)")),
        "Trying to get rest of not list"
    );
}

#[test]
fn len_int_not_a_list() {
    let mut env = Env::new_repl();
    assert_eq!(
        err_msg(run(&mut env, "(len 1)")),
        "Trying to get len of not list"
    );
}

#[test]
fn read_int() {
    let mut env = Env::new();
    assert_eq!(
        err_msg(apply_builtin(Builtin::Read, ints(&[1]), &mut env, 16)),
        "1 is not a string"
    );
}

#[test]
fn arithmetic_identities() {
    let mut env = Env::new_repl();
    assert_eq!(run_ok(&mut env, "(+)"), Atom::Int(0));
    assert_eq!(run_ok(&mut env, "(*)"), Atom::Int(1));
    assert_eq!(run_ok(&mut env, "(/ 22 3 2)"), Atom::Int(3));
    assert_eq!(run_ok(&mut env, "(- 1 2 3)"), Atom::Int(-4));
}

#[test]
fn arithmetic_edges() {
    let mut env = Env::new_repl();
    assert_eq!(run_ok(&mut env, "(+ 1)"), Atom::Int(1));
    assert_eq!(run_ok(&mut env, "(* 2)"), Atom::Int(2));
    assert_eq!(run_ok(&mut env, "(* 1 2 3)"), Atom::Int(6));
    assert_eq!(run_ok(&mut env, "(/ 1)"), Atom::Int(1));
    assert_eq!(run_ok(&mut env, "(/ 5 2)"), Atom::Int(2));
    assert_eq!(run_ok(&mut env, "(- 1)"), Atom::Int(-1));
    assert_eq!(run_ok(&mut env, "(/ -7 2)"), Atom::Int(-3));
}

#[test]
fn arithmetic_type_error() {
    let mut env = Env::new_repl();
    assert_eq!(
        err_msg(run(&mut env, "(+ 1 true)")),
        "Can't eval (+ 1 true)"
    );
    assert_eq!(err_msg(run(&mut env, "(-)")), "Can't evaluate (-)");
    assert_eq!(err_msg(run(&mut env, "(- \"a\")")), "Can't negate \"a\"");
}

#[test]
fn division_by_zero_is_an_error() {
    let mut env = Env::new_repl();
    assert_eq!(err_msg(run(&mut env, "(/ 1 0)")), "Division by zero");
}

#[test]
fn comparisons_pivot_on_the_first_argument() {
    let mut env = Env::new_repl();
    assert_eq!(run_ok(&mut env, "(< 1 2)"), Atom::Bool(true));
    assert_eq!(run_ok(&mut env, "(< 2 1)"), Atom::Bool(false));
    // every later argument is compared against the first, not chained
    assert_eq!(run_ok(&mut env, "(< 1 5 2)"), Atom::Bool(true));
    assert_eq!(run_ok(&mut env, "(< 2 1 3)"), Atom::Bool(false));
    assert_eq!(run_ok(&mut env, "(<= 1 1)"), Atom::Bool(true));
    assert_eq!(run_ok(&mut env, "(>= 2 2)"), Atom::Bool(true));
    assert_eq!(run_ok(&mut env, "(> 1 2)"), Atom::Bool(false));
    assert_eq!(run_ok(&mut env, "(= 2 2)"), Atom::Bool(true));
    assert_eq!(run_ok(&mut env, "(= 1 2)"), Atom::Bool(false));
    assert_eq!(run_ok(&mut env, "(= 1 true)"), Atom::Bool(false));
}

#[test]
fn floats_never_compare_equal() {
    let mut env = Env::new_repl();
    assert_eq!(run_ok(&mut env, "(= 3.14 3.14)"), Atom::Bool(false));
}

#[test]
fn logic_folds_booleans_only() {
    let mut env = Env::new_repl();
    assert_eq!(run_ok(&mut env, "(and true true)"), Atom::Bool(true));
    assert_eq!(run_ok(&mut env, "(and true false)"), Atom::Bool(false));
    assert_eq!(run_ok(&mut env, "(or false true)"), Atom::Bool(true));
    assert_eq!(run_ok(&mut env, "(or false false)"), Atom::Bool(false));
    assert_eq!(err_msg(run(&mut env, "(and 1)")), "1 is not Bool");
}

#[test]
fn list_operations() {
    let mut env = Env::new_repl();
    assert_eq!(
        run_ok(&mut env, "(cons 1 ())"),
        run_ok(&mut env, "'(1)")
    );
    assert_eq!(
        run_ok(&mut env, "(cons 1 2 '(3 4))"),
        run_ok(&mut env, "'(1 2 3 4)")
    );
    assert_eq!(
        run_ok(&mut env, "(concat () '(1) '(2 3) '(4 5 6 7))"),
        run_ok(&mut env, "'(1 2 3 4 5 6 7)")
    );
    assert_eq!(
        run_ok(&mut env, "(concat '(1 2 3) '(\"a\" \"b\" \"c\"))"),
        run_ok(&mut env, "'(1 2 3 \"a\" \"b\" \"c\")")
    );
    assert_eq!(
        run_ok(&mut env, "(list 1 2 3)"),
        run_ok(&mut env, "'(1 2 3)")
    );
    assert_eq!(run_ok(&mut env, "(first '(1 2 3))"), Atom::Int(1));
    assert_eq!(
        run_ok(&mut env, "(rest '(1 2 3))"),
        run_ok(&mut env, "'(2 3)")
    );
    assert_eq!(run_ok(&mut env, "(rest '(1))"), Atom::Nil);
    assert_eq!(run_ok(&mut env, "(len '(1 2 3))"), Atom::Int(3));
    assert_eq!(
        err_msg(run(&mut env, "(concat 1)")),
        "Trying to concat not list"
    );
}

#[test]
fn predicates() {
    let mut env = Env::new_repl();
    assert_eq!(run_ok(&mut env, "(list? ())"), Atom::Bool(true));
    assert_eq!(run_ok(&mut env, "(list? 1)"), Atom::Bool(false));
    assert_eq!(run_ok(&mut env, "(list? '(1 2 3))"), Atom::Bool(true));
    assert_eq!(run_ok(&mut env, "(empty? ())"), Atom::Bool(true));
    assert_eq!(run_ok(&mut env, "(empty? '(1 2 3))"), Atom::Bool(false));
}

#[test]
fn read_builtin_reinvokes_the_reader() {
    let mut env = Env::new_repl();
    assert_eq!(
        run_ok(&mut env, "(read \"(+ 1 2)\")"),
        run_ok(&mut env, "'(+ 1 2)")
    );
}

#[test]
fn echo_and_join() {
    let mut env = Env::new_repl();
    assert_eq!(run_ok(&mut env, "(echo 1)"), Atom::String("1".to_owned()));
    assert_eq!(
        run_ok(&mut env, "(echo \"a\" \"b\" \"c\")"),
        Atom::String("a b c".to_owned())
    );
    assert_eq!(
        run_ok(&mut env, "(echo \"a\nc\")"),
        Atom::String("a\nc".to_owned())
    );
    assert_eq!(
        run_ok(&mut env, "(join 1 2 3)"),
        Atom::String("123".to_owned())
    );
    assert_eq!(
        run_ok(&mut env, "(join \"a\nc\")"),
        Atom::String("a\nc".to_owned())
    );
    assert_eq!(
        run_ok(&mut env, "(str \"a\" 1)"),
        Atom::String("a1".to_owned())
    );
}

#[test]
fn throw_raises_the_printed_form() {
    let mut env = Env::new_repl();
    assert_eq!(err_msg(run(&mut env, "(throw 1)")), "1");
    assert_eq!(err_msg(run(&mut env, "(throw \"boom\")")), "\"boom\"");
}

#[test]
fn slurp_reads_the_registered_file_table() {
    let mut env = Env::new_repl();
    env.add_file("notes.txt".to_owned(), "hello".to_owned());
    assert_eq!(
        run_ok(&mut env, "(slurp \"notes.txt\")"),
        Atom::String("hello".to_owned())
    );
    assert_eq!(
        err_msg(run(&mut env, "(slurp \"missing.txt\")")),
        "Can't read file 'missing.txt'"
    );
}

#[test]
fn wrapping_arithmetic() {
    let mut env = Env::new_repl();
    assert_eq!(
        run_ok(&mut env, "(+ 9223372036854775807 1)"),
        Atom::Int(i64::MIN)
    );
    assert_eq!(
        run_ok(&mut env, "(- -9223372036854775808 1)"),
        Atom::Int(i64::MAX)
    );
}

#[test]
fn list_type_accessors() {
    let l = lish::types::List::new(Atom::Int(1), vec![Atom::Int(2), Atom::Int(3)]);
    assert_eq!(l.len(), 3);
    assert_eq!(l.iter(), vec![Atom::Int(1), Atom::Int(2), Atom::Int(3)]);
    assert_eq!(*l.get(1), Atom::Int(2));
}

#[test]
fn atom_ordering_is_lexicographic_within_a_kind() {
    assert_eq!(
        Atom::Int(1).partial_cmp(&Atom::Int(2)),
        Some(Ordering::Less)
    );
    assert_eq!(
        Atom::Int(1).partial_cmp(&Atom::Bool(true)),
        None
    );
    assert_eq!(
        Atom::String("ab".to_owned()).partial_cmp(&Atom::String("b".to_owned())),
        Some(Ordering::Less)
    );
    let short = Atom::list(Atom::Int(1), vec![Atom::Int(2)]);
    let long = Atom::list(Atom::Int(1), vec![Atom::Int(2), Atom::Int(3)]);
    assert_eq!(short.partial_cmp(&long), Some(Ordering::Less));
    let bigger = Atom::list(Atom::Int(1), vec![Atom::Int(3)]);
    assert_eq!(short.partial_cmp(&bigger), Some(Ordering::Less));
}

#[test]
fn structural_equality_and_its_exceptions() {
    assert_eq!(
        Atom::list(Atom::Int(1), vec![Atom::Int(2)]),
        Atom::list(Atom::Int(1), vec![Atom::Int(2)])
    );
    assert_ne!(
        Atom::list(Atom::Int(1), vec![Atom::Int(2)]),
        Atom::list(Atom::Int(1), vec![Atom::Int(2), Atom::Int(3)])
    );
    assert_ne!(Atom::Func(Builtin::Add), Atom::Func(Builtin::Add));
    let a = Atom::Float("1.0".to_owned());
    assert_ne!(a.duplicate(), a);
    assert_eq!(Atom::Nil, Atom::Nil);
}
