use lish::env::Env;
use lish::eval;
use lish::printer::print_debug;
use lish::reader::read;
use lish::types::{Atom, LishErr, LishResult};

fn run(env: &mut Env, src: &str) -> LishResult {
    let ast = read(src.to_owned())?;
    eval(ast, env, 0)
}

fn run_ok(env: &mut Env, src: &str) -> Atom {
    run(env, src).unwrap()
}

fn err_msg(r: LishResult) -> String {
    match r {
        Err(LishErr(m)) => m,
        Ok(a) => panic!("expected an error, got {}", print_debug(&Ok(a))),
    }
}

#[test]
fn symbol_found() {
    let mut env = Env::new();
    env.sets(0, "a", Atom::Int(1));
    assert_eq!(eval(Atom::symbol("a"), &mut env, 0), Ok(Atom::Int(1)));
}

#[test]
fn symbol_not_found() {
    let mut env = Env::new();
    assert_eq!(
        eval(Atom::symbol("a"), &mut env, 0),
        Err(LishErr("Not found 'a'".to_owned()))
    );
}

#[test]
fn list() {
    let mut env = Env::new_repl();
    let r = run_ok(&mut env, "(+ 2 2)");
    assert_eq!(r, Atom::Int(4));
}

#[test]
fn id() {
    let mut env = Env::new();
    assert_eq!(eval(Atom::Int(1), &mut env, 0), Ok(Atom::Int(1)));
}

#[test]
fn quote_0_args() {
    let mut env = Env::new_repl();
    assert_eq!(
        err_msg(run(&mut env, "(quote)")),
        "'quote' requires 1 argument(s), but got 0 in (quote)"
    );
}

#[test]
fn quote_many_args() {
    let mut env = Env::new_repl();
    assert_eq!(
        err_msg(run(&mut env, "(quote a b c 1 2 3)")),
        "'quote' requires 1 argument(s), but got 6 in (quote a b c 1 2 3)"
    );
}

#[test]
fn quasiquoteexpand() {
    let mut env = Env::new_repl();
    let expected = run_ok(&mut env, "'(cons (quote c) (cons c (concat c ())))");
    assert_eq!(
        run_ok(&mut env, "(quasiquoteexpand (c ,c ,@c))"),
        expected
    );
}

#[test]
fn quasiquote() {
    let mut env = Env::new_repl();
    run_ok(&mut env, "(set c '(1 2 3))");
    let expected = run_ok(&mut env, "'(c (1 2 3) 1 2 3)");
    assert_eq!(run_ok(&mut env, "`(c ,c ,@c)"), expected);
}

#[test]
fn set_macro_then_macroexpand() {
    let mut env = Env::new_repl();
    run_ok(&mut env, "(setmacro m (fn (x) `(,x ,x)))");
    let expected = run_ok(&mut env, "'((Y f) (Y f))");
    assert_eq!(run_ok(&mut env, "(macroexpand (m (Y f)))"), expected);
}

#[test]
fn eval_symbol() {
    let mut env = Env::new_repl();
    assert_eq!(
        eval(Atom::symbol("abc"), &mut env, 0),
        Err(LishErr("Not found 'abc'".to_owned()))
    );
}

#[test]
fn eval_string() {
    let mut env = Env::new_repl();
    assert_eq!(
        eval(Atom::String("abc".to_owned()), &mut env, 0),
        Ok(Atom::String("abc".to_owned()))
    );
}

#[test]
fn tco_recur() {
    let mut env = Env::new_repl();
    run_ok(
        &mut env,
        "(set sum (fn (n acc) (if (= n 0) acc (sum (- n 1) (+ n acc)))))",
    );
    assert_eq!(run_ok(&mut env, "(sum 10000 0)"), Atom::Int(50005000));
}

#[test]
fn tco_mutual_recur() {
    let mut env = Env::new_repl();
    run_ok(&mut env, "(set foo (fn (n) (if (= n 0) 0 (bar (- n 1)))))");
    run_ok(&mut env, "(set bar (fn (n) (if (= n 0) 0 (foo (- n 1)))))");
    assert_eq!(run_ok(&mut env, "(foo 10000)"), Atom::Int(0));
}

#[test]
fn set() {
    let mut env = Env::new_repl();
    assert_eq!(run_ok(&mut env, "(set a 2)"), Atom::Int(2));
    assert_eq!(run_ok(&mut env, "(+ a 3)"), Atom::Int(5));
}

#[test]
fn parse_end_of_input() {
    let mut env = Env::new_repl();
    assert_eq!(run_ok(&mut env, "(+ 1 2"), Atom::Int(3));
    assert_eq!(run_ok(&mut env, "(+ 1 2 (+ 3 4"), Atom::Int(10));
    assert_eq!(run_ok(&mut env, "+ 1 2"), Atom::Int(3));
    assert_eq!(run_ok(&mut env, "+ 1 2 (+ 3 4"), Atom::Int(10));
}

#[test]
fn echo() {
    let mut env = Env::new_repl();
    assert_eq!(
        run_ok(&mut env, "echo 92"),
        Atom::String("92".to_owned())
    );
}

#[test]
fn plus() {
    let mut env = Env::new_repl();
    assert_eq!(run_ok(&mut env, "(+ 1 2 3)"), Atom::Int(6));
    assert_eq!(run_ok(&mut env, "(+ 1 2 (+ 1 2))"), Atom::Int(6));
}

#[test]
fn repl_echo() {
    let mut env = Env::new_repl();
    assert_eq!(run_ok(&mut env, "92"), Atom::Int(92));
    // a bare unbound symbol is wrapped into a call and fails its lookup
    assert_eq!(
        err_msg(run(&mut env, "abc")),
        "Not found 'abc'"
    );
    assert_eq!(
        run_ok(&mut env, "\"abc\""),
        Atom::String("abc".to_owned())
    );
}

#[test]
fn repl_plus() {
    let mut env = Env::new_repl();
    assert_eq!(run_ok(&mut env, "(+ 1 2 3)"), Atom::Int(6));
    assert_eq!(run_ok(&mut env, "(+ 1 2 (+ 1 2))"), Atom::Int(6));
}

#[test]
fn quote_is_idempotent_even_when_bound() {
    let mut env = Env::new_repl();
    assert_eq!(run_ok(&mut env, "'x"), Atom::symbol("x"));
    run_ok(&mut env, "(set x 5)");
    assert_eq!(run_ok(&mut env, "'x"), Atom::symbol("x"));
}

#[test]
fn sequential_let_binding_shadows() {
    let mut env = Env::new_repl();
    assert_eq!(run_ok(&mut env, "(let (a 1 b a) b)"), Atom::Int(1));
    run_ok(&mut env, "(set a 2)");
    assert_eq!(run_ok(&mut env, "(let (a 1) a)"), Atom::Int(1));
    assert_eq!(eval(Atom::symbol("a"), &mut env, 0), Ok(Atom::Int(2)));
}

#[test]
fn let_implicit_progn() {
    let mut env = Env::new_repl();
    assert_eq!(run_ok(&mut env, "(let (a 1) 2 3 4 5 a)"), Atom::Int(1));
}

#[test]
fn let_odd_bindings_is_error() {
    let mut env = Env::new_repl();
    assert_eq!(
        err_msg(run(&mut env, "(let (a 1 b) b)")),
        "'let' requires even number of arguments, but got 2 in (let (a 1 b) b)"
    );
}

#[test]
fn let_bindings_not_a_list_is_error() {
    let mut env = Env::new_repl();
    assert_eq!(
        err_msg(run(&mut env, "(let 5 b)")),
        "Let bindings is not a list, but a 5"
    );
}

#[test]
fn progn_evaluates_in_order() {
    let mut env = Env::new_repl();
    assert_eq!(
        run_ok(&mut env, "(progn (set a 92) (+ a 8))"),
        Atom::Int(100)
    );
    assert_eq!(eval(Atom::symbol("a"), &mut env, 0), Ok(Atom::Int(92)));
}

#[test]
fn if_branches() {
    let mut env = Env::new_repl();
    assert_eq!(run_ok(&mut env, "(if true 1 2)"), Atom::Int(1));
    assert_eq!(run_ok(&mut env, "(if false 1 2)"), Atom::Int(2));
    assert_eq!(run_ok(&mut env, "(if true 1)"), Atom::Int(1));
    assert_eq!(run_ok(&mut env, "(if false 1)"), Atom::Nil);
    assert_eq!(run_ok(&mut env, "(if () 1 2)"), Atom::Int(2));
    assert_eq!(run_ok(&mut env, "(if 0 1 2)"), Atom::Int(1));
}

#[test]
fn eval_form_runs_in_root_scope() {
    let mut env = Env::new_repl();
    assert_eq!(run_ok(&mut env, "(eval (+ 2 2))"), Atom::Int(4));
    run_ok(&mut env, "(set prog '(+ 1 2))");
    assert_eq!(run_ok(&mut env, "(eval prog)"), Atom::Int(3));
}

#[test]
fn fn_application() {
    let mut env = Env::new_repl();
    assert_eq!(
        run_ok(&mut env, "((fn (x y) (+ x y)) 1 2)"),
        Atom::Int(3)
    );
}

#[test]
fn fn_double_application() {
    let mut env = Env::new_repl();
    assert_eq!(
        run_ok(&mut env, "((fn (f x) (f (f x))) (fn (x) (* x 2)) 3)"),
        Atom::Int(12)
    );
}

#[test]
fn variadic_rest_parameter() {
    let mut env = Env::new_repl();
    assert_eq!(
        run_ok(&mut env, "((fn (a & r) r) 1 2 3)"),
        run_ok(&mut env, "'(2 3)")
    );
}

#[test]
fn closures_see_later_bindings() {
    let mut env = Env::new_repl();
    run_ok(&mut env, "(set g (fn () captured))");
    run_ok(&mut env, "(set captured 42)");
    assert_eq!(run_ok(&mut env, "(g)"), Atom::Int(42));
}

#[test]
fn setmacro_requires_a_lambda() {
    let mut env = Env::new_repl();
    assert_eq!(
        err_msg(run(&mut env, "(setmacro m 5)")),
        "Macro is not lambda"
    );
}

#[test]
fn applying_a_non_function_is_an_error() {
    let mut env = Env::new_repl();
    assert_eq!(err_msg(run(&mut env, "(1 2 3)")), "1 is not a function");
}

#[test]
fn set_target_must_be_a_symbol() {
    let mut env = Env::new_repl();
    assert_eq!(err_msg(run(&mut env, "(set 5 1)")), "5 is not a symbol");
}

#[test]
fn rep_renders_results_and_errors() {
    let mut env = Env::new_repl();
    assert_eq!(lish::rep("(+ 1 2)".to_owned(), &mut env), "3");
    assert_eq!(
        lish::rep("missing".to_owned(), &mut env),
        "ERROR: Not found 'missing'"
    );
    assert_eq!(lish::rep("\"a\\nb\"".to_owned(), &mut env), "\"a\\nb\"");
}

#[test]
fn load_file_bootstrap() {
    let mut env = Env::new_repl();
    env.add_file("prog.lish".to_owned(), "(set a 40) (+ a 2)".to_owned());
    lish::rep(
        "(set load-file (fn (f) (eval (read (join \"(progn\\n\" (slurp f) \"\\n)\")))))"
            .to_owned(),
        &mut env,
    );
    assert_eq!(
        lish::rep("(load-file \"prog.lish\")".to_owned(), &mut env),
        "42"
    );
}

#[test]
fn print_builtins_buffer_output() {
    let mut env = Env::new_repl();
    assert_eq!(run_ok(&mut env, "(println 1 2 3)"), Atom::Nil);
    assert_eq!(run_ok(&mut env, "(print \"x\")"), Atom::Nil);
    let out = env.take_out();
    assert_eq!(out, vec!["1 2 3\n".to_owned(), "x".to_owned()]);
    assert_eq!(env.take_out(), Vec::<String>::new());
}

#[test]
fn environment_chain_lookup() {
    let mut env = Env::new();
    env.sets(0, "a", Atom::Int(1));
    env.sets(0, "b", Atom::Int(2));
    let child = env.new_frame(Some(0));
    env.sets(child, "a", Atom::Int(10));
    // the child's own binding shadows the root's
    assert_eq!(env.get(child, "a"), Ok(Atom::Int(10)));
    assert_eq!(env.get(child, "b"), Ok(Atom::Int(2)));
    assert_eq!(env.get(0, "a"), Ok(Atom::Int(1)));
    assert_eq!(env.find(child, "a"), Some(child));
    assert_eq!(env.find(child, "b"), Some(0));
    assert_eq!(env.find(child, "zz"), None);
    let grandchild = env.new_frame(Some(child));
    assert_eq!(env.get_root(grandchild), 0);
    // a later binding in a shared frame is seen through old references
    env.sets(0, "c", Atom::Int(7));
    assert_eq!(env.get(grandchild, "c"), Ok(Atom::Int(7)));
}

#[test]
fn rebinding_shadows_in_place() {
    let mut env = Env::new();
    env.sets(0, "a", Atom::Int(1));
    env.sets(0, "a", Atom::Int(2));
    assert_eq!(env.get(0, "a"), Ok(Atom::Int(2)));
}

#[test]
fn special_form_arity_errors_name_the_form() {
    let mut env = Env::new_repl();
    assert_eq!(
        err_msg(run(&mut env, "(fn (x))")),
        "'fn' requires 2 argument(s), but got 1 in (fn (x))"
    );
    assert_eq!(
        err_msg(run(&mut env, "(eval 1 2)")),
        "'eval' requires 1 argument(s), but got 2 in (eval 1 2)"
    );
    assert_eq!(
        err_msg(run(&mut env, "(quasiquoteexpand)")),
        "'quasiquoteexpand' requires 1 argument(s), but got 0 in (quasiquoteexpand)"
    );
}

#[test]
fn runaway_recursion_exhausts_the_depth_budget() {
    let mut env = Env::new_repl();
    run_ok(&mut env, "(set f (fn (n) (+ 1 (f n))))");
    assert_eq!(err_msg(run(&mut env, "(f 0)")), "Too deep recursion");
}

#[test]
fn runaway_tail_recursion_exhausts_the_step_budget() {
    let mut env = Env::new_repl();
    run_ok(&mut env, "(set spin (fn (n) (spin n)))");
    assert_eq!(
        err_msg(run(&mut env, "(spin 0)")),
        "Too many evaluation steps"
    );
}

#[test]
fn collect_reclaims_unreferenced_frames() {
    let mut env = Env::new_repl();
    run_ok(&mut env, "(set sum (fn (n acc) (if (= n 0) acc (sum (- n 1) (+ n acc)))))");
    run_ok(&mut env, "(sum 1000 0)");
    let before = env.frames.len();
    assert!(before > 1000);
    env.collect();
    let after = env.frames.len();
    // the call frames of the finished evaluation are gone; the root and
    // the frame captured by `sum` stay
    assert!(after < before);
    assert!(after >= 1);
    // everything still works, including the kept closure
    assert_eq!(run_ok(&mut env, "(sum 10 0)"), Atom::Int(55));
}

#[test]
fn collect_keeps_captured_frames_alive() {
    let mut env = Env::new_repl();
    run_ok(&mut env, "(set make-adder (fn (n) (fn (x) (+ x n))))");
    run_ok(&mut env, "(set add5 (make-adder 5))");
    env.collect();
    assert_eq!(run_ok(&mut env, "(add5 37)"), Atom::Int(42));
    env.collect();
    assert_eq!(run_ok(&mut env, "(add5 0)"), Atom::Int(5));
}
