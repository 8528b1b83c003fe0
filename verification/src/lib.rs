//! A small Lisp-family interpreter: a reader that turns source text into
//! S-expression values, an arena of lexically chained environment frames,
//! a table of native functions, and a trampoline-style evaluator with
//! tail-call elimination, macros and quasiquotation.
//!
//! The evaluator is a loop: tail positions rewrite the expression and the
//! current frame and continue, so deep tail recursion runs in constant
//! stack depth.  Genuine subexpression recursion spends one unit of a
//! depth budget (standing in for the native stack, which unbounded
//! recursion would exhaust), and each trampoline turn spends one unit of a
//! large step budget, so every run provably terminates.  The budgets are
//! observable behaviour: nesting deeper than `EVAL_DEPTH` (1000) non-tail
//! calls returns the error `Too deep recursion`, and an evaluation taking
//! more than `EVAL_STEPS` (1,000,000) tail-position turns returns `Too
//! many evaluation steps`; both are ordinary errors the REPL reports.
use vstd::prelude::*;

pub mod builtins;
pub mod env;
pub mod laws;
pub mod printer;
pub mod semantics;
pub mod reader;
pub mod text;
pub mod types;

use crate::types::{
    Atom, List, Val, LishErr, LishResult, atom_view, atoms_view, lemma_atoms_view, val_envs_ok,
    vals_envs_ok, lemma_vals_envs_ok_pointwise, lemma_val_envs_ok_mono,
};
use crate::env::{Env, env_view, out_view, files_view, env_lookup, env_root, bind_spec, not_found_msg, FrameV, copy_tail};
use crate::printer::{render_val, print_debug, print_atom, int_chars, nat_string};
use crate::builtins::{apply_builtin, err_val_suffix, not_fn_msg};
use crate::reader::{read, read_spec};
use crate::semantics::{
    eval_spec, macroexpand_spec, macroexpand_steps_spec, apply_spec, eval_matches, mx_matches,
    mx_steps_matches, Outcome, done_ok, done_err, set_frames, let_pairs_spec, progn_spec,
    eval_args_spec,
};
use crate::text::append_str;

verus! {

broadcast use vstd::std_specs::vec::group_vec_axioms;

/// The recursion depth budget: how deep subexpression evaluation may nest.
pub const EVAL_DEPTH: u64 = 1000;

/// The trampoline step budget: how many tail-position rewrites one
/// evaluation may take.
pub const EVAL_STEPS: u64 = 1000000;

/// The error reported when the depth budget runs out.
pub open spec fn depth_msg() -> Seq<char> {
    "Too deep recursion"@
}

/// The error reported when the step budget runs out.
pub open spec fn steps_msg() -> Seq<char> {
    "Too many evaluation steps"@
}

/// The arity error of a special form: names the form, the counts, and the
/// offending expression as the printer shows it.
pub open spec fn form_arity_msg(name: Seq<char>, req: int, got: int, form: Val) -> Seq<char> {
    "'"@ + name + "' requires "@ + int_chars(req) + " argument(s), but got "@ + int_chars(got)
        + " in "@ + render_val(form, false)
}

/// The error for a binding target that is not a symbol.
pub open spec fn not_symbol_msg(v: Val) -> Seq<char> {
    render_val(v, true) + " is not a symbol"@
}

/// The error for `let` bindings that are not a list.
pub open spec fn let_not_list_msg(v: Val) -> Seq<char> {
    "Let bindings is not a list, but a "@ + render_val(v, true)
}

/// The error for a `let` binding list of odd length.
pub open spec fn let_odd_msg(got: int, form: Val) -> Seq<char> {
    "'let' requires even number of arguments, but got "@ + int_chars(got) + " in "@ + render_val(
        form,
        true,
    )
}

/// The error for `setmacro` on a value that is not a lambda.
pub open spec fn not_lambda_msg() -> Seq<char> {
    "Macro is not lambda"@
}

/// Whether the expression is a macro call: a list whose head symbol is
/// bound, from frame `fid` outward, to a macro.
pub open spec fn is_macro_call_spec(ev: Seq<FrameV>, fid: int, v: Val) -> bool {
    &&& v matches Val::List(items)
    &&& items.len() >= 1
    &&& items[0] matches Val::Sym(s)
    &&& env_lookup(ev, fid, s) matches Some(m)
    &&& m matches Val::Lambda { is_macro, .. }
    &&& is_macro
}

/// Whether `v` is a list form whose head is the symbol `name`.
pub open spec fn head_is(v: Val, name: Seq<char>) -> bool {
    v matches Val::List(items) && items.len() >= 1 && items[0] == Val::Sym(name)
}

/// The elements of a list value (empty for any other value).
pub open spec fn list_items(v: Val) -> Seq<Val> {
    match v {
        Val::List(items) => items,
        _ => Seq::empty(),
    }
}

/// The quasiquote expansion: `(unquote x)` becomes `x` itself; any other
/// list becomes nested `cons` forms over the expansions of its elements,
/// with a `(splice-unquote x)` element contributing `(concat x rest)`
/// instead; any other template becomes `(quote template)`.
pub open spec fn quasiquote_spec(v: Val) -> Val
    decreases v, 1int, 0int,
{
    match v {
        Val::List(s) => if s.len() >= 2 && s[0] == Val::Sym("unquote"@) {
            s[1]
        } else {
            qq_fold(s, 0)
        },
        _ => Val::List(seq![Val::Sym("quote"@), v]),
    }
}

/// The chain of `cons`/`concat` forms that rebuilds the elements of a
/// quasiquoted list from position `i` on.
pub open spec fn qq_fold(s: Seq<Val>, i: int) -> Val
    decreases s, 0int, s.len() - i,
{
    if !(0 <= i < s.len()) {
        Val::Nil
    } else {
        let rest = qq_fold(s, i + 1);
        match s[i] {
            Val::List(el) => if el.len() >= 2 && el[0] == Val::Sym("splice-unquote"@) {
                Val::List(seq![Val::Sym("concat"@), el[1], rest])
            } else {
                Val::List(seq![Val::Sym("cons"@), quasiquote_spec(s[i]), rest])
            },
            _ => Val::List(seq![Val::Sym("cons"@), quasiquote_spec(s[i]), rest]),
        }
    }
}

/// Quasiquote expansion never introduces a lambda: what is fit for `n`
/// frames stays fit.
pub proof fn lemma_qq_envs_ok(v: Val, n: int)
    requires
        val_envs_ok(v, n),
    ensures
        val_envs_ok(quasiquote_spec(v), n),
    decreases v, 1int, 0int,
{
    match v {
        Val::List(s) => {
            lemma_vals_envs_ok_pointwise(s, n, 0);
            if s.len() >= 2 && s[0] == Val::Sym("unquote"@) {
            } else {
                lemma_qq_fold_envs_ok(s, 0, n);
            }
        },
        _ => {
            lemma_vals_envs_ok_pointwise(seq![Val::Sym("quote"@), v], n, 0);
        },
    }
}

/// `qq_fold` never introduces a lambda either.
pub proof fn lemma_qq_fold_envs_ok(s: Seq<Val>, i: int, n: int)
    requires
        vals_envs_ok(s, n, 0),
    ensures
        val_envs_ok(qq_fold(s, i), n),
    decreases s, 0int, s.len() - i,
{
    if 0 <= i < s.len() {
        lemma_vals_envs_ok_pointwise(s, n, 0);
        lemma_qq_fold_envs_ok(s, i + 1, n);
        let rest = qq_fold(s, i + 1);
        match s[i] {
            Val::List(el) => {
                if el.len() >= 2 && el[0] == Val::Sym("splice-unquote"@) {
                    lemma_vals_envs_ok_pointwise(el, n, 0);
                    lemma_vals_envs_ok_pointwise(seq![Val::Sym("concat"@), el[1], rest], n, 0);
                } else {
                    lemma_qq_envs_ok(s[i], n);
                    lemma_vals_envs_ok_pointwise(
                        seq![Val::Sym("cons"@), quasiquote_spec(s[i]), rest],
                        n,
                        0,
                    );
                }
            },
            _ => {
                lemma_qq_envs_ok(s[i], n);
                lemma_vals_envs_ok_pointwise(
                    seq![Val::Sym("cons"@), quasiquote_spec(s[i]), rest],
                    n,
                    0,
                );
            },
        }
    }
}

/// The arity error of a special form, rendered.
fn err_form_arity(name: &str, req: u64, got: usize, form: &Atom) -> (e: LishErr)
    ensures
        e.0@ == form_arity_msg(name@, req as int, got as int, form@),
{
    let mut m = "'".to_owned();
    append_str(&mut m, name);
    append_str(&mut m, "' requires ");
    let reqs = nat_string(req);
    append_str(&mut m, reqs.as_str());
    append_str(&mut m, " argument(s), but got ");
    let gots = nat_string(got as u64);
    append_str(&mut m, gots.as_str());
    append_str(&mut m, " in ");
    let f = print_atom(form, false);
    append_str(&mut m, f.as_str());
    proof {
        assert(m@ =~= form_arity_msg(name@, req as int, got as int, form@));
    }
    LishErr(m)
}

/// The error for `let` bindings that are not a list, rendered.
fn let_not_list_err(v: &Atom) -> (e: LishErr)
    ensures
        e.0@ == let_not_list_msg(v@),
{
    let mut m = "Let bindings is not a list, but a ".to_owned();
    let f = print_atom(v, true);
    append_str(&mut m, f.as_str());
    proof {
        assert(m@ =~= let_not_list_msg(v@));
    }
    LishErr(m)
}

/// The error for a `let` binding list of odd length, rendered.
fn let_odd_err(got: usize, form: &Atom) -> (e: LishErr)
    ensures
        e.0@ == let_odd_msg(got as int, form@),
{
    let mut m = "'let' requires even number of arguments, but got ".to_owned();
    let gots = nat_string(got as u64);
    append_str(&mut m, gots.as_str());
    append_str(&mut m, " in ");
    let f = print_atom(form, true);
    append_str(&mut m, f.as_str());
    proof {
        assert(m@ =~= let_odd_msg(got as int, form@));
    }
    LishErr(m)
}

/// Whether `a` is the symbol spelled `s`.
fn sym_is(a: &Atom, s: &str) -> (r: bool)
    ensures
        r == (a@ matches Val::Sym(n) && n == s@),
{
    match a {
        Atom::Symbol(x) => x.eq(&s.to_owned()),
        _ => false,
    }
}

/// Whether the expression is a macro call in the given environment.
fn is_macro_call(ast: &Atom, env: &Env, fid: usize) -> (r: bool)
    requires
        env.wf(),
        fid < env.frames@.len(),
    ensures
        r == is_macro_call_spec(env_view(*env), fid as int, ast@),
{
    match ast {
        Atom::List(l) => {
            proof {
                lemma_atoms_view(l.tail);
                assert(ast@ == Val::List(l@));
                assert(l@.len() == l.tail@.len() + 1);
                assert(l@[0] == atom_view(*l.head));
            }
            match &*l.head {
                Atom::Symbol(s) => match env.get(fid, s.as_str()) {
                    Ok(v) => v.is_macro(),
                    Err(_) => false,
                },
                _ => {
                    proof {
                        assert(!(atom_view(*l.head) is Sym));
                    }
                    false
                },
            }
        },
        _ => false,
    }
}

/// Quote: hand the single argument back unevaluated; any other argument
/// count is the arity error naming the counts and the form.
fn do_quote(ast: &Atom, l: &List) -> (r: LishResult)
    requires
        ast@ == Val::List(l@),
    ensures
        match r {
            Ok(a) => l@.len() == 2 && a@ == l@[1],
            Err(e) => l@.len() != 2 && e.0@ == form_arity_msg("quote"@, 1, l@.len() - 1, ast@),
        },
{
    proof {
        lemma_atoms_view(l.tail);
    }
    if l.tail.len() != 1 {
        Err(err_form_arity("quote", 1, l.tail.len(), ast))
    } else {
        Ok(l.tail[0].duplicate())
    }
}

/// Quasiquote-expand the single argument and hand the expansion back
/// without evaluating it.
fn do_qqexpand(ast: &Atom, l: &List) -> (r: LishResult)
    requires
        ast@ == Val::List(l@),
    ensures
        match r {
            Ok(a) => l@.len() == 2 && a@ == quasiquote_spec(l@[1]),
            Err(e) => l@.len() != 2 && e.0@ == form_arity_msg(
                "quasiquoteexpand"@,
                1,
                l@.len() - 1,
                ast@,
            ),
        },
{
    proof {
        lemma_atoms_view(l.tail);
    }
    if l.tail.len() != 1 {
        Err(err_form_arity("quasiquoteexpand", 1, l.tail.len(), ast))
    } else {
        Ok(quasiquote(&l.tail[0]))
    }
}

/// Build the lambda a `fn` form denotes: it captures the current frame,
/// the given parameter specification and the body; forms after the body
/// are ignored.
fn do_fn(ast: &Atom, l: &List, fid: usize) -> (r: LishResult)
    requires
        ast@ == Val::List(l@),
    ensures
        match r {
            Ok(a) => l@.len() >= 3 && a@ == Val::Lambda {
                env: fid as int,
                params: Box::new(l@[1]),
                body: Box::new(l@[2]),
                is_macro: false,
            },
            Err(e) => l@.len() < 3 && e.0@ == form_arity_msg("fn"@, 2, l@.len() - 1, ast@),
        },
{
    proof {
        lemma_atoms_view(l.tail);
    }
    if l.tail.len() < 2 {
        Err(err_form_arity("fn", 2, l.tail.len(), ast))
    } else {
        Ok(
            Atom::Lambda {
                ast: Box::new(l.tail[1].duplicate()),
                params: Box::new(l.tail[0].duplicate()),
                env: fid,
                is_macro: false,
            },
        )
    }
}

/// The quasiquote expansion of a template, as `quasiquote_spec` says.
pub fn quasiquote(ast: &Atom) -> (r: Atom)
    ensures
        r@ == quasiquote_spec(ast@),
    decreases *ast, 1int, 0int,
{
    match ast {
        Atom::List(l) => {
            proof {
                lemma_atoms_view(l.tail);
            }
            let unq = sym_is(&*l.head, "unquote");
            if unq && l.tail.len() >= 1 {
                l.tail[0].duplicate()
            } else {
                qq_items(l, 0)
            }
        },
        other => {
            let mut items: Vec<Atom> = Vec::new();
            items.push(other.duplicate());
            proof {
                lemma_atoms_view(items);
            }
            let r = Atom::list(Atom::symbol("quote"), items);
            proof {
                assert(r@ matches Val::List(s) && s =~= seq![Val::Sym("quote"@), ast@]);
            }
            r
        },
    }
}

/// The `cons`/`concat` chain for the elements of `l` from position `i` on.
fn qq_items(l: &List, i: usize) -> (r: Atom)
    requires
        i <= l@.len(),
    ensures
        r@ == qq_fold(l@, i as int),
    decreases *l, 0int, l@.len() - i,
{
    proof {
        lemma_atoms_view(l.tail);
    }
    if i > l.tail.len() {
        return Atom::Nil;
    }
    let rest = if i == l.tail.len() {
        Atom::Nil
    } else {
        qq_items(l, i + 1)
    };
    proof {
        assert(rest@ == qq_fold(l@, i + 1int));
    }
    let e: &Atom = if i == 0 {
        &*l.head
    } else {
        &l.tail[i - 1]
    };
    proof {
        assert(atom_view(*e) == l@[i as int]);
    }
    let mut splice_arg: Option<Atom> = None;
    match e {
        Atom::List(el) => {
            proof {
                lemma_atoms_view(el.tail);
                assert(atom_view(*e) == Val::List(el@));
                assert(el@.len() == el.tail@.len() + 1);
                assert(el@[0] == atom_view(*el.head));
            }
            let sp = sym_is(&*el.head, "splice-unquote");
            if sp && el.tail.len() >= 1 {
                splice_arg = Some(el.tail[0].duplicate());
                proof {
                    assert(el@[1] == atom_view(el.tail[0]));
                    assert(l@[i as int] matches Val::List(elv) && elv.len() >= 2 && elv[0]
                        == Val::Sym("splice-unquote"@));
                }
            }
        },
        _ => {},
    }
    match splice_arg {
        Some(x) => {
            let ghost xv = x@;
            let mut items: Vec<Atom> = Vec::new();
            items.push(x);
            items.push(rest);
            proof {
                lemma_atoms_view(items);
            }
            let r = Atom::list(Atom::symbol("concat"), items);
            proof {
                assert(r@ matches Val::List(s) && s =~= seq![
                    Val::Sym("concat"@),
                    xv,
                    qq_fold(l@, i + 1int),
                ]);
            }
            r
        },
        None => {
            let qe = quasiquote(e);
            let ghost qv = qe@;
            let mut items: Vec<Atom> = Vec::new();
            items.push(qe);
            items.push(rest);
            proof {
                lemma_atoms_view(items);
            }
            let r = Atom::list(Atom::symbol("cons"), items);
            proof {
                assert(r@ matches Val::List(s) && s =~= seq![
                    Val::Sym("cons"@),
                    qv,
                    qq_fold(l@, i + 1int),
                ]);
            }
            r
        },
    }
}

/// Expand macro calls at the head of `ast`, repeatedly, until the
/// expression is no longer a macro call.  An expression that is not a
/// macro call comes back unchanged, with the environment untouched.
pub fn macroexpand(ast: Atom, env: &mut Env, fid: usize, fuel: u64) -> (r: LishResult)
    requires
        old(env).wf(),
        fid < old(env).frames@.len(),
        val_envs_ok(ast@, env_view(*old(env)).len() as int),
    ensures
        final(env).wf(),
        env_view(*old(env)).len() <= env_view(*final(env)).len(),
        final(env).files == old(env).files,
        r matches Ok(a) ==> val_envs_ok(a@, env_view(*final(env)).len() as int),
        !is_macro_call_spec(env_view(*old(env)), fid as int, ast@) ==> (r matches Ok(a) && a@
            == ast@ && *final(env) == *old(env)),
        mx_matches(r, *old(env), *final(env), ast@, fid as int, fuel as nat),
        r matches Ok(a) ==> !is_macro_call_spec(env_view(*final(env)), fid as int, a@),
    decreases fuel, 3int, 0int,
{
    if !is_macro_call(&ast, env, fid) {
        return Ok(ast);
    }
    macroexpand_steps(ast, env, fid, fuel)
}

/// The expansion loop behind `macroexpand`: one turn of the step budget
/// per expansion.
#[verifier::loop_isolation(false)]
fn macroexpand_steps(ast: Atom, env: &mut Env, fid: usize, fuel: u64) -> (r: LishResult)
    requires
        old(env).wf(),
        fid < old(env).frames@.len(),
        val_envs_ok(ast@, env_view(*old(env)).len() as int),
    ensures
        final(env).wf(),
        env_view(*old(env)).len() <= env_view(*final(env)).len(),
        final(env).files == old(env).files,
        r matches Ok(a) ==> val_envs_ok(a@, env_view(*final(env)).len() as int),
        mx_steps_matches(r, *old(env), *final(env), ast@, fid as int, fuel as nat),
        r matches Ok(a) ==> !is_macro_call_spec(env_view(*final(env)), fid as int, a@),
    decreases fuel, 2int, 0int,
{
    let ghost target = macroexpand_steps_spec(
        ast@,
        env_view(*env),
        out_view(*env),
        files_view(*env),
        fid as int,
        fuel as nat,
        EVAL_STEPS as nat,
    );
    let mut ast = ast;
    let mut steps: u64 = EVAL_STEPS;
    loop
        invariant
            env.wf(),
            fid < env.frames@.len(),
            val_envs_ok(ast@, env_view(*env).len() as int),
            env_view(*old(env)).len() <= env_view(*env).len(),
            env.files == old(env).files,
            target == macroexpand_steps_spec(
                ast@,
                env_view(*env),
                out_view(*env),
                files_view(*old(env)),
                fid as int,
                fuel as nat,
                steps as nat,
            ),
        decreases steps,
    {
        let ghost ast_e = ast@;
        let ghost fr_e = env_view(*env);
        let ghost out_e = out_view(*env);
        let ghost steps_e = steps as nat;
        if steps == 0 {
            return Err(LishErr("Too many evaluation steps".to_owned()));
        }
        if !is_macro_call(&ast, env, fid) {
            return Ok(ast);
        }
        steps = steps - 1;
        let mut next: Atom = Atom::Nil;
        match &ast {
            Atom::List(l) => {
                proof {
                    lemma_atoms_view(l.tail);
                    lemma_vals_envs_ok_pointwise(l@, env_view(*env).len() as int, 0);
                    assert(ast@ == Val::List(l@));
                    assert(list_items(ast@) == l@);
                    assert(l@.len() == l.tail@.len() + 1);
                    assert(l@[0] == atom_view(*l.head));
                }
                match &*l.head {
                    Atom::Symbol(s) => {
                        let mac = match env.get(fid, s.as_str()) {
                            Ok(m) => m,
                            Err(e) => {
                                return Err(e);
                            },
                        };
                        let ghost mv = mac@;
                        match mac {
                            Atom::Lambda { ast: la, params, env: le, is_macro } => {
                                proof {
                                    assert(mv == Val::Lambda {
                                        env: le as int,
                                        params: Box::new((*params)@),
                                        body: Box::new((*la)@),
                                        is_macro,
                                    });
                                }
                                let args = copy_tail(&l.tail, 0);
                                let ghost n1 = env_view(*env).len() as int;
                                proof {
                                    lemma_atoms_view(args);
                                    lemma_atoms_view(l.tail);
                                    assert forall|j: int|
                                        0 <= j < atoms_view(args).len() implies val_envs_ok(
                                        #[trigger] atoms_view(args)[j],
                                        n1,
                                    ) by {
                                        assert(atoms_view(args)[j] == atom_view(l.tail[j]));
                                        assert(atom_view(l.tail[j]) == l@[j + 1]);
                                    }
                                    lemma_vals_envs_ok_pointwise(atoms_view(args), n1, 0);
                                    assert forall|j: int|
                                        0 <= j < atoms_view(args).len() implies #[trigger] atoms_view(
                                        args,
                                    )[j] == l@.skip(1)[j] by {
                                        assert(atoms_view(args)[j] == atom_view(l.tail[j]));
                                        assert(l@.skip(1)[j] == l@[j + 1]);
                                    }
                                    assert(atoms_view(args) =~= l@.skip(1));
                                }
                                let f2 = match env.bind(Some(le), &*params, args) {
                                    Ok(f) => f,
                                    Err(e) => {
                                        return Err(e);
                                    },
                                };
                                if fuel == 0 {
                                    return Err(LishErr("Too deep recursion".to_owned()));
                                }
                                let ghost n2 = env_view(*env).len() as int;
                                proof {
                                    lemma_val_envs_ok_mono((*la)@, n1, n2);
                                }
                                let ghost inner = eval_spec(
                                    (*la)@,
                                    env_view(*env),
                                    out_view(*env),
                                    files_view(*old(env)),
                                    f2 as int,
                                    (fuel - 1) as nat,
                                    EVAL_STEPS as nat,
                                );
                                proof {
                                    assert(files_view(*env) == files_view(*old(env)));
                                    assert(out_view(*env) == out_e);
                                    let bres = bind_spec((*params)@, l@.skip(1));
                                    assert(bres matches Ok(data) && env_view(*env) == fr_e.push(
                                        FrameV { data, outer: Some(le as int) },
                                    ) && f2 == fr_e.len());
                                    assert(macroexpand_steps_spec(
                                        ast_e,
                                        fr_e,
                                        out_e,
                                        files_view(*old(env)),
                                        fid as int,
                                        fuel as nat,
                                        steps_e,
                                    ) == (if inner.result is Err {
                                        inner
                                    } else {
                                        macroexpand_steps_spec(
                                            inner.result->Ok_0,
                                            inner.frames,
                                            inner.out,
                                            files_view(*old(env)),
                                            fid as int,
                                            fuel as nat,
                                            (steps_e - 1) as nat,
                                        )
                                    }));
                                }
                                let ghost pre_eval = *env;
                                match eval_fuel(*la, env, f2, fuel - 1) {
                                    Ok(a2) => {
                                        proof {
                                            assert(files_view(pre_eval) == files_view(*old(env)));
                                            assert(inner.result matches Ok(v) && v == a2@
                                                && env_view(*env) == inner.frames && out_view(
                                                *env,
                                            ) == inner.out);
                                        }
                                        next = a2;
                                    },
                                    Err(e) => {
                                        proof {
                                            assert(files_view(pre_eval) == files_view(*old(env)));
                                            assert(inner.result matches Err(m) && e.0@ == m
                                                && env_view(*env) == inner.frames && out_view(
                                                *env,
                                            ) == inner.out);
                                        }
                                        return Err(e);
                                    },
                                }
                            },
                            _ => {
                                proof {
                                    assert(false);
                                }
                                return Ok(ast);
                            },
                        }
                    },
                    _ => {
                        proof {
                            assert(!(atom_view(*l.head) is Sym));
                            assert(false);
                        }
                        return Ok(ast);
                    },
                }
            },
            _ => {
                proof {
                    assert(!(ast@ is List));
                    assert(false);
                }
                return Ok(ast);
            },
        }
        ast = next;
    }
}

/// Evaluate an expression against the environment, working from frame
/// `fid`, with the given depth budget.
///
/// The contract pins the forms the evaluator resolves without recursing:
/// every non-list atom evaluates to itself except a symbol, which resolves
/// through the environment chain or fails with `Not found '<name>'`; and,
/// unless its head symbol is shadowed by a macro, a `quote` form hands its
/// single argument back (or the exact arity error naming the counts), a
/// `quasiquoteexpand` form hands the quasiquote expansion back, and a `fn`
/// form builds the lambda capturing the current frame.  Whatever happens,
/// the environment stays well-formed, the arena only grows, the file table
/// is untouched, and any result is fit for the final arena.
pub(crate) fn eval_fuel(ast: Atom, env: &mut Env, fid: usize, fuel: u64) -> (r: LishResult)
    requires
        old(env).wf(),
        fid < old(env).frames@.len(),
        val_envs_ok(ast@, env_view(*old(env)).len() as int),
    ensures
        final(env).wf(),
        env_view(*old(env)).len() <= env_view(*final(env)).len(),
        final(env).files == old(env).files,
        r matches Ok(a) ==> val_envs_ok(a@, env_view(*final(env)).len() as int),
        (ast@ is Int || ast@ is Bool || ast@ is Float || ast@ is Str || ast@ is Func || ast@
            is Lambda) ==> (r matches Ok(a) && a@ == ast@ && *final(env) == *old(env)),
        ast@ is Nil ==> (r matches Ok(a) && a@ == Val::Nil && *final(env) == *old(env)),
        ast@ matches Val::Sym(s) ==> (*final(env) == *old(env) && (match env_lookup(
            env_view(*old(env)),
            fid as int,
            s,
        ) {
            Some(v) => r matches Ok(a) && a@ == v,
            None => r matches Err(e) && e.0@ == not_found_msg(s),
        })),
        (head_is(ast@, "quote"@) && !is_macro_call_spec(env_view(*old(env)), fid as int, ast@))
            ==> ({
            let items = list_items(ast@);
            &&& *final(env) == *old(env)
            &&& (match r {
                Ok(a) => items.len() == 2 && a@ == items[1],
                Err(e) => items.len() != 2 && e.0@ == form_arity_msg(
                    "quote"@,
                    1,
                    items.len() - 1,
                    ast@,
                ),
            })
        }),
        (head_is(ast@, "quasiquoteexpand"@) && !is_macro_call_spec(
            env_view(*old(env)),
            fid as int,
            ast@,
        )) ==> ({
            let items = list_items(ast@);
            &&& *final(env) == *old(env)
            &&& (match r {
                Ok(a) => items.len() == 2 && a@ == quasiquote_spec(items[1]),
                Err(e) => items.len() != 2 && e.0@ == form_arity_msg(
                    "quasiquoteexpand"@,
                    1,
                    items.len() - 1,
                    ast@,
                ),
            })
        }),
        (head_is(ast@, "fn"@) && !is_macro_call_spec(env_view(*old(env)), fid as int, ast@)) ==> ({
            let items = list_items(ast@);
            &&& *final(env) == *old(env)
            &&& (match r {
                Ok(a) => items.len() >= 3 && a@ == Val::Lambda {
                    env: fid as int,
                    params: Box::new(items[1]),
                    body: Box::new(items[2]),
                    is_macro: false,
                },
                Err(e) => items.len() < 3 && e.0@ == form_arity_msg(
                    "fn"@,
                    2,
                    items.len() - 1,
                    ast@,
                ),
            })
        }),
        eval_matches(r, *old(env), *final(env), ast@, fid as int, fuel as nat),
    decreases fuel, 5int, 0int,
{
    let ghost fv0 = files_view(*env);
    let ghost target = eval_spec(
        ast@,
        env_view(*env),
        out_view(*env),
        fv0,
        fid as int,
        fuel as nat,
        EVAL_STEPS as nat,
    );
    let mc = is_macro_call(&ast, env, fid);
    if !mc {
        proof {
            assert(macroexpand_spec(
                ast@,
                env_view(*env),
                out_view(*env),
                fv0,
                fid as int,
                fuel as nat,
            ) == done_ok(ast@, env_view(*env), out_view(*env)));
        }
        match &ast {
            Atom::Nil => {
                proof {
                    assert(target == done_ok(Val::Nil, env_view(*env), out_view(*env)));
                }
                return Ok(Atom::Nil);
            },
            Atom::Symbol(s) => {
                proof {
                    assert(target == (match env_lookup(env_view(*env), fid as int, s@) {
                        Some(v) => done_ok(v, env_view(*env), out_view(*env)),
                        None => done_err(not_found_msg(s@), env_view(*env), out_view(*env)),
                    }));
                }
                return env.get(fid, s.as_str());
            },
            Atom::List(l) => {
                proof {
                    lemma_atoms_view(l.tail);
                    lemma_vals_envs_ok_pointwise(l@, env_view(*env).len() as int, 0);
                    assert(ast@ == Val::List(l@));
                    assert(l@.len() == l.tail@.len() + 1);
                    assert(l@[0] == atom_view(*l.head));
                    reveal_strlit("quote");
                    reveal_strlit("quasiquoteexpand");
                    reveal_strlit("fn");
                }
                if sym_is(&*l.head, "quote") {
                    proof {
                        assert("quote"@.len() == 5);
                        assert("quasiquoteexpand"@.len() == 16);
                        assert("quote"@ != "quasiquoteexpand"@);
                        assert(!head_is(ast@, "quasiquoteexpand"@));
                        assert(!head_is(ast@, "fn"@));
                        assert(target == (if l@.len() == 2 {
                            done_ok(l@[1], env_view(*env), out_view(*env))
                        } else {
                            done_err(
                                form_arity_msg("quote"@, 1, l@.len() - 1, ast@),
                                env_view(*env),
                                out_view(*env),
                            )
                        }));
                    }
                    return do_quote(&ast, l);
                }
                if sym_is(&*l.head, "quasiquoteexpand") {
                    proof {
                        assert(target == (if l@.len() == 2 {
                            done_ok(quasiquote_spec(l@[1]), env_view(*env), out_view(*env))
                        } else {
                            done_err(
                                form_arity_msg("quasiquoteexpand"@, 1, l@.len() - 1, ast@),
                                env_view(*env),
                                out_view(*env),
                            )
                        }));
                    }
                    let r = do_qqexpand(&ast, l);
                    proof {
                        assert("fn"@.len() == 2);
                        assert(!head_is(ast@, "quote"@));
                        assert(!head_is(ast@, "fn"@));
                        match &r {
                            Ok(a) => {
                                lemma_qq_envs_ok(l@[1], env_view(*env).len() as int);
                            },
                            Err(_) => {},
                        }
                    }
                    return r;
                }
                if sym_is(&*l.head, "fn") {
                    proof {
                        assert(!head_is(ast@, "quote"@));
                        assert(!head_is(ast@, "quasiquoteexpand"@));
                        assert(target == (if l@.len() >= 3 {
                            done_ok(
                                Val::Lambda {
                                    env: fid as int,
                                    params: Box::new(l@[1]),
                                    body: Box::new(l@[2]),
                                    is_macro: false,
                                },
                                env_view(*env),
                                out_view(*env),
                            )
                        } else {
                            done_err(
                                form_arity_msg("fn"@, 2, l@.len() - 1, ast@),
                                env_view(*env),
                                out_view(*env),
                            )
                        }));
                    }
                    return do_fn(&ast, l, fid);
                }
                proof {
                    assert(!head_is(ast@, "quote"@));
                    assert(!head_is(ast@, "quasiquoteexpand"@));
                    assert(!head_is(ast@, "fn"@));
                }
            },
            _ => {
                proof {
                    assert(target == done_ok(ast@, env_view(*env), out_view(*env)));
                }
                return Ok(ast);
            },
        }
    }
    eval_loop(ast, env, fid, fuel)
}

/// The lengths and first characters of the special-form names: enough to
/// tell any two of them apart.
proof fn lemma_form_names()
    ensures
        "quote"@.len() == 5,
        "quasiquoteexpand"@.len() == 16,
        "fn"@.len() == 2,
        "quasiquote"@.len() == 10,
        "macroexpand"@.len() == 11,
        "set"@.len() == 3,
        "setmacro"@.len() == 8,
        "let"@.len() == 3,
        "progn"@.len() == 5,
        "if"@.len() == 2,
        "eval"@.len() == 4,
        "quote"@[0] == 'q',
        "progn"@[0] == 'p',
        "set"@[0] == 's',
        "let"@[0] == 'l',
        "fn"@[0] == 'f',
        "if"@[0] == 'i',
{
    reveal_strlit("quote");
    reveal_strlit("quasiquoteexpand");
    reveal_strlit("fn");
    reveal_strlit("quasiquote");
    reveal_strlit("macroexpand");
    reveal_strlit("set");
    reveal_strlit("setmacro");
    reveal_strlit("let");
    reveal_strlit("progn");
    reveal_strlit("if");
    reveal_strlit("eval");
}

/// What one trampoline turn hands back: a finished outcome, or the next
/// expression and frame to continue with in tail position.
pub enum StepOut {
    Done(LishResult),
    Tail(Atom, usize),
}

/// A turn handled a form correctly: a finished outcome agrees with the
/// evaluation relation, and a tail hand-off continues it with one step
/// spent.
pub open spec fn step_matches(
    r: StepOut,
    pre: Env,
    post: Env,
    ast: Val,
    fid: int,
    fuel: nat,
    steps_e: nat,
) -> bool {
    let o = eval_spec(ast, env_view(pre), out_view(pre), files_view(pre), fid, fuel, steps_e);
    match r {
        StepOut::Done(res) => crate::semantics::outcome_matches(res, post, o),
        StepOut::Tail(na, nf) => (nf as int) < env_view(post).len() && val_envs_ok(
            na@,
            env_view(post).len() as int,
        ) && o == eval_spec(
            na@,
            env_view(post),
            out_view(post),
            files_view(pre),
            nf as int,
            fuel,
            (steps_e - 1) as nat,
        ),
    }
}

/// One trampoline turn for the `set` form; hands back either the finished
/// outcome or the tail expression and frame to continue with.
#[verifier::rlimit(100)]
fn step_set(ast: &Atom, l: &List, env: &mut Env, fid: usize, fuel: u64, Ghost(steps_e): Ghost<nat>) -> (r: StepOut)
    requires
        old(env).wf(),
        fid < old(env).frames@.len(),
        val_envs_ok(ast@, env_view(*old(env)).len() as int),
        ast@ == Val::List(l@),
        l@.len() >= 1,
        steps_e >= 1,
        !is_macro_call_spec(env_view(*old(env)), fid as int, ast@),
        l@[0] == Val::Sym("set"@),
    ensures
        final(env).wf(),
        env_view(*old(env)).len() <= env_view(*final(env)).len(),
        final(env).files == old(env).files,
        (match r {
            StepOut::Done(res) => res matches Ok(a) ==> val_envs_ok(
                a@,
                env_view(*final(env)).len() as int,
            ),
            StepOut::Tail(na, nf) => true,
        }),
        step_matches(r, *old(env), *final(env), ast@, fid as int, fuel as nat, steps_e),
    decreases fuel, 2int, 0int,
{
    let ghost hfr = env_view(*env);
    let ghost hout = out_view(*env);
    let ghost hfv = files_view(*env);
    let ghost hfid = fid as int;
    let ghost htarget = eval_spec(ast@, hfr, hout, hfv, hfid, fuel as nat, steps_e);
    proof {
        assert(macroexpand_spec(ast@, hfr, hout, hfv, hfid, fuel as nat) == done_ok(
            ast@,
            hfr,
            hout,
        ));
        lemma_atoms_view(l.tail);
        lemma_vals_envs_ok_pointwise(l@, env_view(*env).len() as int, 0);
        assert(l@.len() == l.tail@.len() + 1);
        assert(l@[0] == atom_view(*l.head));
        lemma_form_names();
        assert(l@[0] != Val::Sym("quote"@));
        assert(l@[0] != Val::Sym("quasiquoteexpand"@));
        assert(l@[0] != Val::Sym("fn"@));
        assert(l@[0] != Val::Sym("quasiquote"@));
        assert(l@[0] != Val::Sym("macroexpand"@));
    }
    let nargs = l.tail.len();
    if nargs != 2 {
        proof {
            assert(htarget == done_err(
                form_arity_msg("set"@, 2, l@.len() - 1, ast@),
                hfr,
                hout,
            ));
        }
        return StepOut::Done(Err(err_form_arity("set", 2, nargs, ast)));
    }
    let name = match &l.tail[0] {
        Atom::Symbol(s) => s.clone(),
        other => {
            proof {
                assert(other@ == l@[1]);
                assert(htarget == done_err(not_symbol_msg(l@[1]), hfr, hout));
            }
            return StepOut::Done(Err(err_val_suffix(other, " is not a symbol")));
        },
    };
    proof {
        assert(l@[1] == Val::Sym(name@));
    }
    let expr = l.tail[1].duplicate();
    if fuel == 0 {
        proof {
            assert(htarget == done_err(depth_msg(), hfr, hout));
        }
        return StepOut::Done(Err(LishErr("Too deep recursion".to_owned())));
    }
    let ghost inner = eval_spec(
        l@[2],
        hfr,
        hout,
        hfv,
        hfid,
        (fuel - 1) as nat,
        EVAL_STEPS as nat,
    );
    proof {
        assert(expr@ == l@[2]);
        assert(htarget == (match inner.result {
            Err(m) => inner,
            Ok(v2) => done_ok(
                v2,
                set_frames(inner.frames, hfid, name@, v2),
                inner.out,
            ),
        }));
    }
    let v = match eval_fuel(expr, env, fid, fuel - 1) {
        Ok(v) => v,
        Err(e) => {
            return StepOut::Done(Err(e));
        },
    };
    proof {
        assert(inner.result matches Ok(x) && x == v@ && env_view(*env)
            == inner.frames && out_view(*env) == inner.out);
    }
    let rv = env.set(fid, name.as_str(), v);
    proof {
        assert(env_view(*env) == set_frames(inner.frames, hfid, name@, v@));
    }
    return StepOut::Done(Ok(rv));
}

/// One trampoline turn for the `setmacro` form; hands back either the finished
/// outcome or the tail expression and frame to continue with.
#[verifier::rlimit(100)]
fn step_setmacro(ast: &Atom, l: &List, env: &mut Env, fid: usize, fuel: u64, Ghost(steps_e): Ghost<nat>) -> (r: StepOut)
    requires
        old(env).wf(),
        fid < old(env).frames@.len(),
        val_envs_ok(ast@, env_view(*old(env)).len() as int),
        ast@ == Val::List(l@),
        l@.len() >= 1,
        steps_e >= 1,
        !is_macro_call_spec(env_view(*old(env)), fid as int, ast@),
        l@[0] == Val::Sym("setmacro"@),
    ensures
        final(env).wf(),
        env_view(*old(env)).len() <= env_view(*final(env)).len(),
        final(env).files == old(env).files,
        (match r {
            StepOut::Done(res) => res matches Ok(a) ==> val_envs_ok(
                a@,
                env_view(*final(env)).len() as int,
            ),
            StepOut::Tail(na, nf) => true,
        }),
        step_matches(r, *old(env), *final(env), ast@, fid as int, fuel as nat, steps_e),
    decreases fuel, 2int, 0int,
{
    let ghost hfr = env_view(*env);
    let ghost hout = out_view(*env);
    let ghost hfv = files_view(*env);
    let ghost hfid = fid as int;
    let ghost htarget = eval_spec(ast@, hfr, hout, hfv, hfid, fuel as nat, steps_e);
    proof {
        assert(macroexpand_spec(ast@, hfr, hout, hfv, hfid, fuel as nat) == done_ok(
            ast@,
            hfr,
            hout,
        ));
        lemma_atoms_view(l.tail);
        lemma_vals_envs_ok_pointwise(l@, env_view(*env).len() as int, 0);
        assert(l@.len() == l.tail@.len() + 1);
        assert(l@[0] == atom_view(*l.head));
        lemma_form_names();
        assert(l@[0] != Val::Sym("quote"@));
        assert(l@[0] != Val::Sym("quasiquoteexpand"@));
        assert(l@[0] != Val::Sym("fn"@));
        assert(l@[0] != Val::Sym("quasiquote"@));
        assert(l@[0] != Val::Sym("macroexpand"@));
        assert(l@[0] != Val::Sym("set"@));
    }
    let nargs = l.tail.len();
    if nargs != 2 {
        proof {
            assert(htarget == done_err(
                form_arity_msg("setmacro"@, 2, l@.len() - 1, ast@),
                hfr,
                hout,
            ));
        }
        return StepOut::Done(Err(err_form_arity("setmacro", 2, nargs, ast)));
    }
    let name = match &l.tail[0] {
        Atom::Symbol(s) => s.clone(),
        other => {
            proof {
                assert(other@ == l@[1]);
                assert(htarget == done_err(not_symbol_msg(l@[1]), hfr, hout));
            }
            return StepOut::Done(Err(err_val_suffix(other, " is not a symbol")));
        },
    };
    proof {
        assert(l@[1] == Val::Sym(name@));
    }
    let expr = l.tail[1].duplicate();
    if fuel == 0 {
        proof {
            assert(htarget == done_err(depth_msg(), hfr, hout));
        }
        return StepOut::Done(Err(LishErr("Too deep recursion".to_owned())));
    }
    let ghost inner = eval_spec(
        l@[2],
        hfr,
        hout,
        hfv,
        hfid,
        (fuel - 1) as nat,
        EVAL_STEPS as nat,
    );
    proof {
        assert(expr@ == l@[2]);
        assert(htarget == (match inner.result {
            Err(m) => inner,
            Ok(v2) => match v2 {
                Val::Lambda { env: le2, params: ps2, body: b2, is_macro: im2 } => {
                    let mac = Val::Lambda {
                        env: le2,
                        params: ps2,
                        body: b2,
                        is_macro: true,
                    };
                    done_ok(
                        mac,
                        set_frames(inner.frames, hfid, name@, mac),
                        inner.out,
                    )
                },
                _ => done_err(not_lambda_msg(), inner.frames, inner.out),
            },
        }));
    }
    let v = match eval_fuel(expr, env, fid, fuel - 1) {
        Ok(v) => v,
        Err(e) => {
            return StepOut::Done(Err(e));
        },
    };
    proof {
        assert(inner.result matches Ok(x) && x == v@ && env_view(*env)
            == inner.frames && out_view(*env) == inner.out);
    }
    let ghost vv = v@;
    match v {
        Atom::Lambda { ast: la, params, env: le, is_macro } => {
            proof {
                assert(vv == Val::Lambda {
                    env: le as int,
                    params: Box::new((*params)@),
                    body: Box::new((*la)@),
                    is_macro,
                });
            }
            let m = Atom::Lambda { ast: la, params, env: le, is_macro: true };
            let rv = env.set(fid, name.as_str(), m);
            proof {
                assert(env_view(*env) == set_frames(
                    inner.frames,
                    hfid,
                    name@,
                    rv@,
                ));
            }
            return StepOut::Done(Ok(rv));
        },
        _ => {
            return StepOut::Done(Err(LishErr("Macro is not lambda".to_owned())));
        },
    }
}

/// One trampoline turn for the `let` form; hands back either the finished
/// outcome or the tail expression and frame to continue with.
#[verifier::rlimit(100)]
#[verifier::loop_isolation(false)]
fn step_let(ast: &Atom, l: &List, env: &mut Env, fid: usize, fuel: u64, Ghost(steps_e): Ghost<nat>) -> (r: StepOut)
    requires
        old(env).wf(),
        fid < old(env).frames@.len(),
        val_envs_ok(ast@, env_view(*old(env)).len() as int),
        ast@ == Val::List(l@),
        l@.len() >= 1,
        steps_e >= 1,
        !is_macro_call_spec(env_view(*old(env)), fid as int, ast@),
        l@[0] == Val::Sym("let"@),
    ensures
        final(env).wf(),
        env_view(*old(env)).len() <= env_view(*final(env)).len(),
        final(env).files == old(env).files,
        (match r {
            StepOut::Done(res) => res matches Ok(a) ==> val_envs_ok(
                a@,
                env_view(*final(env)).len() as int,
            ),
            StepOut::Tail(na, nf) => true,
        }),
        step_matches(r, *old(env), *final(env), ast@, fid as int, fuel as nat, steps_e),
    decreases fuel, 2int, 0int,
{
    let ghost hfr = env_view(*env);
    let ghost hout = out_view(*env);
    let ghost hfv = files_view(*env);
    let ghost hfid = fid as int;
    let ghost htarget = eval_spec(ast@, hfr, hout, hfv, hfid, fuel as nat, steps_e);
    proof {
        assert(macroexpand_spec(ast@, hfr, hout, hfv, hfid, fuel as nat) == done_ok(
            ast@,
            hfr,
            hout,
        ));
        lemma_atoms_view(l.tail);
        lemma_vals_envs_ok_pointwise(l@, env_view(*env).len() as int, 0);
        assert(l@.len() == l.tail@.len() + 1);
        assert(l@[0] == atom_view(*l.head));
        lemma_form_names();
        assert(l@[0] != Val::Sym("quote"@));
        assert(l@[0] != Val::Sym("quasiquoteexpand"@));
        assert(l@[0] != Val::Sym("fn"@));
        assert(l@[0] != Val::Sym("quasiquote"@));
        assert(l@[0] != Val::Sym("macroexpand"@));
        assert(l@[0] != Val::Sym("set"@));
        assert(l@[0] != Val::Sym("setmacro"@));
    }
    let nargs = l.tail.len();
    if nargs == 0 {
        proof {
            assert(htarget == done_err(
                form_arity_msg("let"@, 2, 0, ast@),
                hfr,
                hout,
            ));
        }
        return StepOut::Done(Err(err_form_arity("let", 2, 0, ast)));
    }
    let mut let_fid: usize = 0;
    match &l.tail[0] {
        Atom::List(bl) => {
            proof {
                lemma_atoms_view(bl.tail);
                assert(l@[1] == atom_view(l.tail[0]));
                assert(l@[1] == Val::List(bl@));
                assert(bl@.len() == bl.tail@.len() + 1);
            }
            if bl.tail.len() % 2 != 1 {
                proof {
                    assert(htarget == done_err(
                        let_odd_msg(l@.len() - 1, ast@),
                        hfr,
                        hout,
                    ));
                }
                return StepOut::Done(Err(let_odd_err(nargs, ast)));
            }
            let ghost n_before_frame = env_view(*env).len() as int;
            let lf = env.new_frame(Some(fid));
            proof {
                lemma_val_envs_ok_mono(
                    ast@,
                    n_before_frame,
                    env_view(*env).len() as int,
                );
                assert(env_view(*env) == hfr.push(
                    FrameV { data: Seq::empty(), outer: Some(hfid) },
                ));
            }
            let npairs = bl.tail.len() / 2 + 1;
            let ghost lp_target = let_pairs_spec(
                bl@,
                0,
                npairs as int,
                env_view(*env),
                hout,
                hfv,
                lf as int,
                fuel as nat,
            );
            proof {
                assert(npairs as int == bl@.len() / 2);
                assert(htarget == (match lp_target {
                    Err(o) => o,
                    Ok(st) => eval_spec(
                        Val::List(seq![Val::Sym("progn"@)] + l@.skip(2)),
                        st.0,
                        st.1,
                        hfv,
                        lf as int,
                        fuel as nat,
                        (steps_e - 1) as nat,
                    ),
                }));
            }
            let mut p: usize = 0;
            while p < npairs
                invariant
                    env.wf(),
                    lf < env.frames@.len(),
                    fid < env.frames@.len(),
                    env_view(*old(env)).len() <= env_view(*env).len(),
                    env.files == old(env).files,
                    hfv == files_view(*env),
                    2 * npairs == bl@.len(),
                    bl@.len() - 1 <= usize::MAX,
                    p <= npairs,
                    val_envs_ok(ast@, env_view(*env).len() as int),
                    ast@ == Val::List(l@),
                    l@.len() >= 2,
                    l@[1] == Val::List(bl@),
                    lp_target == let_pairs_spec(
                        bl@,
                        p as int,
                        npairs as int,
                        env_view(*env),
                        out_view(*env),
                        hfv,
                        lf as int,
                        fuel as nat,
                    ),
                decreases npairs - p,
            {
                proof {
                    lemma_atoms_view(bl.tail);
                    lemma_vals_envs_ok_pointwise(
                        l@,
                        env_view(*env).len() as int,
                        0,
                    );
                    lemma_vals_envs_ok_pointwise(
                        bl@,
                        env_view(*env).len() as int,
                        0,
                    );
                    assert(val_envs_ok(l@[1], env_view(*env).len() as int));
                }
                let ghost pfr_e = env_view(*env);
                let ghost pout_e = out_view(*env);
                let name = match bl.get(2 * p) {
                    Atom::Symbol(s) => s.clone(),
                    other => {
                        proof {
                            assert(other@ == bl@[2 * p]);
                            assert(lp_target == Err::<
                                (Seq<FrameV>, Seq<Seq<char>>),
                                Outcome,
                            >(done_err(not_symbol_msg(bl@[2 * p]), pfr_e, pout_e)));
                        }
                        return StepOut::Done(Err(err_val_suffix(other, " is not a symbol")));
                    },
                };
                proof {
                    assert(bl@[2 * p] == Val::Sym(name@));
                }
                let expr = bl.get(2 * p + 1).duplicate();
                proof {
                    assert(expr@ == bl@[2 * p + 1int]);
                }
                if fuel == 0 {
                    proof {
                        assert(lp_target == Err::<
                            (Seq<FrameV>, Seq<Seq<char>>),
                            Outcome,
                        >(done_err(depth_msg(), pfr_e, pout_e)));
                    }
                    return StepOut::Done(Err(LishErr("Too deep recursion".to_owned())));
                }
                let ghost nb = env_view(*env).len() as int;
                let ghost inner = eval_spec(
                    bl@[2 * p + 1],
                    pfr_e,
                    pout_e,
                    hfv,
                    lf as int,
                    (fuel - 1) as nat,
                    EVAL_STEPS as nat,
                );
                proof {
                    assert(let_pairs_spec(
                        bl@,
                        p as int,
                        npairs as int,
                        pfr_e,
                        pout_e,
                        hfv,
                        lf as int,
                        fuel as nat,
                    ) == (match inner.result {
                        Err(m) => Err::<(Seq<FrameV>, Seq<Seq<char>>), Outcome>(
                            inner,
                        ),
                        Ok(v2) => let_pairs_spec(
                            bl@,
                            p + 1,
                            npairs as int,
                            set_frames(inner.frames, lf as int, name@, v2),
                            inner.out,
                            hfv,
                            lf as int,
                            fuel as nat,
                        ),
                    }));
                }
                let v = match eval_fuel(expr, env, lf, fuel - 1) {
                    Ok(v) => v,
                    Err(e) => {
                        return StepOut::Done(Err(e));
                    },
                };
                proof {
                    assert(inner.result matches Ok(x) && x == v@ && env_view(*env)
                        == inner.frames && out_view(*env) == inner.out);
                    lemma_val_envs_ok_mono(
                        ast@,
                        nb,
                        env_view(*env).len() as int,
                    );
                }
                env.set(lf, name.as_str(), v);
                proof {
                    assert(env_view(*env) == set_frames(
                        inner.frames,
                        lf as int,
                        name@,
                        v@,
                    ));
                }
                p += 1;
            }
            proof {
                assert(lp_target == Ok::<(Seq<FrameV>, Seq<Seq<char>>), Outcome>(
                    (env_view(*env), out_view(*env)),
                ));
            }
            let_fid = lf;
        },
        other => {
            proof {
                assert(other@ == l@[1]);
                assert(htarget == done_err(let_not_list_msg(l@[1]), hfr, hout));
            }
            return StepOut::Done(Err(let_not_list_err(other)));
        },
    }
    proof {
        lemma_atoms_view(l.tail);
        lemma_vals_envs_ok_pointwise(l@, env_view(*env).len() as int, 0);
    }
    let body = copy_tail(&l.tail, 1);
    proof {
        lemma_atoms_view(body);
    }
    let ghost bodyv = atoms_view(body);
    let na = Atom::list(Atom::symbol("progn"), body);
    proof {
        assert(na@ matches Val::List(s) && s == seq![Val::Sym("progn"@)] + bodyv);
        assert forall|j: int|
            0 <= j < bodyv.len() implies #[trigger] bodyv[j] == l@.skip(2)[j] by {
            assert(bodyv[j] == atom_view(l.tail[1 + j]));
            assert(l@.skip(2)[j] == l@[2 + j]);
            assert(atom_view(l.tail[1 + j]) == l@[2 + j]);
        }
        assert(seq![Val::Sym("progn"@)] + bodyv =~= seq![Val::Sym("progn"@)]
            + l@.skip(2));
        lemma_vals_envs_ok_pointwise(
            seq![Val::Sym("progn"@)] + bodyv,
            env_view(*env).len() as int,
            0,
        );
        assert forall|j: int|
            0 <= j < (seq![Val::Sym("progn"@)] + bodyv).len() implies val_envs_ok(
            #[trigger] (seq![Val::Sym("progn"@)] + bodyv)[j],
            env_view(*env).len() as int,
        ) by {
            if j >= 1 {
                assert((seq![Val::Sym("progn"@)] + bodyv)[j] == bodyv[j - 1]);
                assert(bodyv[j - 1] == atom_view(l.tail[j]));
                assert(atom_view(l.tail[j]) == l@[j + 1]);
            }
        }
    }
    return StepOut::Tail(na, let_fid);
}

/// One trampoline turn for the `progn` form; hands back either the finished
/// outcome or the tail expression and frame to continue with.
#[verifier::rlimit(100)]
#[verifier::loop_isolation(false)]
fn step_progn(ast: &Atom, l: &List, env: &mut Env, fid: usize, fuel: u64, Ghost(steps_e): Ghost<nat>) -> (r: StepOut)
    requires
        old(env).wf(),
        fid < old(env).frames@.len(),
        val_envs_ok(ast@, env_view(*old(env)).len() as int),
        ast@ == Val::List(l@),
        l@.len() >= 1,
        steps_e >= 1,
        !is_macro_call_spec(env_view(*old(env)), fid as int, ast@),
        l@[0] == Val::Sym("progn"@),
    ensures
        final(env).wf(),
        env_view(*old(env)).len() <= env_view(*final(env)).len(),
        final(env).files == old(env).files,
        (match r {
            StepOut::Done(res) => res matches Ok(a) ==> val_envs_ok(
                a@,
                env_view(*final(env)).len() as int,
            ),
            StepOut::Tail(na, nf) => true,
        }),
        step_matches(r, *old(env), *final(env), ast@, fid as int, fuel as nat, steps_e),
    decreases fuel, 2int, 0int,
{
    let ghost hfr = env_view(*env);
    let ghost hout = out_view(*env);
    let ghost hfv = files_view(*env);
    let ghost hfid = fid as int;
    let ghost htarget = eval_spec(ast@, hfr, hout, hfv, hfid, fuel as nat, steps_e);
    proof {
        assert(macroexpand_spec(ast@, hfr, hout, hfv, hfid, fuel as nat) == done_ok(
            ast@,
            hfr,
            hout,
        ));
        lemma_atoms_view(l.tail);
        lemma_vals_envs_ok_pointwise(l@, env_view(*env).len() as int, 0);
        assert(l@.len() == l.tail@.len() + 1);
        assert(l@[0] == atom_view(*l.head));
        lemma_form_names();
        assert(l@[0] != Val::Sym("quote"@));
        assert(l@[0] != Val::Sym("quasiquoteexpand"@));
        assert(l@[0] != Val::Sym("fn"@));
        assert(l@[0] != Val::Sym("quasiquote"@));
        assert(l@[0] != Val::Sym("macroexpand"@));
        assert(l@[0] != Val::Sym("set"@));
        assert(l@[0] != Val::Sym("setmacro"@));
        assert(l@[0] != Val::Sym("let"@));
    }
    let nargs = l.tail.len();
    if nargs == 0 {
        proof {
            assert(htarget == done_ok(Val::Nil, hfr, hout));
        }
        return StepOut::Done(Ok(Atom::Nil));
    }
    let ghost pg_target = progn_spec(
        l@,
        1,
        hfr,
        hout,
        hfv,
        hfid,
        fuel as nat,
    );
    proof {
        assert(htarget == (match pg_target {
            Err(o) => o,
            Ok(st) => eval_spec(
                l@[l@.len() - 1],
                st.0,
                st.1,
                hfv,
                hfid,
                fuel as nat,
                (steps_e - 1) as nat,
            ),
        }));
    }
    let mut k: usize = 0;
    while k < nargs - 1
        invariant
            env.wf(),
            fid < env.frames@.len(),
            env_view(*old(env)).len() <= env_view(*env).len(),
            env.files == old(env).files,
            hfv == files_view(*env),
            nargs == l.tail@.len(),
            nargs >= 1,
            k <= nargs - 1,
            val_envs_ok(ast@, env_view(*env).len() as int),
            ast@ == Val::List(l@),
            pg_target == progn_spec(
                l@,
                k + 1int,
                env_view(*env),
                out_view(*env),
                hfv,
                hfid,
                fuel as nat,
            ),
        decreases nargs - 1 - k,
    {
        proof {
            lemma_atoms_view(l.tail);
            lemma_vals_envs_ok_pointwise(l@, env_view(*env).len() as int, 0);
        }
        let ghost pfr_e = env_view(*env);
        let ghost pout_e = out_view(*env);
        let e = l.tail[k].duplicate();
        proof {
            assert(e@ == l@[k + 1int]);
        }
        if fuel == 0 {
            proof {
                assert(pg_target == Err::<(Seq<FrameV>, Seq<Seq<char>>), Outcome>(
                    done_err(depth_msg(), pfr_e, pout_e),
                ));
            }
            return StepOut::Done(Err(LishErr("Too deep recursion".to_owned())));
        }
        let ghost nb = env_view(*env).len() as int;
        let ghost inner = eval_spec(
            l@[k + 1],
            pfr_e,
            pout_e,
            hfv,
            hfid,
            (fuel - 1) as nat,
            EVAL_STEPS as nat,
        );
        proof {
            assert(progn_spec(l@, k + 1int, pfr_e, pout_e, hfv, hfid, fuel as nat)
                == (match inner.result {
                Err(m) => Err::<(Seq<FrameV>, Seq<Seq<char>>), Outcome>(inner),
                Ok(v2) => progn_spec(
                    l@,
                    k + 2int,
                    inner.frames,
                    inner.out,
                    hfv,
                    hfid,
                    fuel as nat,
                ),
            }));
        }
        match eval_fuel(e, env, fid, fuel - 1) {
            Ok(_) => {},
            Err(er) => {
                return StepOut::Done(Err(er));
            },
        }
        proof {
            lemma_val_envs_ok_mono(ast@, nb, env_view(*env).len() as int);
        }
        k += 1;
    }
    proof {
        lemma_atoms_view(l.tail);
        lemma_vals_envs_ok_pointwise(l@, env_view(*env).len() as int, 0);
        assert(pg_target == Ok::<(Seq<FrameV>, Seq<Seq<char>>), Outcome>(
            (env_view(*env), out_view(*env)),
        ));
    }
    let na = l.tail[nargs - 1].duplicate();
    proof {
        assert(na@ == l@[nargs as int]);
    }
    return StepOut::Tail(na, fid);
}

/// One trampoline turn for the `if` form; hands back either the finished
/// outcome or the tail expression and frame to continue with.
#[verifier::rlimit(100)]
fn step_if(ast: &Atom, l: &List, env: &mut Env, fid: usize, fuel: u64, Ghost(steps_e): Ghost<nat>) -> (r: StepOut)
    requires
        old(env).wf(),
        fid < old(env).frames@.len(),
        val_envs_ok(ast@, env_view(*old(env)).len() as int),
        ast@ == Val::List(l@),
        l@.len() >= 1,
        steps_e >= 1,
        !is_macro_call_spec(env_view(*old(env)), fid as int, ast@),
        l@[0] == Val::Sym("if"@),
    ensures
        final(env).wf(),
        env_view(*old(env)).len() <= env_view(*final(env)).len(),
        final(env).files == old(env).files,
        (match r {
            StepOut::Done(res) => res matches Ok(a) ==> val_envs_ok(
                a@,
                env_view(*final(env)).len() as int,
            ),
            StepOut::Tail(na, nf) => true,
        }),
        step_matches(r, *old(env), *final(env), ast@, fid as int, fuel as nat, steps_e),
    decreases fuel, 2int, 0int,
{
    let ghost hfr = env_view(*env);
    let ghost hout = out_view(*env);
    let ghost hfv = files_view(*env);
    let ghost hfid = fid as int;
    let ghost htarget = eval_spec(ast@, hfr, hout, hfv, hfid, fuel as nat, steps_e);
    proof {
        assert(macroexpand_spec(ast@, hfr, hout, hfv, hfid, fuel as nat) == done_ok(
            ast@,
            hfr,
            hout,
        ));
        lemma_atoms_view(l.tail);
        lemma_vals_envs_ok_pointwise(l@, env_view(*env).len() as int, 0);
        assert(l@.len() == l.tail@.len() + 1);
        assert(l@[0] == atom_view(*l.head));
        lemma_form_names();
        assert(l@[0] != Val::Sym("quote"@));
        assert(l@[0] != Val::Sym("quasiquoteexpand"@));
        assert(l@[0] != Val::Sym("fn"@));
        assert(l@[0] != Val::Sym("quasiquote"@));
        assert(l@[0] != Val::Sym("macroexpand"@));
        assert(l@[0] != Val::Sym("set"@));
        assert(l@[0] != Val::Sym("setmacro"@));
        assert(l@[0] != Val::Sym("let"@));
        assert(l@[0] != Val::Sym("progn"@));
    }
    let nargs = l.tail.len();
    if nargs < 2 {
        proof {
            assert(htarget == done_err(
                form_arity_msg("if"@, 2, l@.len() - 1, ast@),
                hfr,
                hout,
            ));
        }
        return StepOut::Done(Err(err_form_arity("if", 2, nargs, ast)));
    }
    let pred = l.tail[0].duplicate();
    if fuel == 0 {
        proof {
            assert(htarget == done_err(depth_msg(), hfr, hout));
        }
        return StepOut::Done(Err(LishErr("Too deep recursion".to_owned())));
    }
    let ghost inner = eval_spec(
        l@[1],
        hfr,
        hout,
        hfv,
        hfid,
        (fuel - 1) as nat,
        EVAL_STEPS as nat,
    );
    proof {
        assert(pred@ == l@[1]);
        assert(htarget == (match inner.result {
            Err(m) => inner,
            Ok(v2) => {
                let falsy = v2 == Val::Bool(false) || v2 is Nil;
                if !falsy {
                    eval_spec(
                        l@[2],
                        inner.frames,
                        inner.out,
                        hfv,
                        hfid,
                        fuel as nat,
                        (steps_e - 1) as nat,
                    )
                } else if l@.len() - 1 == 3 {
                    eval_spec(
                        l@[3],
                        inner.frames,
                        inner.out,
                        hfv,
                        hfid,
                        fuel as nat,
                        (steps_e - 1) as nat,
                    )
                } else {
                    done_ok(Val::Nil, inner.frames, inner.out)
                }
            },
        }));
    }
    let ghost nb = env_view(*env).len() as int;
    let pv = match eval_fuel(pred, env, fid, fuel - 1) {
        Ok(v) => v,
        Err(e) => {
            return StepOut::Done(Err(e));
        },
    };
    proof {
        assert(inner.result matches Ok(x) && x == pv@ && env_view(*env)
            == inner.frames && out_view(*env) == inner.out);
        lemma_val_envs_ok_mono(ast@, nb, env_view(*env).len() as int);
        lemma_vals_envs_ok_pointwise(l@, env_view(*env).len() as int, 0);
    }
    let falsy = matches!(pv, Atom::Bool(false) | Atom::Nil);
    proof {
        assert(falsy == (pv@ == Val::Bool(false) || pv@ is Nil));
    }
    if !falsy {
        let na = l.tail[1].duplicate();
        proof {
            assert(na@ == l@[2]);
        }
        StepOut::Tail(na, fid)
    } else if nargs == 3 {
        let na = l.tail[2].duplicate();
        proof {
            assert(na@ == l@[3]);
        }
        StepOut::Tail(na, fid)
    } else {
        StepOut::Done(Ok(Atom::Nil))
    }
}

/// One trampoline turn for the `eval` form; hands back either the finished
/// outcome or the tail expression and frame to continue with.
#[verifier::rlimit(100)]
fn step_evalform(ast: &Atom, l: &List, env: &mut Env, fid: usize, fuel: u64, Ghost(steps_e): Ghost<nat>) -> (r: StepOut)
    requires
        old(env).wf(),
        fid < old(env).frames@.len(),
        val_envs_ok(ast@, env_view(*old(env)).len() as int),
        ast@ == Val::List(l@),
        l@.len() >= 1,
        steps_e >= 1,
        !is_macro_call_spec(env_view(*old(env)), fid as int, ast@),
        l@[0] == Val::Sym("eval"@),
    ensures
        final(env).wf(),
        env_view(*old(env)).len() <= env_view(*final(env)).len(),
        final(env).files == old(env).files,
        (match r {
            StepOut::Done(res) => res matches Ok(a) ==> val_envs_ok(
                a@,
                env_view(*final(env)).len() as int,
            ),
            StepOut::Tail(na, nf) => true,
        }),
        step_matches(r, *old(env), *final(env), ast@, fid as int, fuel as nat, steps_e),
    decreases fuel, 2int, 0int,
{
    let ghost hfr = env_view(*env);
    let ghost hout = out_view(*env);
    let ghost hfv = files_view(*env);
    let ghost hfid = fid as int;
    let ghost htarget = eval_spec(ast@, hfr, hout, hfv, hfid, fuel as nat, steps_e);
    proof {
        assert(macroexpand_spec(ast@, hfr, hout, hfv, hfid, fuel as nat) == done_ok(
            ast@,
            hfr,
            hout,
        ));
        lemma_atoms_view(l.tail);
        lemma_vals_envs_ok_pointwise(l@, env_view(*env).len() as int, 0);
        assert(l@.len() == l.tail@.len() + 1);
        assert(l@[0] == atom_view(*l.head));
        lemma_form_names();
        assert(l@[0] != Val::Sym("quote"@));
        assert(l@[0] != Val::Sym("quasiquoteexpand"@));
        assert(l@[0] != Val::Sym("fn"@));
        assert(l@[0] != Val::Sym("quasiquote"@));
        assert(l@[0] != Val::Sym("macroexpand"@));
        assert(l@[0] != Val::Sym("set"@));
        assert(l@[0] != Val::Sym("setmacro"@));
        assert(l@[0] != Val::Sym("let"@));
        assert(l@[0] != Val::Sym("progn"@));
        assert(l@[0] != Val::Sym("if"@));
    }
    let nargs = l.tail.len();
    if nargs != 1 {
        proof {
            assert(htarget == done_err(
                form_arity_msg("eval"@, 1, l@.len() - 1, ast@),
                hfr,
                hout,
            ));
        }
        return StepOut::Done(Err(err_form_arity("eval", 1, nargs, ast)));
    }
    let e = l.tail[0].duplicate();
    if fuel == 0 {
        proof {
            assert(htarget == done_err(depth_msg(), hfr, hout));
        }
        return StepOut::Done(Err(LishErr("Too deep recursion".to_owned())));
    }
    let ghost inner = eval_spec(
        l@[1],
        hfr,
        hout,
        hfv,
        hfid,
        (fuel - 1) as nat,
        EVAL_STEPS as nat,
    );
    proof {
        assert(e@ == l@[1]);
        assert(htarget == (match inner.result {
            Err(m) => inner,
            Ok(v2) => eval_spec(
                v2,
                inner.frames,
                inner.out,
                hfv,
                env_root(inner.frames, hfid),
                fuel as nat,
                (steps_e - 1) as nat,
            ),
        }));
    }
    let v = match eval_fuel(e, env, fid, fuel - 1) {
        Ok(v) => v,
        Err(er) => {
            return StepOut::Done(Err(er));
        },
    };
    proof {
        assert(inner.result matches Ok(x) && x == v@ && env_view(*env)
            == inner.frames && out_view(*env) == inner.out);
    }
    let nf = env.get_root(fid);
    return StepOut::Tail(v, nf);
}

/// One trampoline turn for an ordinary application; hands back either the finished
/// outcome or the tail expression and frame to continue with.
#[verifier::rlimit(100)]
#[verifier::loop_isolation(false)]
fn step_apply(ast: &Atom, l: &List, env: &mut Env, fid: usize, fuel: u64, Ghost(steps_e): Ghost<nat>) -> (r: StepOut)
    requires
        old(env).wf(),
        fid < old(env).frames@.len(),
        val_envs_ok(ast@, env_view(*old(env)).len() as int),
        ast@ == Val::List(l@),
        l@.len() >= 1,
        steps_e >= 1,
        !is_macro_call_spec(env_view(*old(env)), fid as int, ast@),
        l@[0] != Val::Sym("quote"@),
        l@[0] != Val::Sym("quasiquoteexpand"@),
        l@[0] != Val::Sym("fn"@),
        l@[0] != Val::Sym("quasiquote"@),
        l@[0] != Val::Sym("macroexpand"@),
        l@[0] != Val::Sym("set"@),
        l@[0] != Val::Sym("setmacro"@),
        l@[0] != Val::Sym("let"@),
        l@[0] != Val::Sym("progn"@),
        l@[0] != Val::Sym("if"@),
        l@[0] != Val::Sym("eval"@),
    ensures
        final(env).wf(),
        env_view(*old(env)).len() <= env_view(*final(env)).len(),
        final(env).files == old(env).files,
        (match r {
            StepOut::Done(res) => res matches Ok(a) ==> val_envs_ok(
                a@,
                env_view(*final(env)).len() as int,
            ),
            StepOut::Tail(na, nf) => true,
        }),
        step_matches(r, *old(env), *final(env), ast@, fid as int, fuel as nat, steps_e),
    decreases fuel, 2int, 0int,
{
    let ghost hfr = env_view(*env);
    let ghost hout = out_view(*env);
    let ghost hfv = files_view(*env);
    let ghost hfid = fid as int;
    let ghost htarget = eval_spec(ast@, hfr, hout, hfv, hfid, fuel as nat, steps_e);
    proof {
        assert(macroexpand_spec(ast@, hfr, hout, hfv, hfid, fuel as nat) == done_ok(
            ast@,
            hfr,
            hout,
        ));
        lemma_atoms_view(l.tail);
        lemma_vals_envs_ok_pointwise(l@, env_view(*env).len() as int, 0);
        assert(l@.len() == l.tail@.len() + 1);
        assert(l@[0] == atom_view(*l.head));
    }
    let nargs = l.tail.len();
                        let fun_expr = (*l.head).duplicate();
    if fuel == 0 {
        proof {
            assert(htarget == done_err(depth_msg(), hfr, hout));
        }
        return StepOut::Done(Err(LishErr("Too deep recursion".to_owned())));
    }
    let ghost hinner = eval_spec(
        l@[0],
        hfr,
        hout,
        hfv,
        hfid,
        (fuel - 1) as nat,
        EVAL_STEPS as nat,
    );
    proof {
        assert(fun_expr@ == l@[0]);
    }
    let ghost nb0 = env_view(*env).len() as int;
    let funv = match eval_fuel(fun_expr, env, fid, fuel - 1) {
        Ok(v) => v,
        Err(e) => {
            proof {
                assert(htarget == hinner);
            }
            return StepOut::Done(Err(e));
        },
    };
    proof {
        assert(hinner.result matches Ok(x) && x == funv@ && env_view(*env)
            == hinner.frames && out_view(*env) == hinner.out);
        lemma_val_envs_ok_mono(ast@, nb0, env_view(*env).len() as int);
    }
    let ghost ea_target = eval_args_spec(
        l@,
        1,
        env_view(*env),
        out_view(*env),
        hfv,
        hfid,
        fuel as nat,
    );
    proof {
        assert(htarget == (match ea_target {
            Err(o) => o,
            Ok(st) => (match funv@ {
                Val::Func(b) => apply_spec(b, st.0, st.1, st.2, hfv, fuel as nat),
                Val::Lambda { env: le2, params: ps2, body: b2, is_macro: im2 } => {
                    match bind_spec(*ps2, st.0) {
                        Err(m) => done_err(m, st.1, st.2),
                        Ok(data) => eval_spec(
                            *b2,
                            st.1.push(FrameV { data, outer: Some(le2) }),
                            st.2,
                            hfv,
                            st.1.len() as int,
                            fuel as nat,
                            (steps_e - 1) as nat,
                        ),
                    }
                },
                v2 => done_err(not_fn_msg(v2), st.1, st.2),
            }),
        }));
    }
    let mut eargs: Vec<Atom> = Vec::new();
    let mut k: usize = 0;
    proof {
        assert(atoms_view(eargs) =~= Seq::<Val>::empty());
    }
    while k < nargs
        invariant
            env.wf(),
            fid < env.frames@.len(),
            env_view(*old(env)).len() <= env_view(*env).len(),
            env.files == old(env).files,
            hfv == files_view(*env),
            nargs == l.tail@.len(),
            k <= nargs,
            val_envs_ok(ast@, env_view(*env).len() as int),
            ast@ == Val::List(l@),
            val_envs_ok(funv@, env_view(*env).len() as int),
            atoms_view(eargs).len() == k,
            forall|j: int|
                0 <= j < atoms_view(eargs).len() ==> val_envs_ok(
                    #[trigger] atoms_view(eargs)[j],
                    env_view(*env).len() as int,
                ),
            ea_target == (match eval_args_spec(
                l@,
                k + 1int,
                env_view(*env),
                out_view(*env),
                hfv,
                hfid,
                fuel as nat,
            ) {
                Err(o) => Err::<(Seq<Val>, Seq<FrameV>, Seq<Seq<char>>), Outcome>(
                    o,
                ),
                Ok(st) => Ok(
                    (atoms_view(eargs) + st.0, st.1, st.2),
                ),
            }),
        decreases nargs - k,
    {
        proof {
            lemma_atoms_view(l.tail);
            lemma_vals_envs_ok_pointwise(l@, env_view(*env).len() as int, 0);
        }
        let ghost pfr_e = env_view(*env);
        let ghost pout_e = out_view(*env);
        let e = l.tail[k].duplicate();
        proof {
            assert(e@ == l@[k + 1int]);
        }
        if fuel == 0 {
            proof {
                assert(eval_args_spec(
                    l@,
                    k + 1int,
                    pfr_e,
                    pout_e,
                    hfv,
                    hfid,
                    fuel as nat,
                ) == Err::<(Seq<Val>, Seq<FrameV>, Seq<Seq<char>>), Outcome>(
                    done_err(depth_msg(), pfr_e, pout_e),
                ));
            }
            return StepOut::Done(Err(LishErr("Too deep recursion".to_owned())));
        }
        let ghost nb = env_view(*env).len() as int;
        let ghost before = atoms_view(eargs);
        let ghost inner = eval_spec(
            l@[k + 1],
            pfr_e,
            pout_e,
            hfv,
            hfid,
            (fuel - 1) as nat,
            EVAL_STEPS as nat,
        );
        proof {
            assert(eval_args_spec(l@, k + 1int, pfr_e, pout_e, hfv, hfid, fuel as nat)
                == (match inner.result {
                Err(m) => Err::<(Seq<Val>, Seq<FrameV>, Seq<Seq<char>>), Outcome>(
                    inner,
                ),
                Ok(v2) => match eval_args_spec(
                    l@,
                    k + 2int,
                    inner.frames,
                    inner.out,
                    hfv,
                    hfid,
                    fuel as nat,
                ) {
                    Err(e2) => Err(e2),
                    Ok(st) => Ok((seq![v2] + st.0, st.1, st.2)),
                },
            }));
        }
        let v = match eval_fuel(e, env, fid, fuel - 1) {
            Ok(v) => v,
            Err(er) => {
                return StepOut::Done(Err(er));
            },
        };
        proof {
            assert(inner.result matches Ok(x) && x == v@ && env_view(*env)
                == inner.frames && out_view(*env) == inner.out);
            lemma_atoms_view(eargs);
        }
        eargs.push(v);
        proof {
            let nn = env_view(*env).len() as int;
            lemma_val_envs_ok_mono(ast@, nb, nn);
            lemma_val_envs_ok_mono(funv@, nb, nn);
            lemma_atoms_view(eargs);
            assert(atoms_view(eargs) =~= before.push(v@));
            assert forall|j: int|
                0 <= j < atoms_view(eargs).len() implies val_envs_ok(
                #[trigger] atoms_view(eargs)[j],
                nn,
            ) by {
                if j < before.len() {
                    assert(atoms_view(eargs)[j] == before[j]);
                    lemma_val_envs_ok_mono(before[j], nb, nn);
                } else {
                    assert(atoms_view(eargs)[j] == v@);
                }
            }
            assert forall|st0: Seq<Val>|
                true implies before.push(v@) + st0 =~= before + (seq![v@]
                + st0) by {}
        }
        k += 1;
    }
    proof {
        lemma_vals_envs_ok_pointwise(
            atoms_view(eargs),
            env_view(*env).len() as int,
            0,
        );
        assert(eval_args_spec(
            l@,
            nargs + 1int,
            env_view(*env),
            out_view(*env),
            hfv,
            hfid,
            fuel as nat,
        ) == Ok::<(Seq<Val>, Seq<FrameV>, Seq<Seq<char>>), Outcome>(
            (Seq::empty(), env_view(*env), out_view(*env)),
        ));
        assert(atoms_view(eargs) + Seq::<Val>::empty() =~= atoms_view(eargs));
        assert(ea_target == Ok::<(Seq<Val>, Seq<FrameV>, Seq<Seq<char>>), Outcome>(
            (atoms_view(eargs), env_view(*env), out_view(*env)),
        ));
    }
    let ghost fvv = funv@;
    match funv {
        Atom::Func(b) => {
            proof {
                assert(htarget == apply_spec(
                    b,
                    atoms_view(eargs),
                    env_view(*env),
                    out_view(*env),
                    hfv,
                    fuel as nat,
                ));
            }
            return StepOut::Done(apply_builtin(b, eargs, env, fuel));
        },
        Atom::Lambda { ast: la, params, env: le, is_macro } => {
            proof {
                assert(fvv == Val::Lambda {
                    env: le as int,
                    params: Box::new((*params)@),
                    body: Box::new((*la)@),
                    is_macro,
                });
            }
            let ghost nb = env_view(*env).len() as int;
            let f2 = match env.bind(Some(le), &*params, eargs) {
                Ok(f) => f,
                Err(e) => {
                    return StepOut::Done(Err(e));
                },
            };
            proof {
                lemma_val_envs_ok_mono((*la)@, nb, env_view(*env).len() as int);
            }
            return StepOut::Tail(*la, f2);
        },
        other => {
            proof {
                assert(htarget == done_err(
                    not_fn_msg(fvv),
                    env_view(*env),
                    out_view(*env),
                ));
            }
            return StepOut::Done(Err(err_val_suffix(&other, " is not a function")));
        },
    }
}

/// The trampoline: evaluate, rewriting tail positions in place and
/// spending one step per turn.
#[verifier::rlimit(100)]
#[verifier::loop_isolation(false)]
fn eval_loop(ast: Atom, env: &mut Env, fid: usize, fuel: u64) -> (r: LishResult)
    requires
        old(env).wf(),
        fid < old(env).frames@.len(),
        val_envs_ok(ast@, env_view(*old(env)).len() as int),
    ensures
        final(env).wf(),
        env_view(*old(env)).len() <= env_view(*final(env)).len(),
        final(env).files == old(env).files,
        r matches Ok(a) ==> val_envs_ok(a@, env_view(*final(env)).len() as int),
        eval_matches(r, *old(env), *final(env), ast@, fid as int, fuel as nat),
    decreases fuel, 4int, 0int,
{
    let ghost fv = files_view(*env);
    let ghost target = eval_spec(
        ast@,
        env_view(*env),
        out_view(*env),
        fv,
        fid as int,
        fuel as nat,
        EVAL_STEPS as nat,
    );
    let mut ast = ast;
    let mut fid = fid;
    let mut steps: u64 = EVAL_STEPS;
    loop
        invariant
            env.wf(),
            fid < env.frames@.len(),
            val_envs_ok(ast@, env_view(*env).len() as int),
            env_view(*old(env)).len() <= env_view(*env).len(),
            env.files == old(env).files,
            fv == files_view(*env),
            target == eval_spec(
                ast@,
                env_view(*env),
                out_view(*env),
                fv,
                fid as int,
                fuel as nat,
                steps as nat,
            ),
        decreases steps,
    {
        let ghost ast_e = ast@;
        let ghost fr_e = env_view(*env);
        let ghost out_e = out_view(*env);
        let ghost fid_e = fid as int;
        let ghost steps_e = steps as nat;
        if steps == 0 {
            proof {
                assert(target == done_err(steps_msg(), fr_e, out_e));
            }
            return Err(LishErr("Too many evaluation steps".to_owned()));
        }
        steps = steps - 1;
        let ghost mo = macroexpand_spec(ast_e, fr_e, out_e, fv, fid_e, fuel as nat);
        ast = match macroexpand(ast, env, fid, fuel) {
            Ok(a) => a,
            Err(e) => {
                proof {
                    assert(target == mo);
                }
                return Err(e);
            },
        };
        let ghost fr_m = env_view(*env);
        let ghost out_m = out_view(*env);
        proof {
            assert(mo == done_ok(ast@, fr_m, out_m));
            assert(macroexpand_spec(ast@, fr_m, out_m, fv, fid_e, fuel as nat) == done_ok(
                ast@,
                fr_m,
                out_m,
            ));
            assert(target == eval_spec(ast@, fr_m, out_m, fv, fid_e, fuel as nat, steps_e));
        }
        let is_list = matches!(&ast, Atom::List(_));
        if !is_list {
            match &ast {
                Atom::Symbol(s) => {
                    proof {
                        assert(target == (match env_lookup(fr_m, fid_e, s@) {
                            Some(v) => done_ok(v, fr_m, out_m),
                            None => done_err(not_found_msg(s@), fr_m, out_m),
                        }));
                    }
                    return env.get(fid, s.as_str());
                },
                _ => {},
            }
            proof {
                assert(target == done_ok(ast@, fr_m, out_m));
            }
            return Ok(ast);
        }
        let mut next_ast: Atom = Atom::Nil;
        let mut next_fid: usize = fid;
        match &ast {
            Atom::List(l) => {
                proof {
                    lemma_atoms_view(l.tail);
                    lemma_vals_envs_ok_pointwise(l@, env_view(*env).len() as int, 0);
                    assert(ast@ == Val::List(l@));
                    assert(l@.len() == l.tail@.len() + 1);
                    assert(l@[0] == atom_view(*l.head));
                }
                let nargs = l.tail.len();
                if sym_is(&*l.head, "quote") {
                    proof {
                        assert(target == (if l@.len() == 2 {
                            done_ok(l@[1], fr_m, out_m)
                        } else {
                            done_err(form_arity_msg("quote"@, 1, l@.len() - 1, ast@), fr_m, out_m)
                        }));
                    }
                    return do_quote(&ast, l);
                } else if sym_is(&*l.head, "quasiquoteexpand") {
                    proof {
                        assert(target == (if l@.len() == 2 {
                            done_ok(quasiquote_spec(l@[1]), fr_m, out_m)
                        } else {
                            done_err(
                                form_arity_msg("quasiquoteexpand"@, 1, l@.len() - 1, ast@),
                                fr_m,
                                out_m,
                            )
                        }));
                    }
                    let r = do_qqexpand(&ast, l);
                    proof {
                        match &r {
                            Ok(a) => {
                                lemma_qq_envs_ok(l@[1], env_view(*env).len() as int);
                            },
                            Err(_) => {},
                        }
                    }
                    return r;
                } else if sym_is(&*l.head, "fn") {
                    proof {
                        assert(target == (if l@.len() >= 3 {
                            done_ok(
                                Val::Lambda {
                                    env: fid_e,
                                    params: Box::new(l@[1]),
                                    body: Box::new(l@[2]),
                                    is_macro: false,
                                },
                                fr_m,
                                out_m,
                            )
                        } else {
                            done_err(form_arity_msg("fn"@, 2, l@.len() - 1, ast@), fr_m, out_m)
                        }));
                    }
                    return do_fn(&ast, l, fid);
                } else if sym_is(&*l.head, "quasiquote") {
                    if nargs != 1 {
                        proof {
                            assert(target == done_err(
                                form_arity_msg("quasiquote"@, 1, l@.len() - 1, ast@),
                                fr_m,
                                out_m,
                            ));
                        }
                        return Err(err_form_arity("quasiquote", 1, nargs, &ast));
                    }
                    let na = quasiquote(&l.tail[0]);
                    proof {
                        assert(atom_view(l.tail[0]) == l@[1]);
                        lemma_qq_envs_ok(l@[1], env_view(*env).len() as int);
                        assert(na@ == quasiquote_spec(l@[1]));
                        assert(target == eval_spec(
                            quasiquote_spec(l@[1]),
                            fr_m,
                            out_m,
                            fv,
                            fid_e,
                            fuel as nat,
                            (steps_e - 1) as nat,
                        ));
                    }
                    next_ast = na;
                } else if sym_is(&*l.head, "macroexpand") {
                    if nargs != 1 {
                        proof {
                            assert(target == done_err(
                                form_arity_msg("macroexpand"@, 1, l@.len() - 1, ast@),
                                fr_m,
                                out_m,
                            ));
                        }
                        return Err(err_form_arity("macroexpand", 1, nargs, &ast));
                    }
                    let arg = l.tail[0].duplicate();
                    proof {
                        assert(arg@ == l@[1]);
                        assert(target == macroexpand_spec(
                            l@[1],
                            fr_m,
                            out_m,
                            fv,
                            fid_e,
                            fuel as nat,
                        ));
                    }
                    return macroexpand(arg, env, fid, fuel);
                } else if sym_is(&*l.head, "set") {
                    match step_set(&ast, l, env, fid, fuel, Ghost(steps_e)) {
                        StepOut::Done(res) => {
                            return res;
                        },
                        StepOut::Tail(na, nf) => {
                            next_ast = na;
                            next_fid = nf;
                        },
                    }
                } else if sym_is(&*l.head, "setmacro") {
                    match step_setmacro(&ast, l, env, fid, fuel, Ghost(steps_e)) {
                        StepOut::Done(res) => {
                            return res;
                        },
                        StepOut::Tail(na, nf) => {
                            next_ast = na;
                            next_fid = nf;
                        },
                    }
                } else if sym_is(&*l.head, "let") {
                    match step_let(&ast, l, env, fid, fuel, Ghost(steps_e)) {
                        StepOut::Done(res) => {
                            return res;
                        },
                        StepOut::Tail(na, nf) => {
                            next_ast = na;
                            next_fid = nf;
                        },
                    }
                } else if sym_is(&*l.head, "progn") {
                    match step_progn(&ast, l, env, fid, fuel, Ghost(steps_e)) {
                        StepOut::Done(res) => {
                            return res;
                        },
                        StepOut::Tail(na, nf) => {
                            next_ast = na;
                            next_fid = nf;
                        },
                    }
                } else if sym_is(&*l.head, "if") {
                    match step_if(&ast, l, env, fid, fuel, Ghost(steps_e)) {
                        StepOut::Done(res) => {
                            return res;
                        },
                        StepOut::Tail(na, nf) => {
                            next_ast = na;
                            next_fid = nf;
                        },
                    }
                } else if sym_is(&*l.head, "eval") {
                    match step_evalform(&ast, l, env, fid, fuel, Ghost(steps_e)) {
                        StepOut::Done(res) => {
                            return res;
                        },
                        StepOut::Tail(na, nf) => {
                            next_ast = na;
                            next_fid = nf;
                        },
                    }
                } else {
                    match step_apply(&ast, l, env, fid, fuel, Ghost(steps_e)) {
                        StepOut::Done(res) => {
                            return res;
                        },
                        StepOut::Tail(na, nf) => {
                            next_ast = na;
                            next_fid = nf;
                        },
                    }
                }
            },
            _ => {
                return Ok(ast);
            },
        }
        ast = next_ast;
        fid = next_fid;
    }
}

/// Evaluate an expression against the environment, working from frame
/// `fid`, under the standard depth budget.  See `eval_fuel` for the
/// contract; this is the entry the REPL and the tests use.
pub fn eval(ast: Atom, env: &mut Env, fid: usize) -> (r: LishResult)
    requires
        old(env).wf(),
        fid < old(env).frames@.len(),
        val_envs_ok(ast@, env_view(*old(env)).len() as int),
    ensures
        final(env).wf(),
        env_view(*old(env)).len() <= env_view(*final(env)).len(),
        final(env).files == old(env).files,
        r matches Ok(a) ==> val_envs_ok(a@, env_view(*final(env)).len() as int),
        (ast@ is Int || ast@ is Bool || ast@ is Float || ast@ is Str || ast@ is Func || ast@
            is Lambda) ==> (r matches Ok(a) && a@ == ast@ && *final(env) == *old(env)),
        ast@ is Nil ==> (r matches Ok(a) && a@ == Val::Nil && *final(env) == *old(env)),
        ast@ matches Val::Sym(s) ==> (*final(env) == *old(env) && (match env_lookup(
            env_view(*old(env)),
            fid as int,
            s,
        ) {
            Some(v) => r matches Ok(a) && a@ == v,
            None => r matches Err(e) && e.0@ == not_found_msg(s),
        })),
        (head_is(ast@, "quote"@) && !is_macro_call_spec(env_view(*old(env)), fid as int, ast@))
            ==> ({
            let items = list_items(ast@);
            &&& *final(env) == *old(env)
            &&& (match r {
                Ok(a) => items.len() == 2 && a@ == items[1],
                Err(e) => items.len() != 2 && e.0@ == form_arity_msg(
                    "quote"@,
                    1,
                    items.len() - 1,
                    ast@,
                ),
            })
        }),
        (head_is(ast@, "quasiquoteexpand"@) && !is_macro_call_spec(
            env_view(*old(env)),
            fid as int,
            ast@,
        )) ==> ({
            let items = list_items(ast@);
            &&& *final(env) == *old(env)
            &&& (match r {
                Ok(a) => items.len() == 2 && a@ == quasiquote_spec(items[1]),
                Err(e) => items.len() != 2 && e.0@ == form_arity_msg(
                    "quasiquoteexpand"@,
                    1,
                    items.len() - 1,
                    ast@,
                ),
            })
        }),
        (head_is(ast@, "fn"@) && !is_macro_call_spec(env_view(*old(env)), fid as int, ast@)) ==> ({
            let items = list_items(ast@);
            &&& *final(env) == *old(env)
            &&& (match r {
                Ok(a) => items.len() >= 3 && a@ == Val::Lambda {
                    env: fid as int,
                    params: Box::new(items[1]),
                    body: Box::new(items[2]),
                    is_macro: false,
                },
                Err(e) => items.len() < 3 && e.0@ == form_arity_msg(
                    "fn"@,
                    2,
                    items.len() - 1,
                    ast@,
                ),
            })
        }),
        eval_matches(r, *old(env), *final(env), ast@, fid as int, EVAL_DEPTH as nat),
{
    eval_fuel(ast, env, fid, EVAL_DEPTH)
}

/// Read one line, evaluate it in the root frame, and render the outcome
/// in readable form (`ERROR: <message>` for a failure).
pub fn rep(input: String, env: &mut Env) -> (r: String)
    requires
        old(env).wf(),
    ensures
        final(env).wf(),
        final(env).files == old(env).files,
        match read_spec(input@) {
            Err(m) => r@ == "ERROR: "@ + m && *final(env) == *old(env),
            Ok(v) => ({
                let o = eval_spec(
                    v,
                    env_view(*old(env)),
                    out_view(*old(env)),
                    files_view(*old(env)),
                    0,
                    EVAL_DEPTH as nat,
                    EVAL_STEPS as nat,
                );
                &&& env_view(*final(env)) == o.frames
                &&& out_view(*final(env)) == o.out
                &&& r@ == (match o.result {
                    Ok(v2) => render_val(v2, true),
                    Err(m) => "ERROR: "@ + m,
                })
            }),
        },
{
    match read(input) {
        Ok(ast) => {
            proof {
                lemma_val_envs_ok_mono(ast@, 0, env_view(*env).len() as int);
            }
            let res = eval(ast, env, 0);
            print_debug(&res)
        },
        Err(e) => print_debug(&Err(e)),
    }
}

} // verus!
