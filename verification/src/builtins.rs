//! The builtin namespace: the table of native functions injected into the
//! root environment, and the dispatcher that applies one of them to
//! already-evaluated arguments.
//!
//! Arithmetic works on 64-bit integers with wrap-around; comparisons test
//! the first argument against each later one; the printing builtins append
//! to the environment's output buffer instead of writing anywhere; `slurp`
//! reads the environment's file table, so the library itself does no I/O.
use vstd::prelude::*;
use crate::types::{
    Atom, List, Val, Builtin, LishErr, LishResult, atom_view, atoms_view, lemma_atoms_view,
    list_of, val_eq, val_cmp, vals_envs_ok, val_envs_ok, lemma_vals_envs_ok_pointwise,
    lemma_val_envs_ok_mono, atom_eq, atom_cmp,
};
use crate::env::{Env, env_view, out_view, files_view, file_lookup, entries_view, copy_tail, bind_spec};
use crate::printer::{render_val, render_vals, render_args, print_atom};
use crate::reader::{read, read_spec};
use crate::semantics::{apply_matches};
use crate::text::{append_str, push_char};
use std::cmp::Ordering;

verus! {

use vstd::wrapping::i64_specs;

/// The error for an arithmetic or logical builtin applied to an operand of
/// the wrong kind: `Can't eval (<op> <arguments>)`.
pub open spec fn arith_err(op: Seq<char>, args: Seq<Val>) -> Seq<char> {
    "Can't eval ("@ + op + " "@ + render_vals(args, true, 0) + ")"@
}

/// The error for `/` with a zero divisor.
pub open spec fn div_zero_msg() -> Seq<char> {
    "Division by zero"@
}

/// The error for a builtin that needs exactly one argument.
pub open spec fn arity1_msg(name: Seq<char>) -> Seq<char> {
    "'"@ + name + "' requires 1 argument(s)"@
}

/// Folding `+` over the arguments, all of which must be integers.
pub open spec fn add_fold(args: Seq<Val>, i: int, acc: i64) -> Result<i64, Seq<char>>
    decreases args.len() - i,
{
    if !(0 <= i < args.len()) {
        Ok(acc)
    } else {
        match args[i] {
            Val::Int(v) => if i64::MIN <= v <= i64::MAX {
                add_fold(args, i + 1, i64_specs::wrapping_add(acc, v as i64))
            } else {
                Err(arith_err("+"@, args))
            },
            _ => Err(arith_err("+"@, args)),
        }
    }
}

/// Folding `*` over the arguments, all of which must be integers.
pub open spec fn mul_fold(args: Seq<Val>, i: int, acc: i64) -> Result<i64, Seq<char>>
    decreases args.len() - i,
{
    if !(0 <= i < args.len()) {
        Ok(acc)
    } else {
        match args[i] {
            Val::Int(v) => if i64::MIN <= v <= i64::MAX {
                mul_fold(args, i + 1, i64_specs::wrapping_mul(acc, v as i64))
            } else {
                Err(arith_err("*"@, args))
            },
            _ => Err(arith_err("*"@, args)),
        }
    }
}

/// Truncating 64-bit division, wrapping on the one overflowing case.
pub open spec fn trunc_div_i64(a: i64, b: i64) -> i64 {
    if a == i64::MIN && b == -1 {
        i64::MIN
    } else {
        let q = abs_int(a as int) / abs_int(b as int);
        if (a < 0) != (b < 0) {
            (-q) as i64
        } else {
            q as i64
        }
    }
}

/// The absolute value.
pub open spec fn abs_int(x: int) -> int {
    if x < 0 {
        -x
    } else {
        x
    }
}

/// Folding `/` over the arguments from the seed on; all must be integers
/// and no divisor zero.
pub open spec fn div_fold(args: Seq<Val>, i: int, acc: i64) -> Result<i64, Seq<char>>
    decreases args.len() - i,
{
    if !(0 <= i < args.len()) {
        Ok(acc)
    } else {
        match args[i] {
            Val::Int(v) => if v == 0 {
                Err(div_zero_msg())
            } else if i64::MIN <= v <= i64::MAX {
                div_fold(args, i + 1, trunc_div_i64(acc, v as i64))
            } else {
                Err(arith_err("/"@, args))
            },
            _ => Err(arith_err("/"@, args)),
        }
    }
}

/// Folding `-` over the arguments from the seed on.
pub open spec fn sub_fold(args: Seq<Val>, i: int, acc: i64) -> Result<i64, Seq<char>>
    decreases args.len() - i,
{
    if !(0 <= i < args.len()) {
        Ok(acc)
    } else {
        match args[i] {
            Val::Int(v) => if i64::MIN <= v <= i64::MAX {
                sub_fold(args, i + 1, i64_specs::wrapping_sub(acc, v as i64))
            } else {
                Err(arith_err("-"@, args))
            },
            _ => Err(arith_err("-"@, args)),
        }
    }
}

/// Whether one comparison of the pivot against a later argument holds.
pub open spec fn cmp_holds(op: Builtin, a: Val, b: Val) -> bool {
    match op {
        Builtin::Eq => val_eq(a, b),
        Builtin::Lt => val_cmp(a, b) == Some(Ordering::Less),
        Builtin::Le => val_cmp(a, b) == Some(Ordering::Less) || val_cmp(a, b) == Some(
            Ordering::Equal,
        ),
        Builtin::Gt => val_cmp(a, b) == Some(Ordering::Greater),
        Builtin::Ge => val_cmp(a, b) == Some(Ordering::Greater) || val_cmp(a, b) == Some(
            Ordering::Equal,
        ),
        _ => false,
    }
}

/// A comparison builtin holds when the first argument stands in the given
/// relation to every later argument.
pub open spec fn cmp_all(op: Builtin, args: Seq<Val>, i: int) -> bool
    decreases args.len() - i,
{
    if !(1 <= i < args.len()) {
        true
    } else {
        cmp_holds(op, args[0], args[i]) && cmp_all(op, args, i + 1)
    }
}

/// The error for a logical builtin applied to a non-boolean.
pub open spec fn not_bool_msg(v: Val) -> Seq<char> {
    render_val(v, true) + " is not Bool"@
}

/// Folding `and`/`or` over the arguments, all of which must be booleans.
pub open spec fn bool_fold(args: Seq<Val>, i: int, acc: bool, conj: bool) -> Result<
    bool,
    Seq<char>,
>
    decreases args.len() - i,
{
    if !(0 <= i < args.len()) {
        Ok(acc)
    } else {
        match args[i] {
            Val::Bool(b) => bool_fold(
                args,
                i + 1,
                if conj {
                    acc && b
                } else {
                    acc || b
                },
                conj,
            ),
            v => Err(not_bool_msg(v)),
        }
    }
}

/// The flattening of the arguments of `concat`: each must be a list or
/// `Nil`.
pub open spec fn concat_fold(args: Seq<Val>, i: int) -> Result<Seq<Val>, Seq<char>>
    decreases args.len() - i,
{
    if !(0 <= i < args.len()) {
        Ok(Seq::empty())
    } else {
        match args[i] {
            Val::List(items) => match concat_fold(args, i + 1) {
                Ok(rest) => Ok(items + rest),
                Err(m) => Err(m),
            },
            Val::Nil => concat_fold(args, i + 1),
            _ => Err("Trying to concat not list"@),
        }
    }
}

/// The joined text of the arguments of `join`: a string contributes its
/// raw content, anything else its readable printed form.
pub open spec fn join_parts(args: Seq<Val>, i: int) -> Seq<char>
    decreases args.len() - i,
{
    if !(0 <= i < args.len()) {
        Seq::empty()
    } else {
        (match args[i] {
            Val::Str(s) => s,
            v => render_val(v, true),
        }) + join_parts(args, i + 1)
    }
}

/// What applying a builtin returns: either an outcome decided here (a
/// value or an error, plus the chunks the printing builtins appended to
/// the output buffer), or a hand-off to the evaluator because `apply` was
/// given a lambda.
pub enum BuiltinOut {
    Done(Result<(Val, Seq<Seq<char>>), Seq<char>>),
    CallLambda,
}

/// Shorthand for an outcome that prints nothing.
pub open spec fn done_val(v: Val) -> BuiltinOut {
    BuiltinOut::Done(Ok((v, Seq::empty())))
}

/// Shorthand for an error outcome.
pub open spec fn done_err(m: Seq<char>) -> BuiltinOut {
    BuiltinOut::Done(Err(m))
}

/// Lift an integer fold to an outcome.
pub open spec fn done_int(r: Result<i64, Seq<char>>) -> BuiltinOut {
    match r {
        Ok(v) => done_val(Val::Int(v as int)),
        Err(m) => done_err(m),
    }
}

/// The error for applying a value that is not a function.
pub open spec fn not_fn_msg(v: Val) -> Seq<char> {
    render_val(v, true) + " is not a function"@
}

/// The error for `read` or `slurp` on a non-string.
pub open spec fn not_string_msg(v: Val) -> Seq<char> {
    render_val(v, true) + " is not a string"@
}

/// The error for `slurp` on a file the host has not registered.
pub open spec fn no_file_msg(name: Seq<char>) -> Seq<char> {
    "Can't read file '"@ + name + "'"@
}

/// The error for a list so long its length has no 64-bit representation.
pub open spec fn len_overflow_msg() -> Seq<char> {
    "List is too long"@
}

/// What each builtin does with already-evaluated arguments, given the file
/// table `slurp` consults.
pub open spec fn builtin_spec(
    op: Builtin,
    args: Seq<Val>,
    files: Seq<(Seq<char>, Seq<char>)>,
) -> BuiltinOut
    decreases args.len(),
{
    match op {
        Builtin::Add => done_int(add_fold(args, 0, 0)),
        Builtin::Mul => done_int(mul_fold(args, 0, 1)),
        Builtin::Div => if args.len() == 0 {
            done_err(arith_err("/"@, args))
        } else {
            match args[0] {
                Val::Int(a0) => if i64::MIN <= a0 <= i64::MAX {
                    done_int(div_fold(args, 1, a0 as i64))
                } else {
                    done_err(arith_err("/"@, args))
                },
                _ => done_err(arith_err("/"@, args)),
            }
        },
        Builtin::Sub => if args.len() == 0 {
            done_err("Can't evaluate (-)"@)
        } else if args.len() == 1 {
            match args[0] {
                Val::Int(a0) => if i64::MIN <= a0 <= i64::MAX {
                    done_val(Val::Int(i64_specs::wrapping_sub(0, a0 as i64) as int))
                } else {
                    done_err("Can't negate "@ + render_val(args[0], true))
                },
                _ => done_err("Can't negate "@ + render_val(args[0], true)),
            }
        } else {
            match args[0] {
                Val::Int(a0) => if i64::MIN <= a0 <= i64::MAX {
                    done_int(sub_fold(args, 1, a0 as i64))
                } else {
                    done_err(arith_err("-"@, args))
                },
                _ => done_err(arith_err("-"@, args)),
            }
        },
        Builtin::Or => match bool_fold(args, 0, false, false) {
            Ok(b) => done_val(Val::Bool(b)),
            Err(m) => done_err(m),
        },
        Builtin::And => match bool_fold(args, 0, true, true) {
            Ok(b) => done_val(Val::Bool(b)),
            Err(m) => done_err(m),
        },
        Builtin::Eq | Builtin::Lt | Builtin::Le | Builtin::Gt | Builtin::Ge => if args.len()
            == 0 {
            done_err(arith_err(cmp_name(op), args))
        } else {
            done_val(Val::Bool(cmp_all(op, args, 1)))
        },
        Builtin::Dbg => BuiltinOut::Done(
            Ok((Val::Nil, seq![render_vals(args, true, 0) + "\n"@])),
        ),
        Builtin::Print => BuiltinOut::Done(Ok((Val::Nil, seq![render_vals(args, false, 0)]))),
        Builtin::Println => BuiltinOut::Done(
            Ok((Val::Nil, seq![render_vals(args, false, 0) + "\n"@])),
        ),
        Builtin::Echo => done_val(Val::Str(render_vals(args, false, 0))),
        Builtin::Cons => if args.len() < 2 {
            done_err("'cons' requires at least 2 argument(s)"@)
        } else {
            match args.last() {
                Val::List(items) => done_val(Val::List(args.take(args.len() - 1) + items)),
                Val::Nil => done_val(Val::List(args.take(args.len() - 1))),
                _ => done_err("Trying to cons not a list"@),
            }
        },
        Builtin::First => if args.len() != 1 {
            done_err(arity1_msg("first"@))
        } else {
            match args[0] {
                Val::List(items) => done_val(items[0]),
                _ => done_err("Trying to get first of not list"@),
            }
        },
        Builtin::Rest => if args.len() != 1 {
            done_err(arity1_msg("rest"@))
        } else {
            match args[0] {
                Val::List(items) => done_val(list_of(items.drop_first())),
                _ => done_err("Trying to get rest of not list"@),
            }
        },
        Builtin::MakeList => done_val(list_of(args)),
        Builtin::IsEmpty => if args.len() != 1 {
            done_err(arity1_msg("empty?"@))
        } else {
            done_val(Val::Bool(args[0] is Nil))
        },
        Builtin::Len => if args.len() != 1 {
            done_err(arity1_msg("len"@))
        } else {
            match args[0] {
                Val::List(items) => if items.len() > i64::MAX {
                    done_err(len_overflow_msg())
                } else {
                    done_val(Val::Int(items.len() as int))
                },
                _ => done_err("Trying to get len of not list"@),
            }
        },
        Builtin::IsList => if args.len() != 1 {
            done_err(arity1_msg("list?"@))
        } else {
            done_val(Val::Bool(args[0] is List || args[0] is Nil))
        },
        Builtin::Concat => match concat_fold(args, 0) {
            Ok(items) => done_val(list_of(items)),
            Err(m) => done_err(m),
        },
        Builtin::Apply => if args.len() == 0 {
            done_err(arity1_msg("apply"@))
        } else {
            match args[0] {
                Val::Func(op2) => builtin_spec(op2, args.skip(1), files),
                Val::Lambda { env, params, body, is_macro } => BuiltinOut::CallLambda,
                v => done_err(not_fn_msg(v)),
            }
        },
        Builtin::Read => if args.len() != 1 {
            done_err(arity1_msg("read"@))
        } else {
            match args[0] {
                Val::Str(s) => match read_spec(s) {
                    Ok(v) => done_val(v),
                    Err(m) => done_err(m),
                },
                v => done_err(not_string_msg(v)),
            }
        },
        Builtin::Slurp => if args.len() != 1 {
            done_err(arity1_msg("slurp"@))
        } else {
            match args[0] {
                Val::Str(name) => match file_lookup(files, name) {
                    Some(contents) => done_val(Val::Str(contents)),
                    None => done_err(no_file_msg(name)),
                },
                v => done_err(not_string_msg(v)),
            }
        },
        Builtin::Join => done_val(Val::Str(join_parts(args, 0))),
        Builtin::Throw => if args.len() != 1 {
            done_err(arity1_msg("throw"@))
        } else {
            done_err(render_val(args[0], true))
        },
    }
}

/// The surface name of a comparison builtin.
pub open spec fn cmp_name(op: Builtin) -> Seq<char> {
    match op {
        Builtin::Eq => "="@,
        Builtin::Lt => "<"@,
        Builtin::Le => "<="@,
        Builtin::Gt => ">"@,
        _ => ">="@,
    }
}

/// The builtin namespace: each surface name with the native function it
/// denotes.  `str` shares the behaviour of `join` and `prn` that of `dbg`.
pub open spec fn namespace_spec() -> Seq<(Seq<char>, Val)> {
    seq![
        ("+"@, Val::Func(Builtin::Add)),
        ("*"@, Val::Func(Builtin::Mul)),
        ("/"@, Val::Func(Builtin::Div)),
        ("-"@, Val::Func(Builtin::Sub)),
        ("="@, Val::Func(Builtin::Eq)),
        ("<"@, Val::Func(Builtin::Lt)),
        ("<="@, Val::Func(Builtin::Le)),
        (">"@, Val::Func(Builtin::Gt)),
        (">="@, Val::Func(Builtin::Ge)),
        ("and"@, Val::Func(Builtin::And)),
        ("or"@, Val::Func(Builtin::Or)),
        ("cons"@, Val::Func(Builtin::Cons)),
        ("concat"@, Val::Func(Builtin::Concat)),
        ("list"@, Val::Func(Builtin::MakeList)),
        ("first"@, Val::Func(Builtin::First)),
        ("rest"@, Val::Func(Builtin::Rest)),
        ("len"@, Val::Func(Builtin::Len)),
        ("list?"@, Val::Func(Builtin::IsList)),
        ("empty?"@, Val::Func(Builtin::IsEmpty)),
        ("apply"@, Val::Func(Builtin::Apply)),
        ("read"@, Val::Func(Builtin::Read)),
        ("slurp"@, Val::Func(Builtin::Slurp)),
        ("str"@, Val::Func(Builtin::Join)),
        ("join"@, Val::Func(Builtin::Join)),
        ("prn"@, Val::Func(Builtin::Dbg)),
        ("print"@, Val::Func(Builtin::Print)),
        ("println"@, Val::Func(Builtin::Println)),
        ("echo"@, Val::Func(Builtin::Echo)),
        ("dbg"@, Val::Func(Builtin::Dbg)),
        ("throw"@, Val::Func(Builtin::Throw)),
    ]
}

/// The builtin namespace as a binding vector: each surface name bound to
/// its native function value.
pub fn namespace() -> (r: Vec<(String, Atom)>)
    ensures
        entries_view(r) == namespace_spec(),
        forall|j: int|
            0 <= j < entries_view(r).len() ==> (#[trigger] entries_view(r)[j]).1 is Func,
{
    let mut r: Vec<(String, Atom)> = Vec::new();
    r.push(("+".to_owned(), Atom::Func(Builtin::Add)));
    r.push(("*".to_owned(), Atom::Func(Builtin::Mul)));
    r.push(("/".to_owned(), Atom::Func(Builtin::Div)));
    r.push(("-".to_owned(), Atom::Func(Builtin::Sub)));
    r.push(("=".to_owned(), Atom::Func(Builtin::Eq)));
    r.push(("<".to_owned(), Atom::Func(Builtin::Lt)));
    r.push(("<=".to_owned(), Atom::Func(Builtin::Le)));
    r.push((">".to_owned(), Atom::Func(Builtin::Gt)));
    r.push((">=".to_owned(), Atom::Func(Builtin::Ge)));
    r.push(("and".to_owned(), Atom::Func(Builtin::And)));
    r.push(("or".to_owned(), Atom::Func(Builtin::Or)));
    r.push(("cons".to_owned(), Atom::Func(Builtin::Cons)));
    r.push(("concat".to_owned(), Atom::Func(Builtin::Concat)));
    r.push(("list".to_owned(), Atom::Func(Builtin::MakeList)));
    r.push(("first".to_owned(), Atom::Func(Builtin::First)));
    r.push(("rest".to_owned(), Atom::Func(Builtin::Rest)));
    r.push(("len".to_owned(), Atom::Func(Builtin::Len)));
    r.push(("list?".to_owned(), Atom::Func(Builtin::IsList)));
    r.push(("empty?".to_owned(), Atom::Func(Builtin::IsEmpty)));
    r.push(("apply".to_owned(), Atom::Func(Builtin::Apply)));
    r.push(("read".to_owned(), Atom::Func(Builtin::Read)));
    r.push(("slurp".to_owned(), Atom::Func(Builtin::Slurp)));
    r.push(("str".to_owned(), Atom::Func(Builtin::Join)));
    r.push(("join".to_owned(), Atom::Func(Builtin::Join)));
    r.push(("prn".to_owned(), Atom::Func(Builtin::Dbg)));
    r.push(("print".to_owned(), Atom::Func(Builtin::Print)));
    r.push(("println".to_owned(), Atom::Func(Builtin::Println)));
    r.push(("echo".to_owned(), Atom::Func(Builtin::Echo)));
    r.push(("dbg".to_owned(), Atom::Func(Builtin::Dbg)));
    r.push(("throw".to_owned(), Atom::Func(Builtin::Throw)));
    proof {
        assert(entries_view(r) =~= namespace_spec());
    }
    r
}

impl Env {
    /// A fresh arena whose root frame holds the builtin namespace.
    pub fn new_repl() -> (e: Env)
        ensures
            e.wf(),
            env_view(e).len() == 1,
            env_view(e)[0].outer is None,
            env_view(e)[0].data == namespace_spec(),
            out_view(e).len() == 0,
            files_view(e).len() == 0,
    {
        let mut e = Env::new();
        let mut ns = namespace();
        let n = ns.len();
        let ghost nsv = entries_view(ns);
        let mut k: usize = 0;
        while k < n
            invariant
                k <= n,
                n == ns@.len(),
                nsv == entries_view(ns),
                nsv == namespace_spec(),
                forall|j: int| 0 <= j < nsv.len() ==> (#[trigger] nsv[j]).1 is Func,
                e.wf(),
                env_view(e).len() == 1,
                env_view(e)[0].outer is None,
                env_view(e)[0].data == nsv.take(k as int),
                out_view(e).len() == 0,
                files_view(e).len() == 0,
            decreases n - k,
        {
            let name = ns[k].0.clone();
            let val = ns[k].1.duplicate();
            proof {
                assert(val@ == nsv[k as int].1);
                assert(nsv[k as int].1 is Func);
            }
            e.sets(0, name.as_str(), val);
            proof {
                assert(nsv.take(k as int).push((name@, nsv[k as int].1)) =~= nsv.take(k + 1int));
                assert(env_view(e) =~= env_view(e));
                assert(out_view(e) =~= out_view(e));
            }
            k += 1;
        }
        proof {
            assert(nsv.take(n as int) =~= nsv);
        }
        e
    }
}

} // verus!

verus! {

/// The arithmetic type error for `op` applied to `args`.
fn err_arith(op: &str, args: &Vec<Atom>) -> (e: LishErr)
    ensures
        e.0@ == arith_err(op@, atoms_view(*args)),
{
    let mut m = "Can't eval (".to_owned();
    append_str(&mut m, op);
    append_str(&mut m, " ");
    let rendered = render_args(args, true);
    append_str(&mut m, rendered.as_str());
    append_str(&mut m, ")");
    proof {
        assert(m@ =~= arith_err(op@, atoms_view(*args)));
    }
    LishErr(m)
}

/// The arity error for a builtin that needs exactly one argument.
fn err_arity1(name: &str) -> (e: LishErr)
    ensures
        e.0@ == arity1_msg(name@),
{
    let mut m = "'".to_owned();
    append_str(&mut m, name);
    append_str(&mut m, "' requires 1 argument(s)");
    proof {
        assert(m@ =~= arity1_msg(name@));
    }
    LishErr(m)
}

/// A message of the shape `<value printed> <suffix>`.
pub(crate) fn err_val_suffix(v: &Atom, suffix: &str) -> (e: LishErr)
    ensures
        e.0@ == render_val(v@, true) + suffix@,
{
    let mut m = print_atom(v, true);
    append_str(&mut m, suffix);
    LishErr(m)
}

/// Fold `+` over the arguments.
fn add_exec(args: &Vec<Atom>) -> (r: Result<i64, LishErr>)
    ensures
        match add_fold(atoms_view(*args), 0, 0) {
            Ok(v) => r matches Ok(x) && x == v,
            Err(m) => r matches Err(e) && e.0@ == m,
        },
{
    let ghost av = atoms_view(*args);
    proof {
        lemma_atoms_view(*args);
    }
    let n = args.len();
    let mut acc: i64 = 0;
    let mut k: usize = 0;
    while k < n
        invariant
            k <= n,
            n == args@.len(),
            av == atoms_view(*args),
            add_fold(av, 0, 0) == add_fold(av, k as int, acc),
        decreases n - k,
    {
        proof {
            lemma_atoms_view(*args);
        }
        match &args[k] {
            Atom::Int(v) => {
                acc = acc.wrapping_add(*v);
            },
            _ => {
                return Err(err_arith("+", args));
            },
        }
        k += 1;
    }
    Ok(acc)
}

/// Fold `*` over the arguments.
fn mul_exec(args: &Vec<Atom>) -> (r: Result<i64, LishErr>)
    ensures
        match mul_fold(atoms_view(*args), 0, 1) {
            Ok(v) => r matches Ok(x) && x == v,
            Err(m) => r matches Err(e) && e.0@ == m,
        },
{
    let ghost av = atoms_view(*args);
    proof {
        lemma_atoms_view(*args);
    }
    let n = args.len();
    let mut acc: i64 = 1;
    let mut k: usize = 0;
    while k < n
        invariant
            k <= n,
            n == args@.len(),
            av == atoms_view(*args),
            mul_fold(av, 0, 1) == mul_fold(av, k as int, acc),
        decreases n - k,
    {
        proof {
            lemma_atoms_view(*args);
        }
        match &args[k] {
            Atom::Int(v) => {
                acc = acc.wrapping_mul(*v);
            },
            _ => {
                return Err(err_arith("*", args));
            },
        }
        k += 1;
    }
    Ok(acc)
}

/// Truncating division, wrapping on the one overflowing case.
fn trunc_div_exec(a: i64, b: i64) -> (r: i64)
    requires
        b != 0,
    ensures
        r == trunc_div_i64(a, b),
{
    if a == i64::MIN && b == -1 {
        return i64::MIN;
    }
    let mag_a: u64 = if a < 0 {
        ((-(a + 1)) as u64) + 1
    } else {
        a as u64
    };
    let mag_b: u64 = if b < 0 {
        ((-(b + 1)) as u64) + 1
    } else {
        b as u64
    };
    proof {
        assert(mag_a as int == abs_int(a as int));
        assert(mag_b as int == abs_int(b as int));
    }
    let q = mag_a / mag_b;
    if (a < 0) != (b < 0) {
        if q == 9223372036854775808 {
            i64::MIN
        } else {
            -(q as i64)
        }
    } else {
        q as i64
    }
}

/// Fold `/` over the arguments from the seed on.
fn div_exec(args: &Vec<Atom>, init: i64) -> (r: Result<i64, LishErr>)
    ensures
        match div_fold(atoms_view(*args), 1, init) {
            Ok(v) => r matches Ok(x) && x == v,
            Err(m) => r matches Err(e) && e.0@ == m,
        },
{
    let ghost av = atoms_view(*args);
    proof {
        lemma_atoms_view(*args);
    }
    let n = args.len();
    let mut acc: i64 = init;
    let mut k: usize = 1;
    while k < n
        invariant
            1 <= k,
            k <= n || k == 1,
            n == args@.len(),
            av == atoms_view(*args),
            div_fold(av, 1, init) == div_fold(av, k as int, acc),
        decreases n - k,
    {
        proof {
            lemma_atoms_view(*args);
        }
        match &args[k] {
            Atom::Int(v) => {
                if *v == 0 {
                    return Err(LishErr("Division by zero".to_owned()));
                }
                acc = trunc_div_exec(acc, *v);
            },
            _ => {
                return Err(err_arith("/", args));
            },
        }
        k += 1;
    }
    Ok(acc)
}

/// Fold `-` over the arguments from the seed on.
fn sub_exec(args: &Vec<Atom>, init: i64) -> (r: Result<i64, LishErr>)
    ensures
        match sub_fold(atoms_view(*args), 1, init) {
            Ok(v) => r matches Ok(x) && x == v,
            Err(m) => r matches Err(e) && e.0@ == m,
        },
{
    let ghost av = atoms_view(*args);
    proof {
        lemma_atoms_view(*args);
    }
    let n = args.len();
    let mut acc: i64 = init;
    let mut k: usize = 1;
    while k < n
        invariant
            1 <= k,
            k <= n || k == 1,
            n == args@.len(),
            av == atoms_view(*args),
            sub_fold(av, 1, init) == sub_fold(av, k as int, acc),
        decreases n - k,
    {
        proof {
            lemma_atoms_view(*args);
        }
        match &args[k] {
            Atom::Int(v) => {
                acc = acc.wrapping_sub(*v);
            },
            _ => {
                return Err(err_arith("-", args));
            },
        }
        k += 1;
    }
    Ok(acc)
}

/// The surface name of a comparison builtin.
fn cmp_name_exec(op: Builtin) -> (r: &'static str)
    requires
        op is Eq || op is Lt || op is Le || op is Gt || op is Ge,
    ensures
        r@ == cmp_name(op),
{
    match op {
        Builtin::Eq => "=",
        Builtin::Lt => "<",
        Builtin::Le => "<=",
        Builtin::Gt => ">",
        _ => ">=",
    }
}

/// Evaluate a comparison builtin: the first argument against each later
/// one.
fn cmp_exec(op: Builtin, args: &Vec<Atom>) -> (r: Result<bool, LishErr>)
    requires
        op is Eq || op is Lt || op is Le || op is Gt || op is Ge,
        args@.len() >= 1,
    ensures
        r matches Ok(b) && b == cmp_all(op, atoms_view(*args), 1),
{
    let ghost av = atoms_view(*args);
    proof {
        lemma_atoms_view(*args);
    }
    let n = args.len();
    let mut acc = true;
    let mut k: usize = 1;
    while k < n
        invariant
            1 <= k,
            k <= n || k == 1,
            n == args@.len(),
            av == atoms_view(*args),
            op is Eq || op is Lt || op is Le || op is Gt || op is Ge,
            cmp_all(op, av, 1) == (acc && cmp_all(op, av, k as int)),
        decreases n - k,
    {
        proof {
            lemma_atoms_view(*args);
        }
        let holds = match op {
            Builtin::Eq => atom_eq(&args[0], &args[k]),
            Builtin::Lt => matches!(atom_cmp(&args[0], &args[k]), Some(Ordering::Less)),
            Builtin::Le => matches!(
                atom_cmp(&args[0], &args[k]),
                Some(Ordering::Less) | Some(Ordering::Equal)
            ),
            Builtin::Gt => matches!(atom_cmp(&args[0], &args[k]), Some(Ordering::Greater)),
            _ => matches!(
                atom_cmp(&args[0], &args[k]),
                Some(Ordering::Greater) | Some(Ordering::Equal)
            ),
        };
        proof {
            assert(holds == cmp_holds(op, av[0], av[k as int]));
        }
        acc = acc && holds;
        k += 1;
    }
    Ok(acc)
}

/// Fold `and`/`or` over the arguments.
fn bool_exec(args: &Vec<Atom>, init: bool, conj: bool) -> (r: Result<bool, LishErr>)
    ensures
        match bool_fold(atoms_view(*args), 0, init, conj) {
            Ok(b) => r matches Ok(x) && x == b,
            Err(m) => r matches Err(e) && e.0@ == m,
        },
{
    let ghost av = atoms_view(*args);
    proof {
        lemma_atoms_view(*args);
    }
    let n = args.len();
    let mut acc = init;
    let mut k: usize = 0;
    while k < n
        invariant
            k <= n,
            n == args@.len(),
            av == atoms_view(*args),
            bool_fold(av, 0, init, conj) == bool_fold(av, k as int, acc, conj),
        decreases n - k,
    {
        proof {
            lemma_atoms_view(*args);
        }
        match &args[k] {
            Atom::Bool(b) => {
                acc = if conj {
                    acc && *b
                } else {
                    acc || *b
                };
            },
            other => {
                return Err(err_val_suffix(other, " is not Bool"));
            },
        }
        k += 1;
    }
    Ok(acc)
}

/// Prepend already-flattened elements to the outcome of flattening the
/// rest.
spec fn concat_cont(acc: Seq<Val>, rest: Result<Seq<Val>, Seq<char>>) -> Result<
    Seq<Val>,
    Seq<char>,
> {
    match rest {
        Ok(r) => Ok(acc + r),
        Err(m) => Err(m),
    }
}

/// Flatten the arguments of `concat` into one element vector.
fn concat_exec(args: &Vec<Atom>) -> (r: Result<Vec<Atom>, LishErr>)
    ensures
        match concat_fold(atoms_view(*args), 0) {
            Ok(items) => r matches Ok(v) && atoms_view(v) == items,
            Err(m) => r matches Err(e) && e.0@ == m,
        },
{
    let ghost av = atoms_view(*args);
    proof {
        lemma_atoms_view(*args);
    }
    let n = args.len();
    let mut out: Vec<Atom> = Vec::new();
    let mut k: usize = 0;
    proof {
        lemma_atoms_view(out);
        assert(concat_cont(atoms_view(out), concat_fold(av, 0)) == concat_fold(av, 0)) by {
            match concat_fold(av, 0) {
                Ok(r0) => {
                    assert(atoms_view(out) + r0 =~= r0);
                },
                Err(_) => {},
            }
        }
    }
    while k < n
        invariant
            k <= n,
            n == args@.len(),
            av == atoms_view(*args),
            concat_cont(atoms_view(out), concat_fold(av, k as int)) == concat_fold(av, 0),
        decreases n - k,
    {
        proof {
            lemma_atoms_view(*args);
        }
        let ghost o0 = atoms_view(out);
        match &args[k] {
            Atom::List(l) => {
                let ghost items = l@;
                proof {
                    lemma_atoms_view(l.tail);
                }
                let m = l.tail.len();
                proof {
                    lemma_atoms_view(out);
                    assert(items[0] == atom_view(*l.head));
                }
                out.push((*l.head).duplicate());
                proof {
                    lemma_atoms_view(out);
                    assert(atoms_view(out) =~= o0 + items.take(1));
                }
                let mut j: usize = 0;
                while j < m
                    invariant
                        j <= m,
                        m == l.tail@.len(),
                        items == l@,
                        items.len() == m + 1,
                        atoms_view(out) == o0 + items.take(j + 1int),
                    decreases m - j,
                {
                    let ghost before = atoms_view(out);
                    proof {
                        lemma_atoms_view(out);
                    }
                    out.push(l.tail[j].duplicate());
                    proof {
                        lemma_atoms_view(out);
                        lemma_atoms_view(l.tail);
                        assert(items[j + 1int] == atom_view(l.tail[j as int]));
                        assert(atoms_view(out) =~= before.push(items[j + 1int]));
                        assert(before.push(items[j + 1int]) =~= o0 + items.take(j + 2int));
                    }
                    j += 1;
                }
                proof {
                    assert(items.take(m + 1int) =~= items);
                    match concat_fold(av, k + 1int) {
                        Ok(r2) => {
                            assert(o0 + (items + r2) =~= (o0 + items) + r2);
                        },
                        Err(_) => {},
                    }
                }
            },
            Atom::Nil => {},
            _ => {
                return Err(LishErr("Trying to concat not list".to_owned()));
            },
        }
        k += 1;
    }
    proof {
        assert(atoms_view(out) + Seq::<Val>::empty() =~= atoms_view(out));
    }
    Ok(out)
}

/// Join the arguments into one string: strings raw, everything else in its
/// readable printed form.
fn join_exec(args: &Vec<Atom>) -> (r: String)
    ensures
        r@ == join_parts(atoms_view(*args), 0),
{
    let ghost av = atoms_view(*args);
    proof {
        lemma_atoms_view(*args);
    }
    let n = args.len();
    let mut m = String::new();
    let mut k: usize = 0;
    proof {
        assert(m@ + join_parts(av, 0) =~= join_parts(av, 0));
    }
    while k < n
        invariant
            k <= n,
            n == args@.len(),
            av == atoms_view(*args),
            join_parts(av, 0) == m@ + join_parts(av, k as int),
        decreases n - k,
    {
        proof {
            lemma_atoms_view(*args);
        }
        let ghost m0 = m@;
        let ghost part = match av[k as int] {
            Val::Str(s) => s,
            v => render_val(v, true),
        };
        match &args[k] {
            Atom::String(s) => {
                let piece = s.clone();
                append_str(&mut m, piece.as_str());
            },
            other => {
                let piece = print_atom(other, true);
                append_str(&mut m, piece.as_str());
            },
        }
        proof {
            assert(m@ == m0 + part);
            assert(m0 + (part + join_parts(av, k + 1int)) =~= (m0 + part) + join_parts(
                av,
                k + 1int,
            ));
        }
        k += 1;
    }
    proof {
        assert(m@ + Seq::<char>::empty() =~= m@);
    }
    m
}

} // verus!

verus! {

/// Apply a native function to already-evaluated arguments, as
/// `builtin_spec` says.  `apply` on a lambda hands off to the evaluator
/// (spending one unit of the depth budget); everything else is decided
/// here, leaving every environment frame untouched and appending exactly
/// the printed chunks to the output buffer.
pub fn apply_builtin(op: Builtin, args: Vec<Atom>, env: &mut Env, fuel: u64) -> (r: LishResult)
    requires
        old(env).wf(),
        vals_envs_ok(atoms_view(args), env_view(*old(env)).len() as int, 0),
    ensures
        final(env).wf(),
        env_view(*old(env)).len() <= env_view(*final(env)).len(),
        final(env).files == old(env).files,
        r matches Ok(a) ==> val_envs_ok(a@, env_view(*final(env)).len() as int),
        match builtin_spec(op, atoms_view(args), files_view(*old(env))) {
            BuiltinOut::Done(Ok((v, outs))) => (r matches Ok(a) && a@ == v) && env_view(
                *final(env),
            ) == env_view(*old(env)) && out_view(*final(env)) == out_view(*old(env)) + outs,
            BuiltinOut::Done(Err(m)) => (r matches Err(e) && e.0@ == m) && env_view(*final(env))
                == env_view(*old(env)) && out_view(*final(env)) == out_view(*old(env)),
            BuiltinOut::CallLambda => true,
        },
        apply_matches(r, *old(env), *final(env), op, atoms_view(args), fuel as nat),
    decreases fuel, 1int, args@.len(),
{
    let ghost av = atoms_view(args);
    let ghost n0 = env_view(*old(env)).len() as int;
    proof {
        lemma_atoms_view(args);
        lemma_vals_envs_ok_pointwise(av, n0, 0);
        assert(out_view(*env) + Seq::<Seq<char>>::empty() =~= out_view(*env));
    }
    match op {
        Builtin::Add => match add_exec(&args) {
            Ok(v) => Ok(Atom::Int(v)),
            Err(e) => Err(e),
        },
        Builtin::Mul => match mul_exec(&args) {
            Ok(v) => Ok(Atom::Int(v)),
            Err(e) => Err(e),
        },
        Builtin::Div => {
            if args.len() == 0 {
                return Err(err_arith("/", &args));
            }
            match &args[0] {
                Atom::Int(a0) => {
                    proof {
                        assert(av[0] == Val::Int(*a0 as int));
                    }
                    match div_exec(&args, *a0) {
                        Ok(v) => Ok(Atom::Int(v)),
                        Err(e) => Err(e),
                    }
                },
                _ => Err(err_arith("/", &args)),
            }
        },
        Builtin::Sub => {
            if args.len() == 0 {
                return Err(LishErr("Can't evaluate (-)".to_owned()));
            }
            if args.len() == 1 {
                match &args[0] {
                    Atom::Int(a0) => {
                        proof {
                            assert(av[0] == Val::Int(*a0 as int));
                        }
                        let z: i64 = 0;
                        return Ok(Atom::Int(z.wrapping_sub(*a0)));
                    },
                    other => {
                        return Err(err_val_prefix("Can't negate ", other));
                    },
                }
            }
            match &args[0] {
                Atom::Int(a0) => {
                    proof {
                        assert(av[0] == Val::Int(*a0 as int));
                    }
                    match sub_exec(&args, *a0) {
                        Ok(v) => Ok(Atom::Int(v)),
                        Err(e) => Err(e),
                    }
                },
                _ => Err(err_arith("-", &args)),
            }
        },
        Builtin::Or => match bool_exec(&args, false, false) {
            Ok(b) => Ok(Atom::Bool(b)),
            Err(e) => Err(e),
        },
        Builtin::And => match bool_exec(&args, true, true) {
            Ok(b) => Ok(Atom::Bool(b)),
            Err(e) => Err(e),
        },
        Builtin::Eq | Builtin::Lt | Builtin::Le | Builtin::Gt | Builtin::Ge => {
            if args.len() == 0 {
                let name = cmp_name_exec(op);
                return Err(err_arith(name, &args));
            }
            match cmp_exec(op, &args) {
                Ok(b) => Ok(Atom::Bool(b)),
                Err(e) => Err(e),
            }
        },
        Builtin::Dbg => {
            let mut chunk = render_args(&args, true);
            push_char(&mut chunk, '\n');
            let ghost c = chunk@;
            env.push_out(chunk);
            proof {
                assert(c =~= render_vals(av, true, 0) + "\n"@) by {
                    reveal_strlit("\n");
                }
                assert(out_view(*env) =~= out_view(*old(env)) + seq![c]);
            }
            Ok(Atom::Nil)
        },
        Builtin::Print => {
            let chunk = render_args(&args, false);
            let ghost c = chunk@;
            env.push_out(chunk);
            proof {
                assert(out_view(*env) =~= out_view(*old(env)) + seq![c]);
            }
            Ok(Atom::Nil)
        },
        Builtin::Println => {
            let mut chunk = render_args(&args, false);
            push_char(&mut chunk, '\n');
            let ghost c = chunk@;
            env.push_out(chunk);
            proof {
                assert(c =~= render_vals(av, false, 0) + "\n"@) by {
                    reveal_strlit("\n");
                }
                assert(out_view(*env) =~= out_view(*old(env)) + seq![c]);
            }
            Ok(Atom::Nil)
        },
        Builtin::Echo => Ok(Atom::String(render_args(&args, false))),
        Builtin::Cons => {
            if args.len() < 2 {
                return Err(LishErr("'cons' requires at least 2 argument(s)".to_owned()));
            }
            let mut args = args;
            let last = match args.pop() {
                Some(a) => a,
                None => {
                    proof {
                        assert(false);
                    }
                    return Err(LishErr(String::new()));
                },
            };
            proof {
                lemma_atoms_view(args);
                assert(atoms_view(args) =~= av.take(av.len() - 1));
            }
            match last {
                Atom::List(l) => {
                    let ghost lv = l@;
                    proof {
                        lemma_atoms_view(l.tail);
                    }
                    let mut items = args;
                    proof {
                        lemma_atoms_view(items);
                    }
                    items.push((*l.head).duplicate());
                    let mut rest_copy = copy_tail(&l.tail, 0);
                    items.append(&mut rest_copy);
                    proof {
                        lemma_atoms_view(items);
                        assert(av[av.len() - 1] == Val::List(lv));
                        assert(val_envs_ok(av[av.len() - 1], n0));
                        lemma_vals_envs_ok_pointwise(lv, n0, 0);
                        assert(atoms_view(items) =~= av.take(av.len() - 1) + lv);
                        assert forall|j: int|
                            0 <= j < atoms_view(items).len() implies val_envs_ok(
                            #[trigger] atoms_view(items)[j],
                            n0,
                        ) by {
                            if j < av.len() - 1 {
                                assert(atoms_view(items)[j] == av[j]);
                            } else {
                                assert(atoms_view(items)[j] == lv[j - (av.len() - 1)]);
                            }
                        }
                        lemma_vals_envs_ok_pointwise(atoms_view(items), n0, 0);
                    }
                    let r = Atom::from_vec(items);
                    proof {
                        assert(r@ == Val::List(av.take(av.len() - 1) + lv));
                    }
                    Ok(r)
                },
                Atom::Nil => {
                    proof {
                        lemma_vals_envs_ok_pointwise(av.take(av.len() - 1), n0, 0);
                        assert forall|j: int|
                            0 <= j < av.take(av.len() - 1).len() implies val_envs_ok(
                            #[trigger] av.take(av.len() - 1)[j],
                            n0,
                        ) by {
                            assert(av.take(av.len() - 1)[j] == av[j]);
                        }
                    }
                    let r = Atom::from_vec(args);
                    Ok(r)
                },
                other => Err(LishErr("Trying to cons not a list".to_owned())),
            }
        },
        Builtin::First => {
            if args.len() != 1 {
                return Err(err_arity1("first"));
            }
            let mut args = args;
            let a0 = match args.pop() {
                Some(a) => a,
                None => {
                    proof {
                        assert(false);
                    }
                    return Err(LishErr(String::new()));
                },
            };
            match a0 {
                Atom::List(l) => {
                    let ghost lv = l@;
                    proof {
                        lemma_atoms_view(l.tail);
                        assert(av[0] == Val::List(lv));
                        assert(val_envs_ok(av[0], n0));
                        lemma_vals_envs_ok_pointwise(lv, n0, 0);
                        assert(lv[0] == atom_view(*l.head));
                    }
                    let List { head, tail } = l;
                    Ok(*head)
                },
                _ => Err(LishErr("Trying to get first of not list".to_owned())),
            }
        },
        Builtin::Rest => {
            if args.len() != 1 {
                return Err(err_arity1("rest"));
            }
            let mut args = args;
            let a0 = match args.pop() {
                Some(a) => a,
                None => {
                    proof {
                        assert(false);
                    }
                    return Err(LishErr(String::new()));
                },
            };
            match a0 {
                Atom::List(l) => {
                    let ghost lv = l@;
                    proof {
                        lemma_atoms_view(l.tail);
                        assert(av[0] == Val::List(lv));
                        assert(val_envs_ok(av[0], n0));
                        lemma_vals_envs_ok_pointwise(lv, n0, 0);
                    }
                    let List { head, tail } = l;
                    proof {
                        lemma_atoms_view(tail);
                        assert(atoms_view(tail) =~= lv.drop_first());
                        lemma_vals_envs_ok_pointwise(lv.drop_first(), n0, 0);
                        assert forall|j: int|
                            0 <= j < lv.drop_first().len() implies val_envs_ok(
                            #[trigger] lv.drop_first()[j],
                            n0,
                        ) by {
                            assert(lv.drop_first()[j] == lv[j + 1]);
                        }
                    }
                    let r = Atom::from_vec(tail);
                    Ok(r)
                },
                _ => Err(LishErr("Trying to get rest of not list".to_owned())),
            }
        },
        Builtin::MakeList => {
            proof {
                lemma_vals_envs_ok_pointwise(av, n0, 0);
            }
            Ok(Atom::from_vec(args))
        },
        Builtin::IsEmpty => {
            if args.len() != 1 {
                return Err(err_arity1("empty?"));
            }
            Ok(Atom::Bool(matches!(&args[0], Atom::Nil)))
        },
        Builtin::Len => {
            if args.len() != 1 {
                return Err(err_arity1("len"));
            }
            match &args[0] {
                Atom::List(l) => {
                    proof {
                        lemma_atoms_view(l.tail);
                        assert(av[0] == Val::List(l@));
                        assert(l@.len() == l.tail@.len() + 1);
                    }
                    let n = l.tail.len();
                    if n as u64 >= 9223372036854775807u64 {
                        Err(LishErr("List is too long".to_owned()))
                    } else {
                        Ok(Atom::Int((n as u64 + 1) as i64))
                    }
                },
                _ => Err(LishErr("Trying to get len of not list".to_owned())),
            }
        },
        Builtin::IsList => {
            if args.len() != 1 {
                return Err(err_arity1("list?"));
            }
            Ok(Atom::Bool(matches!(&args[0], Atom::List(_) | Atom::Nil)))
        },
        Builtin::Concat => match concat_exec(&args) {
            Ok(items) => {
                proof {
                    match concat_fold(av, 0) {
                        Ok(its) => {
                            lemma_concat_envs_ok(av, 0, n0);
                            lemma_vals_envs_ok_pointwise(its, n0, 0);
                        },
                        Err(_) => {},
                    }
                }
                Ok(Atom::from_vec(items))
            },
            Err(e) => Err(e),
        },
        Builtin::Apply => {
            if args.len() == 0 {
                return Err(err_arity1("apply"));
            }
            let mut args = args;
            let fun = args.remove(0);
            let ghost fnv = fun@;
            proof {
                lemma_atoms_view(args);
                assert(atoms_view(args) =~= av.skip(1));
                lemma_vals_envs_ok_pointwise(av.skip(1), n0, 0);
                assert(fnv == av[0]);
            }
            match fun {
                Atom::Func(op2) => apply_builtin(op2, args, env, fuel),
                Atom::Lambda { ast: la, params, env: le, is_macro } => {
                    proof {
                        assert(fnv == Val::Lambda {
                            env: le as int,
                            params: Box::new((*params)@),
                            body: Box::new((*la)@),
                            is_macro,
                        });
                    }
                    if fuel == 0 {
                        return Err(LishErr("Too deep recursion".to_owned()));
                    }
                    let ghost nb = env_view(*env).len() as int;
                    let ghost fr0 = env_view(*env);
                    let ghost out0 = out_view(*env);
                    let f2 = match env.bind(Some(le), &*params, args) {
                        Ok(f) => f,
                        Err(e) => {
                            return Err(e);
                        },
                    };
                    proof {
                        lemma_val_envs_ok_mono((*la)@, nb, env_view(*env).len() as int);
                        let bres = bind_spec((*params)@, av.skip(1));
                        assert(bres matches Ok(data) && env_view(*env) == fr0.push(
                            crate::env::FrameV { data, outer: Some(le as int) },
                        ) && f2 == fr0.len());
                    }
                    crate::eval_fuel(*la, env, f2, fuel - 1)
                },
                other => Err(err_val_suffix(&other, " is not a function")),
            }
        },
        Builtin::Read => {
            if args.len() != 1 {
                return Err(err_arity1("read"));
            }
            let mut args = args;
            let a0 = match args.pop() {
                Some(a) => a,
                None => {
                    proof {
                        assert(false);
                    }
                    return Err(LishErr(String::new()));
                },
            };
            match a0 {
                Atom::String(s) => {
                    let r = read(s);
                    proof {
                        match &r {
                            Ok(a) => {
                                lemma_val_envs_ok_mono(a@, 0, n0);
                            },
                            Err(_) => {},
                        }
                    }
                    r
                },
                other => Err(err_val_suffix(&other, " is not a string")),
            }
        },
        Builtin::Slurp => {
            if args.len() != 1 {
                return Err(err_arity1("slurp"));
            }
            match &args[0] {
                Atom::String(name) => match env.lookup_file(name) {
                    Some(contents) => Ok(Atom::String(contents)),
                    None => {
                        let mut m = "Can't read file '".to_owned();
                        append_str(&mut m, name.as_str());
                        append_str(&mut m, "'");
                        proof {
                            assert(m@ =~= no_file_msg(name@));
                        }
                        Err(LishErr(m))
                    },
                },
                other => Err(err_val_suffix(other, " is not a string")),
            }
        },
        Builtin::Join => Ok(Atom::String(join_exec(&args))),
        Builtin::Throw => {
            if args.len() != 1 {
                return Err(err_arity1("throw"));
            }
            Err(LishErr(print_atom(&args[0], true)))
        },
    }
}

/// A message of the shape `<prefix><value printed>`.
fn err_val_prefix(prefix: &str, v: &Atom) -> (e: LishErr)
    ensures
        e.0@ == prefix@ + render_val(v@, true),
{
    let mut m = prefix.to_owned();
    let f = print_atom(v, true);
    append_str(&mut m, f.as_str());
    LishErr(m)
}

/// A flattening that succeeds only holds values drawn from lists that
/// were fit for `n` frames, so it is fit too.
proof fn lemma_concat_envs_ok(args: Seq<Val>, i: int, n: int)
    requires
        vals_envs_ok(args, n, 0),
    ensures
        concat_fold(args, i) matches Ok(items) ==> vals_envs_ok(items, n, 0),
    decreases args.len() - i,
{
    if 0 <= i < args.len() {
        lemma_concat_envs_ok(args, i + 1, n);
        lemma_vals_envs_ok_pointwise(args, n, 0);
        match args[i] {
            Val::List(items) => {
                lemma_vals_envs_ok_pointwise(items, n, 0);
                match concat_fold(args, i + 1) {
                    Ok(rest) => {
                        lemma_vals_envs_ok_pointwise(rest, n, 0);
                        lemma_vals_envs_ok_pointwise(items + rest, n, 0);
                    },
                    Err(_) => {},
                }
            },
            _ => {},
        }
    } else {
        lemma_vals_envs_ok_pointwise(Seq::<Val>::empty(), n, 0);
    }
}

} // verus!
