//! The printer: renders a value, or an error, back to text.  `print` is the
//! display form (strings appear raw); `print_debug` is the readable form
//! (strings appear quoted, with `\n`, `\"` and `\\` escaped) that the REPL
//! shows and that `read` accepts back.
use vstd::prelude::*;
use crate::types::{Atom, List, Val, LishResult, atom_view, lemma_atoms_view};
use crate::text::string_of;

verus! {

use vstd::string::StrSliceExecFns;

/// The decimal digit character for `d`.
pub open spec fn digit_char(d: int) -> char {
    if d == 0 { '0' }
    else if d == 1 { '1' }
    else if d == 2 { '2' }
    else if d == 3 { '3' }
    else if d == 4 { '4' }
    else if d == 5 { '5' }
    else if d == 6 { '6' }
    else if d == 7 { '7' }
    else if d == 8 { '8' }
    else { '9' }
}

/// The decimal digits of a positive number, most significant first;
/// empty for zero and below.
pub open spec fn nat_chars(n: int) -> Seq<char>
    decreases n,
{
    if n <= 0 {
        Seq::empty()
    } else {
        nat_chars(n / 10).push(digit_char(n % 10))
    }
}

/// The decimal rendering of an integer, with a leading `-` when negative.
pub open spec fn int_chars(i: int) -> Seq<char> {
    if i == 0 {
        seq!['0']
    } else if i < 0 {
        seq!['-'] + nat_chars(-i)
    } else {
        nat_chars(i)
    }
}

/// One character of a string as the debug printer shows it: the three
/// escapes the reader knows are written escaped, every other character
/// stands for itself.
pub open spec fn escape_char(c: char) -> Seq<char> {
    if c == '\\' {
        seq!['\\', '\\']
    } else if c == '"' {
        seq!['\\', '"']
    } else if c == '\n' {
        seq!['\\', 'n']
    } else {
        seq![c]
    }
}

/// A string's characters as the debug printer shows them.
pub open spec fn escape_chars(s: Seq<char>) -> Seq<char>
    decreases s.len(),
{
    if s.len() == 0 {
        Seq::empty()
    } else {
        escape_char(s[0]) + escape_chars(s.drop_first())
    }
}

/// The keyword under which a lambda prints.
pub open spec fn lambda_keyword(dbg: bool, is_macro: bool) -> Seq<char> {
    if is_macro {
        if dbg {
            "macro"@
        } else {
            "defmacro"@
        }
    } else {
        "fn"@
    }
}

/// What a value prints as.  With `dbg` false this is the display form
/// (strings raw); with `dbg` true the readable form (strings quoted and
/// escaped).
pub open spec fn render_val(v: Val, dbg: bool) -> Seq<char>
    decreases v, 2int, 0int,
{
    match v {
        Val::Nil => "()"@,
        Val::Bool(b) => if b {
            "true"@
        } else {
            "false"@
        },
        Val::Int(i) => int_chars(i),
        Val::Float(t) => t,
        Val::Str(s) => if dbg {
            seq!['"'] + escape_chars(s) + seq!['"']
        } else {
            s
        },
        Val::Sym(s) => s,
        Val::Func(f) => "#fn"@,
        Val::Lambda { env, params, body, is_macro } => seq!['('] + lambda_keyword(dbg, is_macro)
            + seq![' ', '('] + (match *params {
            Val::List(ps) => render_vals(ps, dbg, 0),
            Val::Nil => "()"@,
            other => render_val(other, dbg),
        }) + seq![')', ' '] + render_val(*body, dbg) + seq![')'],
        Val::List(s) => seq!['('] + render_vals(s, dbg, 0) + seq![')'],
    }
}

/// What the elements of a list from position `i` on print as, separated by
/// single spaces.
pub open spec fn render_vals(s: Seq<Val>, dbg: bool, i: int) -> Seq<char>
    decreases s, 1int, s.len() - i,
{
    if !(0 <= i < s.len()) {
        Seq::empty()
    } else if i == s.len() - 1 {
        render_val(s[i], dbg)
    } else {
        render_val(s[i], dbg) + seq![' '] + render_vals(s, dbg, i + 1)
    }
}

/// What an evaluation outcome prints as: the value, or the error message
/// after `ERROR: `.
pub open spec fn render_result(v: LishResult, dbg: bool) -> Seq<char> {
    match v {
        Ok(a) => render_val(atom_view(a), dbg),
        Err(e) => "ERROR: "@ + e.0@,
    }
}

/// Append the characters of `s` to `out`.
fn append_lit(out: &mut Vec<char>, s: &str)
    ensures
        final(out)@ == old(out)@ + s@,
{
    let n = s.unicode_len();
    proof {
        assert(old(out)@ + s@.take(0) =~= old(out)@);
    }
    let mut k: usize = 0;
    while k < n
        invariant
            n == s@.len(),
            k <= n,
            out@ == old(out)@ + s@.take(k as int),
        decreases n - k,
    {
        out.push(s.get_char(k));
        proof {
            assert((old(out)@ + s@.take(k as int)).push(s@[k as int]) =~= old(out)@ + s@.take(
                k + 1int,
            ));
        }
        k += 1;
    }
    proof {
        assert(old(out)@ + s@.take(n as int) =~= old(out)@ + s@);
    }
}

/// The digit character for `d`.
fn digit_exec(d: u64) -> (c: char)
    requires
        d < 10,
    ensures
        c == digit_char(d as int),
{
    match d {
        0 => '0',
        1 => '1',
        2 => '2',
        3 => '3',
        4 => '4',
        5 => '5',
        6 => '6',
        7 => '7',
        8 => '8',
        _ => '9',
    }
}

/// Append the decimal digits of `n` to `out`, most significant first.
fn push_nat_chars(n: u64, out: &mut Vec<char>)
    ensures
        final(out)@ == old(out)@ + nat_chars(n as int),
    decreases n,
{
    if n == 0 {
        proof {
            assert(old(out)@ + nat_chars(0) =~= old(out)@);
        }
    } else {
        push_nat_chars(n / 10, out);
        out.push(digit_exec(n % 10));
        proof {
            assert((old(out)@ + nat_chars(n as int / 10)).push(digit_char(n as int % 10)) =~= old(
                out,
            )@ + nat_chars(n as int));
        }
    }
}

/// Append the decimal rendering of `i` to `out`.
fn push_int_chars(i: i64, out: &mut Vec<char>)
    ensures
        final(out)@ == old(out)@ + int_chars(i as int),
{
    if i == 0 {
        out.push('0');
        proof {
            assert(old(out)@.push('0') =~= old(out)@ + int_chars(0));
        }
    } else if i < 0 {
        out.push('-');
        let mag: u64 = ((-(i + 1)) as u64) + 1;
        proof {
            assert(mag as int == -(i as int));
        }
        push_nat_chars(mag, out);
        proof {
            assert(old(out)@.push('-') + nat_chars(mag as int) =~= old(out)@ + int_chars(i as int));
        }
    } else {
        push_nat_chars(i as u64, out);
    }
}

/// Append what `a` prints as to `out`.
#[verifier::rlimit(60)]
fn render_atom(a: &Atom, dbg: bool, out: &mut Vec<char>)
    ensures
        final(out)@ == old(out)@ + render_val(a@, dbg),
    decreases *a, 1int, 0int,
{
    match a {
        Atom::Nil => append_lit(out, "()"),
        Atom::Bool(b) => if *b {
            append_lit(out, "true")
        } else {
            append_lit(out, "false")
        },
        Atom::Int(i) => push_int_chars(*i, out),
        Atom::Float(t) => append_lit(out, t.as_str()),
        Atom::String(s) => {
            if dbg {
                out.push('"');
                push_escaped(s.as_str(), out);
                out.push('"');
                proof {
                    assert(old(out)@.push('"') + escape_chars(s@) + seq!['"'] =~= old(out)@ + (seq![
                        '"',
                    ] + escape_chars(s@) + seq!['"']));
                    assert(((old(out)@.push('"')) + escape_chars(s@)).push('"') =~= old(out)@.push(
                        '"',
                    ) + escape_chars(s@) + seq!['"']);
                }
            } else {
                append_lit(out, s.as_str());
            }
        },
        Atom::Symbol(s) => append_lit(out, s.as_str()),
        Atom::Func(f) => append_lit(out, "#fn"),
        Atom::Lambda { ast, params, env, is_macro } => {
            let ghost o0 = out@;
            out.push('(');
            if *is_macro {
                if dbg {
                    append_lit(out, "macro");
                } else {
                    append_lit(out, "defmacro");
                }
            } else {
                append_lit(out, "fn");
            }
            out.push(' ');
            out.push('(');
            let ghost o1 = out@;
            match &**params {
                Atom::List(ps) => {
                    render_items(ps, 0, dbg, out);
                },
                Atom::Nil => {
                    append_lit(out, "()");
                },
                other => {
                    render_atom(other, dbg, out);
                },
            }
            proof {
                assert(out@ == o1 + (match (**params)@ {
                    Val::List(psv) => render_vals(psv, dbg, 0),
                    Val::Nil => "()"@,
                    otherv => render_val(otherv, dbg),
                }));
            }
            out.push(')');
            out.push(' ');
            render_atom(&**ast, dbg, out);
            out.push(')');
            proof {
                assert(out@ =~= o0 + render_val(a@, dbg));
            }
        },
        Atom::List(l) => {
            let ghost o0 = out@;
            out.push('(');
            render_items(l, 0, dbg, out);
            out.push(')');
            proof {
                assert(out@ =~= o0 + render_val(a@, dbg));
            }
        },
    }
}

/// Append what the elements of `l` from position `i` on print as,
/// space-separated, to `out`.
fn render_items(l: &List, i: usize, dbg: bool, out: &mut Vec<char>)
    requires
        i <= l@.len(),
    ensures
        final(out)@ == old(out)@ + render_vals(l@, dbg, i as int),
    decreases *l, 0int, l@.len() - i,
{
    proof {
        lemma_atoms_view(l.tail);
    }
    if i > l.tail.len() {
        proof {
            assert(old(out)@ + render_vals(l@, dbg, i as int) =~= old(out)@);
        }
        return ;
    }
    let ghost o0 = out@;
    if i == 0 {
        render_atom(&*l.head, dbg, out);
    } else {
        render_atom(&l.tail[i - 1], dbg, out);
    }
    if i < l.tail.len() {
        out.push(' ');
        render_items(l, i + 1, dbg, out);
        proof {
            assert(out@ =~= o0 + render_vals(l@, dbg, i as int));
        }
    } else {
        proof {
            assert(out@ =~= o0 + render_vals(l@, dbg, i as int));
        }
    }
}

/// Append the escaped form of every character of `s` to `out`.
fn push_escaped(s: &str, out: &mut Vec<char>)
    ensures
        final(out)@ == old(out)@ + escape_chars(s@),
{
    let n = s.unicode_len();
    proof {
        assert(escape_prefix(s@, 0) =~= Seq::<char>::empty());
        assert(old(out)@ + escape_prefix(s@, 0) =~= old(out)@);
    }
    let mut k: usize = 0;
    while k < n
        invariant
            n == s@.len(),
            k <= n,
            out@ == old(out)@ + escape_prefix(s@, k as int),
        decreases n - k,
    {
        let c = s.get_char(k);
        let ghost before = out@;
        if c == '\\' {
            out.push('\\');
            out.push('\\');
        } else if c == '"' {
            out.push('\\');
            out.push('"');
        } else if c == '\n' {
            out.push('\\');
            out.push('n');
        } else {
            out.push(c);
        }
        proof {
            assert(out@ =~= before + escape_char(s@[k as int]));
            lemma_escape_prefix_step(s@, k as int);
            assert(out@ =~= old(out)@ + escape_prefix(s@, k + 1int));
        }
        k += 1;
    }
    proof {
        lemma_escape_prefix_all(s@, 0);
        assert(escape_prefix(s@, n as int) =~= escape_chars(s@));
    }
}

/// The escaped form of the first `k` characters of `s`.
pub open spec fn escape_prefix(s: Seq<char>, k: int) -> Seq<char>
    decreases k,
{
    if k <= 0 || k > s.len() {
        Seq::empty()
    } else {
        escape_prefix(s, k - 1) + escape_char(s[k - 1])
    }
}

/// Appending the `k`-th escaped character extends the escaped prefix.
proof fn lemma_escape_prefix_step(s: Seq<char>, k: int)
    requires
        0 <= k < s.len(),
    ensures
        escape_prefix(s, k + 1) == escape_prefix(s, k) + escape_char(s[k]),
{
}

/// The whole escaped prefix is the escaped string.
proof fn lemma_escape_prefix_all(s: Seq<char>, i: int)
    requires
        0 <= i <= s.len(),
    ensures
        escape_prefix(s, s.len() as int) == escape_chars(s),
    decreases s.len(),
{
    if s.len() > 0 {
        lemma_escape_prefix_all(s.drop_first(), 0);
        assert(escape_chars(s) == escape_char(s[0]) + escape_chars(s.drop_first()));
        lemma_escape_shift(s, s.len() as int);
    }
}

/// The escaped prefix of `s` up to `k` is the first escaped character plus
/// the escaped prefix of the rest.
proof fn lemma_escape_shift(s: Seq<char>, k: int)
    requires
        1 <= k <= s.len(),
    ensures
        escape_prefix(s, k) == escape_char(s[0]) + escape_prefix(s.drop_first(), k - 1),
    decreases k,
{
    if k == 1 {
        assert(escape_prefix(s, 0) =~= Seq::<char>::empty());
        assert(escape_prefix(s.drop_first(), 0) =~= Seq::<char>::empty());
        assert(escape_prefix(s, 1) =~= escape_char(s[0]) + escape_prefix(s.drop_first(), 0));
    } else {
        lemma_escape_shift(s, k - 1);
        assert(s.drop_first()[k - 2] == s[k - 1]);
        assert(escape_char(s[0]) + (escape_prefix(s.drop_first(), k - 2) + escape_char(s[k - 1]))
            =~= (escape_char(s[0]) + escape_prefix(s.drop_first(), k - 2)) + escape_char(s[k - 1]));
    }
}

/// Render an evaluation outcome in display form: strings raw, an error as
/// `ERROR: <message>`.
pub fn print(val: &LishResult) -> (r: String)
    ensures
        r@ == render_result(*val, false),
{
    render_result_exec(val, false)
}

/// Render an evaluation outcome in readable form: strings quoted and
/// escaped, an error as `ERROR: <message>`.
pub fn print_debug(val: &LishResult) -> (r: String)
    ensures
        r@ == render_result(*val, true),
{
    render_result_exec(val, true)
}

/// Render one atom (not a whole outcome) in the chosen form.
pub fn print_atom(a: &Atom, dbg: bool) -> (r: String)
    ensures
        r@ == render_val(a@, dbg),
{
    let mut out: Vec<char> = Vec::new();
    render_atom(a, dbg, &mut out);
    string_of(&out)
}

fn render_result_exec(val: &LishResult, dbg: bool) -> (r: String)
    ensures
        r@ == render_result(*val, dbg),
{
    match val {
        Ok(a) => {
            let mut out: Vec<char> = Vec::new();
            render_atom(a, dbg, &mut out);
            string_of(&out)
        },
        Err(e) => {
            let mut m = "ERROR: ".to_owned();
            crate::text::append_str(&mut m, e.0.as_str());
            m
        },
    }
}

} // verus!

verus! {

use crate::types::atoms_view;

/// Append what the elements of `v` from position `i` on print as,
/// space-separated, to `out`.
fn render_args_from(v: &Vec<Atom>, i: usize, dbg: bool, out: &mut Vec<char>)
    requires
        i <= v@.len(),
    ensures
        final(out)@ == old(out)@ + render_vals(atoms_view(*v), dbg, i as int),
    decreases v@.len() - i,
{
    proof {
        lemma_atoms_view(*v);
    }
    if i >= v.len() {
        proof {
            assert(old(out)@ + render_vals(atoms_view(*v), dbg, i as int) =~= old(out)@);
        }
        return ;
    }
    let ghost o0 = out@;
    render_atom(&v[i], dbg, out);
    if i + 1 < v.len() {
        out.push(' ');
        render_args_from(v, i + 1, dbg, out);
        proof {
            assert(out@ =~= o0 + render_vals(atoms_view(*v), dbg, i as int));
        }
    } else {
        proof {
            assert(out@ =~= o0 + render_vals(atoms_view(*v), dbg, i as int));
        }
    }
}

/// What a whole argument vector prints as, space-separated.
pub fn render_args(v: &Vec<Atom>, dbg: bool) -> (r: String)
    ensures
        r@ == render_vals(atoms_view(*v), dbg, 0),
{
    let mut out: Vec<char> = Vec::new();
    render_args_from(v, 0, dbg, &mut out);
    string_of(&out)
}

} // verus!

verus! {

/// The decimal rendering of a non-negative count.
pub fn nat_string(n: u64) -> (r: String)
    ensures
        r@ == int_chars(n as int),
{
    if n == 0 {
        let r = "0".to_owned();
        proof {
            reveal_strlit("0");
            assert(r@ =~= int_chars(0));
        }
        r
    } else {
        let mut out: Vec<char> = Vec::new();
        push_nat_chars(n, &mut out);
        proof {
            assert(Seq::<char>::empty() + nat_chars(n as int) =~= nat_chars(n as int));
        }
        string_of(&out)
    }
}

} // verus!
