//! Laws that tie the reader and the printer together: a literal atom,
//! rendered in the readable form, reads back as the very same value.
use vstd::prelude::*;
use crate::types::Val;
use crate::printer::{
    digit_char, nat_chars, int_chars, escape_char, escape_chars, render_val,
};
use crate::reader::{
    is_space, is_delim, is_single, run_end, tokenize_spec, toks_prepend, TokV, digit_val,
    is_digit_char, all_digits, digits_value, parse_int_spec, skip_digits, is_float_token,
    float_exp_ok, unescape_spec, classify_token, parse_spec, read_spec, push_item, cascade,
    top_result, str_end,
};

verus! {

use vstd::arithmetic::div_mod::lemma_fundamental_div_mod;

/// A character that can stand inside a plain token run.
pub open spec fn plain_char(c: char) -> bool {
    !is_space(c) && !is_delim(c)
}

/// The digits of a positive number really are digits, and there is at
/// least one of them.
proof fn lemma_nat_chars_digits(n: int)
    requires
        n >= 1,
    ensures
        nat_chars(n).len() >= 1,
        forall|j: int| 0 <= j < nat_chars(n).len() ==> is_digit_char(#[trigger] nat_chars(n)[j]),
    decreases n,
{
    let t = nat_chars(n);
    let pre = nat_chars(n / 10);
    if n >= 10 {
        lemma_nat_chars_digits(n / 10);
    } else {
        assert(pre =~= Seq::<char>::empty());
    }
    assert(is_digit_char(digit_char(n % 10)));
    assert forall|j: int| 0 <= j < t.len() implies is_digit_char(#[trigger] t[j]) by {
        if j < pre.len() {
            assert(t[j] == pre[j]);
        } else {
            assert(t[j] == digit_char(n % 10));
        }
    }
}

/// Folding the digits of `s` with one more digit appended.
proof fn lemma_digits_value_push(s: Seq<char>, c: char, i: int, acc: int)
    requires
        0 <= i <= s.len(),
    ensures
        digits_value(s.push(c), i, acc) == digits_value(s, i, acc) * 10 + digit_val(c),
    decreases s.len() - i,
{
    let t = s.push(c);
    if i < s.len() {
        assert(t[i] == s[i]);
        lemma_digits_value_push(s, c, i + 1, acc * 10 + digit_val(s[i]));
    } else {
        assert(t[i] == c);
        assert(digits_value(t, i, acc) == digits_value(t, i + 1, acc * 10 + digit_val(c)));
    }
}

/// The decimal digits of a positive number fold back to the number.
proof fn lemma_nat_chars_value(n: int)
    requires
        n >= 1,
    ensures
        digits_value(nat_chars(n), 0, 0) == n,
    decreases n,
{
    lemma_fundamental_div_mod(n, 10);
    assert(digit_val(digit_char(n % 10)) == n % 10);
    if n >= 10 {
        lemma_nat_chars_value(n / 10);
        lemma_digits_value_push(nat_chars(n / 10), digit_char(n % 10), 0, 0);
    } else {
        assert(nat_chars(0) =~= Seq::<char>::empty());
        assert(nat_chars(n) =~= Seq::<char>::empty().push(digit_char(n)));
        lemma_digits_value_push(Seq::empty(), digit_char(n), 0, 0);
    }
}

/// Prepending a sign shifts the digit fold by one position.
proof fn lemma_digits_value_shift(s: Seq<char>, c: char, i: int, acc: int)
    requires
        0 <= i <= s.len(),
    ensures
        digits_value(seq![c] + s, i + 1, acc) == digits_value(s, i, acc),
    decreases s.len() - i,
{
    let t = seq![c] + s;
    if i < s.len() {
        assert(t[i + 1] == s[i]);
        lemma_digits_value_shift(s, c, i + 1, acc * 10 + digit_val(s[i]));
    }
}

/// The decimal rendering of a 64-bit integer parses back to the integer.
pub proof fn lemma_parse_int_chars(i: int)
    requires
        i64::MIN <= i <= i64::MAX,
    ensures
        parse_int_spec(int_chars(i)) == Some(i),
{
    let t = int_chars(i);
    if i == 0 {
        assert(t =~= seq!['0']);
        assert(all_digits(t, 0));
        assert(digits_value(t, 0, 0) == digits_value(t, 1, digit_val('0')));
    } else if i > 0 {
        lemma_nat_chars_digits(i);
        lemma_nat_chars_value(i);
        assert(!(t[0] == '+' || t[0] == '-'));
        assert(all_digits(t, 0));
    } else {
        lemma_nat_chars_digits(-i);
        lemma_nat_chars_value(-i);
        assert(t =~= seq!['-'] + nat_chars(-i));
        assert(t[0] == '-');
        assert forall|j: int| 1 <= j < t.len() implies is_digit_char(#[trigger] t[j]) by {
            assert(t[j] == nat_chars(-i)[j - 1]);
        }
        assert(all_digits(t, 1));
        lemma_digits_value_shift(nat_chars(-i), '-', 0, 0);
        assert(digits_value(t, 1, 0) == -i);
    }
}

/// Every character of an all-plain sequence keeps the token run going to
/// the end of the input.
proof fn lemma_run_end_all(s: Seq<char>, i: int)
    requires
        0 <= i <= s.len(),
        forall|j: int| 0 <= j < s.len() ==> plain_char(#[trigger] s[j]),
    ensures
        run_end(s, i) == s.len(),
    decreases s.len() - i,
{
    if i < s.len() {
        lemma_run_end_all(s, i + 1);
    }
}

/// A non-empty text of plain characters, not opening with a lone-mark
/// character, is one plain token.
proof fn lemma_tokenize_run(s: Seq<char>)
    requires
        s.len() >= 1,
        forall|j: int| 0 <= j < s.len() ==> plain_char(#[trigger] s[j]),
        !is_single(s[0]),
    ensures
        tokenize_spec(s, 0) == Ok::<Seq<TokV>, Seq<char>>(seq![TokV::Atom(s)]),
{
    assert(plain_char(s[0]));
    lemma_run_end_all(s, 0);
    assert(s.subrange(0, s.len() as int) =~= s);
    assert(tokenize_spec(s, s.len() as int) == Ok::<Seq<TokV>, Seq<char>>(Seq::empty()));
    assert(seq![TokV::Atom(s)] + Seq::<TokV>::empty() =~= seq![TokV::Atom(s)]);
}

/// A single literal token parses to the value it denotes, unwrapped.
proof fn lemma_parse_single_literal(t: TokV, v: Val)
    requires
        t is Atom || t is Str,
        classify_token(t) == Ok::<Val, Seq<char>>(v),
        !(v is Sym),
    ensures
        parse_spec(seq![t], 0, seq![(Seq::<Val>::empty(), false)]) == Ok::<Val, Seq<char>>(v),
{
    let toks = seq![t];
    let init: Seq<(Seq<Val>, bool)> = seq![(Seq::<Val>::empty(), false)];
    let pushed = push_item(init, v);
    assert(pushed.len() == 1);
    assert(pushed[0].0 =~= seq![v]);
    assert(cascade(pushed) == pushed);
    assert(parse_spec(toks, 0, init) == parse_spec(toks, 1, pushed));
    assert(parse_spec(toks, 1, pushed) == top_result(pushed[0].0));
}

/// The digits and sign of an integer rendering are plain token characters.
proof fn lemma_int_chars_plain(i: int)
    requires
        i64::MIN <= i <= i64::MAX,
    ensures
        int_chars(i).len() >= 1,
        forall|j: int| 0 <= j < int_chars(i).len() ==> plain_char(#[trigger] int_chars(i)[j]),
        !is_single(int_chars(i)[0]),
        !(int_chars(i) =~= "true"@),
        !(int_chars(i) =~= "false"@),
    decreases i,
{
    let t = int_chars(i);
    if i == 0 {
        assert(t =~= seq!['0']);
        assert(plain_char('0'));
    } else if i > 0 {
        lemma_nat_chars_digits(i);
        assert forall|j: int| 0 <= j < t.len() implies plain_char(#[trigger] t[j]) by {
            assert(is_digit_char(t[j]));
        }
        assert(is_digit_char(t[0]));
        assert(!is_single(t[0]));
    } else {
        lemma_nat_chars_digits(-i);
        assert(t =~= seq!['-'] + nat_chars(-i));
        assert forall|j: int| 0 <= j < t.len() implies plain_char(#[trigger] t[j]) by {
            if j == 0 {
                assert(t[0] == '-');
            } else {
                assert(t[j] == nat_chars(-i)[j - 1]);
                assert(is_digit_char(t[j]));
            }
        }
        assert(!is_single('-'));
    }
    reveal_strlit("true");
    reveal_strlit("false");
    assert("true"@.len() == 4);
    assert("false"@.len() == 5);
    if t.len() == 4 {
        assert(is_digit_char(t[0]) || t[0] == '-');
        assert(!("true"@[0] == t[0]));
    }
    if t.len() == 5 {
        assert(is_digit_char(t[0]) || t[0] == '-');
        assert(!("false"@[0] == t[0]));
    }
}

/// Reading the rendering of a 64-bit integer yields the integer back.
pub proof fn lemma_int_round_trip(i: int)
    requires
        i64::MIN <= i <= i64::MAX,
    ensures
        read_spec(int_chars(i)) == Ok::<Val, Seq<char>>(Val::Int(i)),
{
    let t = int_chars(i);
    lemma_int_chars_plain(i);
    lemma_tokenize_run(t);
    lemma_parse_int_chars(i);
    assert(classify_token(TokV::Atom(t)) == Ok::<Val, Seq<char>>(Val::Int(i))) by {
        assert(!(t == "true"@));
        assert(!(t == "false"@));
    }
    lemma_parse_single_literal(TokV::Atom(t), Val::Int(i));
}

/// Reading the rendering of a boolean yields the boolean back.
pub proof fn lemma_bool_round_trip(b: bool)
    ensures
        read_spec(render_val(Val::Bool(b), true)) == Ok::<Val, Seq<char>>(Val::Bool(b)),
{
    reveal_strlit("true");
    reveal_strlit("false");
    let t = if b {
        "true"@
    } else {
        "false"@
    };
    assert(t.len() >= 1);
    assert forall|j: int| 0 <= j < t.len() implies plain_char(#[trigger] t[j]) by {
        if b {
            assert(t[j] == "true"@[j]);
        } else {
            assert(t[j] == "false"@[j]);
        }
    }
    assert(!is_single(t[0]));
    lemma_tokenize_run(t);
    if b {
        assert(classify_token(TokV::Atom(t)) == Ok::<Val, Seq<char>>(Val::Bool(true)));
        lemma_parse_single_literal(TokV::Atom(t), Val::Bool(true));
    } else {
        assert(!(t == "true"@));
        assert(classify_token(TokV::Atom(t)) == Ok::<Val, Seq<char>>(Val::Bool(false)));
        lemma_parse_single_literal(TokV::Atom(t), Val::Bool(false));
    }
}

} // verus!

verus! {

/// Suffixes that agree keep agreeing further in.
proof fn lemma_skip_shift(t: Seq<char>, i: int, u: Seq<char>, j: int, d: int)
    requires
        0 <= i,
        0 <= j,
        0 <= d,
        i + d <= t.len(),
        j + d <= u.len(),
        t.skip(i) == u.skip(j),
    ensures
        t.skip(i + d) =~= u.skip(j + d),
{
    assert(t.skip(i).len() == u.skip(j).len());
    assert(t.skip(i).len() == t.len() - i);
    assert(u.skip(j).len() == u.len() - j);
    assert forall|k: int| 0 <= k < t.len() - i - d implies #[trigger] t.skip(i + d)[k] == u.skip(
        j + d,
    )[k] by {
        assert(t.skip(i + d)[k] == t[i + d + k]);
        assert(t.skip(i)[d + k] == t[i + d + k]);
        assert(u.skip(j)[d + k] == u[j + d + k]);
        assert(u.skip(j + d)[k] == u[j + d + k]);
    }
}

/// Scanning for a closing quote only looks at the text from the starting
/// position on: aligned suffixes scan alike.
proof fn lemma_str_end_align(t: Seq<char>, i: int, u: Seq<char>, j: int)
    requires
        0 <= i <= t.len(),
        0 <= j <= u.len(),
        t.skip(i) == u.skip(j),
    ensures
        match (str_end(t, i), str_end(u, j)) {
            (Some(a), Some(b)) => a - i == b - j,
            (None, None) => true,
            _ => false,
        },
    decreases t.len() - i,
{
    assert(t.skip(i).len() == u.skip(j).len());
    assert(t.skip(i).len() == t.len() - i);
    assert(u.skip(j).len() == u.len() - j);
    assert(t.len() - i == u.len() - j);
    if i < t.len() {
        assert(t[i] == t.skip(i)[0]);
        assert(u[j] == u.skip(j)[0]);
        assert(t[i] == u[j]);
        if t[i] == '"' {
        } else if t[i] == '\\' {
            if i + 1 < t.len() {
                lemma_skip_shift(t, i, u, j, 2);
                lemma_str_end_align(t, i + 2, u, j + 2);
            }
        } else {
            lemma_skip_shift(t, i, u, j, 1);
            lemma_str_end_align(t, i + 1, u, j + 1);
        }
    }
}

/// The scan over an escaped body stops exactly at the closing quote that
/// follows it.
proof fn lemma_str_end_esc(s: Seq<char>)
    ensures
        str_end(escape_chars(s) + seq!['"'], 0) == Some(escape_chars(s).len() as int),
    decreases s.len(),
{
    let e = escape_chars(s);
    let t = e + seq!['"'];
    if s.len() == 0 {
        assert(e =~= Seq::<char>::empty());
        assert(t[0] == '"');
    } else {
        let c = s[0];
        let e2 = escape_chars(s.drop_first());
        let t2 = e2 + seq!['"'];
        lemma_str_end_esc(s.drop_first());
        assert(e == escape_char(c) + e2);
        if c == '\\' || c == '"' || c == '\n' {
            assert(escape_char(c).len() == 2);
            assert(t[0] == '\\');
            assert(t.len() >= 3);
            assert(t2.skip(0) =~= t2);
            assert(t.skip(2) =~= t2);
            lemma_str_end_align(t, 2, t2, 0);
        } else {
            assert(escape_char(c) =~= seq![c]);
            assert(t[0] == c);
            assert(c != '"' && c != '\\');
            assert(t2.skip(0) =~= t2);
            assert(t.skip(1) =~= t2);
            lemma_str_end_align(t, 1, t2, 0);
        }
    }
}

/// Unescaping undoes escaping.
proof fn lemma_unescape_escape(s: Seq<char>)
    ensures
        unescape_spec(escape_chars(s)) == Some(s),
    decreases s.len(),
{
    let e = escape_chars(s);
    if s.len() == 0 {
        assert(e =~= Seq::<char>::empty());
        assert(Seq::<char>::empty() =~= s);
    } else {
        let c = s[0];
        let e2 = escape_chars(s.drop_first());
        lemma_unescape_escape(s.drop_first());
        assert(e == escape_char(c) + e2);
        if c == '\\' || c == '"' || c == '\n' {
            assert(e[0] == '\\');
            assert(e.len() >= 2);
            assert(e[1] == escape_char(c)[1]);
            assert(e[1] == 'n' || e[1] == '"' || e[1] == '\\');
            assert(e.skip(2) =~= e2);
            assert(seq![c] + s.drop_first() =~= s);
        } else {
            assert(e[0] == c);
            assert(c != '\\');
            assert(e.drop_first() =~= e2);
            assert(seq![c] + s.drop_first() =~= s);
        }
    }
}

/// Reading the readable rendering of a string yields the string back.
pub proof fn lemma_string_round_trip(s: Seq<char>)
    ensures
        read_spec(render_val(Val::Str(s), true)) == Ok::<Val, Seq<char>>(Val::Str(s)),
{
    let e = escape_chars(s);
    let t = seq!['"'] + e + seq!['"'];
    assert(render_val(Val::Str(s), true) == t);
    assert(t[0] == '"');
    assert(!is_space('"'));
    assert(!is_single('"'));
    lemma_str_end_esc(s);
    assert((e + seq!['"']).skip(0) =~= e + seq!['"']);
    assert(t.skip(1) =~= e + seq!['"']);
    lemma_str_end_align(t, 1, e + seq!['"'], 0);
    let se = str_end(t, 1);
    assert(se == Some(e.len() as int + 1));
    assert(t.subrange(1, e.len() as int + 1) =~= e);
    assert(tokenize_spec(t, e.len() as int + 2) == Ok::<Seq<TokV>, Seq<char>>(Seq::empty()));
    assert(tokenize_spec(t, 0) == toks_prepend(
        TokV::Str(e),
        tokenize_spec(t, e.len() as int + 2),
    ));
    assert(seq![TokV::Str(e)] + Seq::<TokV>::empty() =~= seq![TokV::Str(e)]);
    assert(tokenize_spec(t, 0) == Ok::<Seq<TokV>, Seq<char>>(seq![TokV::Str(e)]));
    lemma_unescape_escape(s);
    assert(classify_token(TokV::Str(e)) == Ok::<Val, Seq<char>>(Val::Str(s)));
    lemma_parse_single_literal(TokV::Str(e), Val::Str(s));
}

} // verus!

verus! {

/// A character that may appear in a float literal.
pub open spec fn float_char(c: char) -> bool {
    is_digit_char(c) || c == '+' || c == '-' || c == '.' || c == 'e' || c == 'E'
}

/// What `skip_digits` passes over is digits, and it stops at the first
/// non-digit.
proof fn lemma_skip_digits_props(t: Seq<char>, i: int)
    requires
        0 <= i <= t.len(),
    ensures
        i <= skip_digits(t, i) <= t.len(),
        forall|j: int| i <= j < skip_digits(t, i) ==> is_digit_char(#[trigger] t[j]),
    decreases t.len() - i,
{
    if i < t.len() && is_digit_char(t[i]) {
        lemma_skip_digits_props(t, i + 1);
    }
}

/// Every character of an accepted exponent part is a float character.
proof fn lemma_exp_chars(t: Seq<char>, p: int)
    requires
        0 <= p <= t.len(),
        float_exp_ok(t, p),
    ensures
        forall|j: int| p <= j < t.len() ==> float_char(#[trigger] t[j]),
{
    if p == t.len() {
    } else {
        let q: int = if p + 1 < t.len() && (t[p + 1] == '+' || t[p + 1] == '-') {
            p + 2
        } else {
            p + 1
        };
        lemma_skip_digits_props(t, q);
        assert forall|j: int| p <= j < t.len() implies float_char(#[trigger] t[j]) by {
            if j == p {
            } else if j < q {
            } else {
                assert(is_digit_char(t[j]));
            }
        }
    }
}

/// Every character of a float literal is a float character.
proof fn lemma_float_chars(t: Seq<char>)
    requires
        is_float_token(t),
    ensures
        t.len() >= 1,
        forall|j: int| 0 <= j < t.len() ==> float_char(#[trigger] t[j]),
        float_char(t[0]),
{
    let i0: int = if t.len() > 0 && (t[0] == '+' || t[0] == '-') {
        1
    } else {
        0
    };
    let i1 = skip_digits(t, i0);
    if t.len() == 0 {
        assert(skip_digits(t, 0) == 0);
        assert(false);
    }
    lemma_skip_digits_props(t, i0);
    if i1 > i0 {
        if i1 < t.len() && t[i1] == '.' {
            let i2 = skip_digits(t, i1 + 1);
            lemma_skip_digits_props(t, i1 + 1);
            lemma_exp_chars(t, i2);
            assert forall|j: int| 0 <= j < t.len() implies float_char(#[trigger] t[j]) by {
                if j < i0 {
                } else if j < i1 {
                    assert(is_digit_char(t[j]));
                } else if j == i1 {
                } else if j < i2 {
                    assert(is_digit_char(t[j]));
                }
            }
        } else {
            lemma_exp_chars(t, i1);
            assert forall|j: int| 0 <= j < t.len() implies float_char(#[trigger] t[j]) by {
                if j < i0 {
                } else if j < i1 {
                    assert(is_digit_char(t[j]));
                }
            }
        }
    } else {
        assert(i0 < t.len() && t[i0] == '.');
        let i2 = skip_digits(t, i0 + 1);
        lemma_skip_digits_props(t, i0 + 1);
        lemma_exp_chars(t, i2);
        assert forall|j: int| 0 <= j < t.len() implies float_char(#[trigger] t[j]) by {
            if j < i0 {
            } else if j == i0 {
            } else if j < i2 {
                assert(is_digit_char(t[j]));
            }
        }
    }
}

/// A float token the reader would produce: it matches the float grammar
/// and is not an integer literal in 64-bit range.
pub open spec fn float_tok_wf(t: Seq<char>) -> bool {
    &&& is_float_token(t)
    &&& !(parse_int_spec(t) matches Some(v) && i64::MIN <= v <= i64::MAX)
}

/// Reading a well-formed float token yields the float with that very
/// token.
pub proof fn lemma_float_round_trip(t: Seq<char>)
    requires
        float_tok_wf(t),
    ensures
        read_spec(t) == Ok::<Val, Seq<char>>(Val::Float(t)),
{
    lemma_float_chars(t);
    assert forall|j: int| 0 <= j < t.len() implies plain_char(#[trigger] t[j]) by {
        assert(float_char(t[j]));
    }
    assert(!is_single(t[0]));
    lemma_tokenize_run(t);
    reveal_strlit("true");
    reveal_strlit("false");
    assert("true"@.len() == 4);
    assert("false"@.len() == 5);
    assert(!(t == "true"@)) by {
        if t == "true"@ {
            assert(t[0] == 't');
            assert(float_char(t[0]));
        }
    }
    assert(!(t == "false"@)) by {
        if t == "false"@ {
            assert(t[0] == 'f');
            assert(float_char(t[0]));
        }
    }
    assert(classify_token(TokV::Atom(t)) == Ok::<Val, Seq<char>>(Val::Float(t)));
    lemma_parse_single_literal(TokV::Atom(t), Val::Float(t));
}

/// A well-formed literal atom: a 64-bit integer, a boolean, a string, or
/// a float holding a token the reader could have produced.
pub open spec fn literal_wf(v: Val) -> bool {
    match v {
        Val::Int(i) => i64::MIN <= i <= i64::MAX,
        Val::Bool(b) => true,
        Val::Str(s) => true,
        Val::Float(t) => float_tok_wf(t),
        _ => false,
    }
}

/// The round-trip law: any literal atom, rendered in the readable form the
/// REPL prints, reads back as exactly the same value.
pub proof fn lemma_literal_round_trip(v: Val)
    requires
        literal_wf(v),
    ensures
        read_spec(render_val(v, true)) == Ok::<Val, Seq<char>>(v),
{
    match v {
        Val::Int(i) => {
            assert(render_val(v, true) == int_chars(i));
            lemma_int_round_trip(i);
        },
        Val::Bool(b) => {
            lemma_bool_round_trip(b);
        },
        Val::Str(s) => {
            lemma_string_round_trip(s);
        },
        Val::Float(t) => {
            assert(render_val(v, true) == t);
            lemma_float_round_trip(t);
        },
        _ => {},
    }
}

} // verus!
