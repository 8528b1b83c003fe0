//! The reader: turns source text into a value tree.  A single scan cuts the
//! text into tokens (parentheses, reader-macro marks, quoted strings,
//! comments, and unbroken runs of other characters); the parser then builds
//! the list structure, tolerating unbalanced input: a missing `)` is
//! supplied at end of input, and a `)` with no open `(` wraps what was read
//! so far in an implicit leading `(`.
use vstd::prelude::*;
use crate::types::{Atom, List, Val, LishErr, LishResult, atoms_view, lemma_atoms_view};
use crate::text::{chars_of, string_of, chars_eq_str};

verus! {

/// Whitespace, as the tokenizer skips it.
pub open spec fn is_space(c: char) -> bool {
    c == ' ' || c == '\t' || c == '\n' || c == '\r' || c == '\u{b}' || c == '\u{c}'
}

/// The characters that end a token run: list marks, reader-macro marks,
/// the string quote and the comment mark.
pub open spec fn is_delim(c: char) -> bool {
    c == '(' || c == ')' || c == '{' || c == '}' || c == '\'' || c == '"' || c == '`' || c == ','
        || c == ';'
}

/// The characters that stand as a token of their own when a token starts
/// there.
pub open spec fn is_single(c: char) -> bool {
    c == '(' || c == ')' || c == '{' || c == '}' || c == '\'' || c == '`' || c == ',' || c == '^'
        || c == '@'
}

/// One token.
pub enum TokV {
    Open,
    Close,
    Quote,
    Quasi,
    Unquote,
    Splice,
    Str(Seq<char>),
    Atom(Seq<char>),
}

/// The position of the quote that closes a string whose body starts at `j`,
/// skipping backslash-escaped pairs; `None` when the input ends first.
pub open spec fn str_end(s: Seq<char>, j: int) -> Option<int>
    decreases s.len() - j,
{
    if !(0 <= j < s.len()) {
        None
    } else if s[j] == '"' {
        Some(j)
    } else if s[j] == '\\' {
        if j + 1 < s.len() {
            str_end(s, j + 2)
        } else {
            None
        }
    } else {
        str_end(s, j + 1)
    }
}

/// The position of the next newline at or after `j`, or the end of input.
pub open spec fn line_end(s: Seq<char>, j: int) -> int
    decreases s.len() - j,
{
    if !(0 <= j < s.len()) {
        s.len() as int
    } else if s[j] == '\n' {
        j
    } else {
        line_end(s, j + 1)
    }
}

/// The position where the token run starting at `i` ends: the first
/// whitespace or delimiter at or after `i`, or the end of input.
pub open spec fn run_end(s: Seq<char>, i: int) -> int
    decreases s.len() - i,
{
    if 0 <= i < s.len() && !is_space(s[i]) && !is_delim(s[i]) {
        run_end(s, i + 1)
    } else {
        i
    }
}

/// A closing quote found for a body starting at `j` lies between `j` and
/// the end of input.
pub proof fn lemma_str_end_ge(s: Seq<char>, j: int)
    requires
        0 <= j,
    ensures
        str_end(s, j) matches Some(e) ==> j <= e < s.len(),
    decreases s.len() - j,
{
    if 0 <= j < s.len() && s[j] != '"' {
        if s[j] == '\\' {
            if j + 1 < s.len() {
                lemma_str_end_ge(s, j + 2);
            }
        } else {
            lemma_str_end_ge(s, j + 1);
        }
    }
}

/// The end of a comment line lies between `j` and the end of input.
pub proof fn lemma_line_end_ge(s: Seq<char>, j: int)
    requires
        0 <= j <= s.len(),
    ensures
        j <= line_end(s, j) <= s.len(),
    decreases s.len() - j,
{
    if 0 <= j < s.len() && s[j] != '\n' {
        lemma_line_end_ge(s, j + 1);
    }
}

/// The end of a token run lies between `i` and the end of input.
pub proof fn lemma_run_end_ge(s: Seq<char>, i: int)
    requires
        0 <= i <= s.len(),
    ensures
        i <= run_end(s, i) <= s.len(),
    decreases s.len() - i,
{
    if 0 <= i < s.len() && !is_space(s[i]) && !is_delim(s[i]) {
        lemma_run_end_ge(s, i + 1);
    }
}

/// Prepend a token to the outcome of tokenizing the rest.
pub open spec fn toks_prepend(t: TokV, rest: Result<Seq<TokV>, Seq<char>>) -> Result<
    Seq<TokV>,
    Seq<char>,
> {
    match rest {
        Ok(ts) => Ok(seq![t] + ts),
        Err(m) => Err(m),
    }
}

/// The reader error for input that ends too soon.
pub open spec fn eof_msg() -> Seq<char> {
    "Unexpected end of input"@
}

/// The tokens of `s` from position `i` on.  `,@` and the single-mark
/// characters are tokens of their own, a double-quoted stretch is one
/// string token (its raw body kept as written), `;` discards the rest of
/// the line, whitespace separates, and any other maximal run of characters
/// is one plain token.  An unterminated string is the one tokenizer error.
pub open spec fn tokenize_spec(s: Seq<char>, i: int) -> Result<Seq<TokV>, Seq<char>>
    decreases s.len() - i,
    via tokenize_spec_decreases
{
    if !(0 <= i < s.len()) {
        Ok(Seq::empty())
    } else if is_space(s[i]) {
        tokenize_spec(s, i + 1)
    } else if s[i] == ',' && i + 1 < s.len() && s[i + 1] == '@' {
        toks_prepend(TokV::Splice, tokenize_spec(s, i + 2))
    } else if s[i] == '(' {
        toks_prepend(TokV::Open, tokenize_spec(s, i + 1))
    } else if s[i] == ')' {
        toks_prepend(TokV::Close, tokenize_spec(s, i + 1))
    } else if s[i] == '\'' {
        toks_prepend(TokV::Quote, tokenize_spec(s, i + 1))
    } else if s[i] == '`' {
        toks_prepend(TokV::Quasi, tokenize_spec(s, i + 1))
    } else if s[i] == ',' {
        toks_prepend(TokV::Unquote, tokenize_spec(s, i + 1))
    } else if s[i] == '{' || s[i] == '}' || s[i] == '^' || s[i] == '@' {
        toks_prepend(TokV::Atom(seq![s[i]]), tokenize_spec(s, i + 1))
    } else if s[i] == '"' {
        match str_end(s, i + 1) {
            None => Err(eof_msg()),
            Some(e) => toks_prepend(TokV::Str(s.subrange(i + 1, e)), tokenize_spec(s, e + 1)),
        }
    } else if s[i] == ';' {
        tokenize_spec(s, line_end(s, i + 1))
    } else {
        toks_prepend(TokV::Atom(s.subrange(i, run_end(s, i))), tokenize_spec(s, run_end(s, i)))
    }
}

#[via_fn]
proof fn tokenize_spec_decreases(s: Seq<char>, i: int) {
    if 0 <= i < s.len() {
        lemma_str_end_ge(s, i + 1);
        lemma_line_end_ge(s, i + 1);
        if !is_space(s[i]) && !is_delim(s[i]) {
            lemma_run_end_ge(s, i + 1);
            assert(run_end(s, i) == run_end(s, i + 1));
        }
    }
}

/// Moving one token from the front of the remainder onto the accumulator
/// keeps the combined outcome the same.
proof fn lemma_prepend_shift(acc: Seq<TokV>, t: TokV, rest: Result<Seq<TokV>, Seq<char>>)
    ensures
        (match toks_prepend(t, rest) {
            Ok(r2) => Ok::<Seq<TokV>, Seq<char>>(acc + r2),
            Err(m) => Err(m),
        }) == (match rest {
            Ok(r2) => Ok::<Seq<TokV>, Seq<char>>((acc + seq![t]) + r2),
            Err(m) => Err(m),
        }),
{
    match rest {
        Ok(r2) => {
            assert(acc + (seq![t] + r2) =~= (acc + seq![t]) + r2);
        },
        Err(_) => {},
    }
}

/// One token, as the scanner hands it to the parser.
pub enum Token {
    Open,
    Close,
    Quote,
    Quasi,
    Unquote,
    Splice,
    Str(Vec<char>),
    Atom(Vec<char>),
}

impl View for Token {
    type V = TokV;

    open spec fn view(&self) -> TokV {
        match *self {
            Token::Open => TokV::Open,
            Token::Close => TokV::Close,
            Token::Quote => TokV::Quote,
            Token::Quasi => TokV::Quasi,
            Token::Unquote => TokV::Unquote,
            Token::Splice => TokV::Splice,
            Token::Str(ref v) => TokV::Str(v@),
            Token::Atom(ref v) => TokV::Atom(v@),
        }
    }
}

/// The views of a token vector.
spec fn tokens_view(v: Vec<Token>) -> Seq<TokV> {
    Seq::new(v@.len(), |i: int| v@[i]@)
}

fn is_space_exec(c: char) -> (r: bool)
    ensures
        r == is_space(c),
{
    c == ' ' || c == '\t' || c == '\n' || c == '\r' || c == '\u{b}' || c == '\u{c}'
}

fn is_delim_exec(c: char) -> (r: bool)
    ensures
        r == is_delim(c),
{
    c == '(' || c == ')' || c == '{' || c == '}' || c == '\'' || c == '"' || c == '`' || c == ','
        || c == ';'
}

/// The end of the token run starting at `i`.
fn run_end_exec(s: &Vec<char>, i: usize) -> (r: usize)
    requires
        i <= s@.len(),
    ensures
        r == run_end(s@, i as int),
        i <= r <= s@.len(),
{
    let n = s.len();
    let mut k = i;
    while k < n && !is_space_exec(s[k]) && !is_delim_exec(s[k])
        invariant
            i <= k <= n,
            n == s@.len(),
            run_end(s@, i as int) == run_end(s@, k as int),
        decreases n - k,
    {
        k += 1;
    }
    k
}

/// The closing quote for a string body starting at `j`, if any.
fn str_end_exec(s: &Vec<char>, j: usize) -> (r: Option<usize>)
    requires
        j <= s@.len(),
    ensures
        match str_end(s@, j as int) {
            Some(e) => r matches Some(u) && u == e,
            None => r is None,
        },
{
    let n = s.len();
    let mut k = j;
    loop
        invariant
            j <= k <= n,
            n == s@.len(),
            str_end(s@, j as int) == str_end(s@, k as int),
        decreases n - k,
    {
        if k >= n {
            return None;
        }
        if s[k] == '"' {
            return Some(k);
        }
        if s[k] == '\\' {
            if k + 1 < n {
                k += 2;
            } else {
                return None;
            }
        } else {
            k += 1;
        }
    }
}

/// The end of the comment line starting at `j`.
fn line_end_exec(s: &Vec<char>, j: usize) -> (r: usize)
    requires
        j <= s@.len(),
    ensures
        r == line_end(s@, j as int),
        j <= r <= s@.len(),
{
    let n = s.len();
    let mut k = j;
    while k < n && s[k] != '\n'
        invariant
            j <= k <= n,
            n == s@.len(),
            line_end(s@, j as int) == line_end(s@, k as int),
        decreases n - k,
    {
        k += 1;
    }
    k
}

/// Copy `s[from..to]` into a fresh vector.
fn copy_range(s: &Vec<char>, from: usize, to: usize) -> (r: Vec<char>)
    requires
        from <= to <= s@.len(),
    ensures
        r@ == s@.subrange(from as int, to as int),
{
    let mut r: Vec<char> = Vec::new();
    let mut k = from;
    proof {
        assert(r@ =~= s@.subrange(from as int, from as int));
    }
    while k < to
        invariant
            from <= k <= to,
            to <= s@.len(),
            r@ == s@.subrange(from as int, k as int),
        decreases to - k,
    {
        r.push(s[k]);
        proof {
            assert(s@.subrange(from as int, k as int).push(s@[k as int]) =~= s@.subrange(
                from as int,
                k + 1int,
            ));
        }
        k += 1;
    }
    r
}

/// Cut the input into tokens; the only failure is input that ends inside a
/// string.
fn tokenize(s: &Vec<char>) -> (r: Result<Vec<Token>, LishErr>)
    ensures
        match tokenize_spec(s@, 0) {
            Ok(ts) => r matches Ok(v) && tokens_view(v) == ts,
            Err(m) => r matches Err(e) && e.0@ == m,
        },
{
    let n = s.len();
    let mut acc: Vec<Token> = Vec::new();
    let mut i: usize = 0;
    loop
        invariant
            i <= n,
            n == s@.len(),
            tokenize_spec(s@, 0) == (match tokenize_spec(s@, i as int) {
                Ok(rest) => Ok(tokens_view(acc) + rest),
                Err(m) => Err::<Seq<TokV>, Seq<char>>(m),
            }),
        decreases n - i,
    {
        if i >= n {
            proof {
                assert(tokenize_spec(s@, i as int) == Ok::<Seq<TokV>, Seq<char>>(Seq::empty()));
                assert(tokens_view(acc) + Seq::<TokV>::empty() =~= tokens_view(acc));
            }
            return Ok(acc);
        }
        let c = s[i];
        let ghost acc0 = tokens_view(acc);
        if is_space_exec(c) {
            i += 1;
            continue ;
        }
        if c == ',' && i + 1 < n && s[i + 1] == '@' {
            acc.push(Token::Splice);
            proof {
                assert(tokens_view(acc) =~= acc0 + seq![TokV::Splice]);
                lemma_prepend_shift(acc0, TokV::Splice, tokenize_spec(s@, i + 2));
            }
            i += 2;
            continue ;
        }
        if c == '(' || c == ')' || c == '\'' || c == '`' || c == ',' {
            let t = if c == '(' {
                Token::Open
            } else if c == ')' {
                Token::Close
            } else if c == '\'' {
                Token::Quote
            } else if c == '`' {
                Token::Quasi
            } else {
                Token::Unquote
            };
            let ghost tv = t@;
            acc.push(t);
            proof {
                assert(tokens_view(acc) =~= acc0 + seq![tv]);
                lemma_prepend_shift(acc0, tv, tokenize_spec(s@, i + 1));
            }
            i += 1;
            continue ;
        }
        if c == '{' || c == '}' || c == '^' || c == '@' {
            let mut one: Vec<char> = Vec::new();
            one.push(c);
            proof {
                assert(one@ =~= seq![s@[i as int]]);
            }
            acc.push(Token::Atom(one));
            proof {
                assert(tokens_view(acc) =~= acc0 + seq![TokV::Atom(seq![s@[i as int]])]);
                lemma_prepend_shift(acc0, TokV::Atom(seq![s@[i as int]]), tokenize_spec(s@, i + 1));
            }
            i += 1;
            continue ;
        }
        if c == '"' {
            match str_end_exec(s, i + 1) {
                None => {
                    let m = "Unexpected end of input".to_owned();
                    return Err(LishErr(m));
                },
                Some(e) => {
                    proof {
                        lemma_str_end_ge(s@, i + 1int);
                    }
                    let body = copy_range(s, i + 1, e);
                    acc.push(Token::Str(body));
                    proof {
                        assert(tokens_view(acc) =~= acc0 + seq![
                            TokV::Str(s@.subrange(i + 1int, e as int)),
                        ]);
                        lemma_prepend_shift(
                            acc0,
                            TokV::Str(s@.subrange(i + 1int, e as int)),
                            tokenize_spec(s@, e + 1int),
                        );
                    }
                    i = e + 1;
                    continue ;
                },
            }
        }
        if c == ';' {
            let e = line_end_exec(s, i + 1);
            i = e;
            continue ;
        }
        let e = run_end_exec(s, i);
        proof {
            assert(run_end(s@, i as int) == run_end(s@, i + 1int));
            lemma_run_end_ge(s@, i + 1);
        }
        let body = copy_range(s, i, e);
        acc.push(Token::Atom(body));
        proof {
            assert(tokens_view(acc) =~= acc0 + seq![
                TokV::Atom(s@.subrange(i as int, run_end(s@, i as int))),
            ]);
            lemma_prepend_shift(
                acc0,
                TokV::Atom(s@.subrange(i as int, run_end(s@, i as int))),
                tokenize_spec(s@, run_end(s@, i as int)),
            );
        }
        i = e;
    }
}

} // verus!

verus! {

/// The numeric value of a digit character.
pub open spec fn digit_val(c: char) -> int {
    (c as u32) - 48
}

/// Whether `c` is a decimal digit.
pub open spec fn is_digit_char(c: char) -> bool {
    48 <= (c as u32) <= 57
}

/// Whether every character of `t` from `i` on is a digit.
pub open spec fn all_digits(t: Seq<char>, i: int) -> bool {
    forall|j: int| i <= j < t.len() ==> is_digit_char(#[trigger] t[j])
}

/// The value of the digits of `t` from `i` on, folded onto `acc`.
pub open spec fn digits_value(t: Seq<char>, i: int, acc: int) -> int
    decreases t.len() - i,
{
    if 0 <= i < t.len() {
        digits_value(t, i + 1, acc * 10 + digit_val(t[i]))
    } else {
        acc
    }
}

/// What a plain token means as an integer: an optional sign followed by at
/// least one digit, every character a digit.
pub open spec fn parse_int_spec(t: Seq<char>) -> Option<int> {
    let start: int = if t.len() > 0 && (t[0] == '+' || t[0] == '-') {
        1
    } else {
        0
    };
    if start < t.len() && all_digits(t, start) {
        Some(
            if t[0] == '-' {
                -digits_value(t, start, 0)
            } else {
                digits_value(t, start, 0)
            },
        )
    } else {
        None
    }
}

/// Folding further digits onto a non-negative accumulator never shrinks it.
proof fn lemma_digits_value_ge(t: Seq<char>, i: int, acc: int)
    requires
        acc >= 0,
        all_digits(t, i),
    ensures
        digits_value(t, i, acc) >= acc,
    decreases t.len() - i,
{
    if 0 <= i < t.len() {
        lemma_digits_value_ge(t, i + 1, acc * 10 + digit_val(t[i]));
    }
}

/// The first position at or after `i` that does not hold a digit.
pub open spec fn skip_digits(t: Seq<char>, i: int) -> int
    decreases t.len() - i,
{
    if 0 <= i < t.len() && is_digit_char(t[i]) {
        skip_digits(t, i + 1)
    } else {
        i
    }
}

/// The exponent part accepted at position `i`: nothing at all, or `e`/`E`,
/// an optional sign and at least one digit reaching the end of the token.
pub open spec fn float_exp_ok(t: Seq<char>, i: int) -> bool {
    if i == t.len() {
        true
    } else if 0 <= i < t.len() && (t[i] == 'e' || t[i] == 'E') {
        let j: int = if i + 1 < t.len() && (t[i + 1] == '+' || t[i + 1] == '-') {
            i + 2
        } else {
            i + 1
        };
        skip_digits(t, j) > j && skip_digits(t, j) == t.len()
    } else {
        false
    }
}

/// Whether a plain token is a float literal: an optional sign, then either
/// digits with an optional fraction or a fraction alone, then an optional
/// exponent.
pub open spec fn is_float_token(t: Seq<char>) -> bool {
    let i0: int = if t.len() > 0 && (t[0] == '+' || t[0] == '-') {
        1
    } else {
        0
    };
    let i1 = skip_digits(t, i0);
    if i1 > i0 {
        if i1 < t.len() && t[i1] == '.' {
            float_exp_ok(t, skip_digits(t, i1 + 1))
        } else {
            float_exp_ok(t, i1)
        }
    } else if i0 < t.len() && t[i0] == '.' {
        skip_digits(t, i0 + 1) > i0 + 1 && float_exp_ok(t, skip_digits(t, i0 + 1))
    } else {
        false
    }
}

/// The reader error for an unknown backslash escape inside a string.
pub open spec fn bad_escape_msg() -> Seq<char> {
    "Malformed escape sequence"@
}

/// The unescaped content of a string token body: `\n`, `\"` and `\\` are
/// decoded, any other escape is refused, and every other character stands
/// for itself.
pub open spec fn unescape_spec(s: Seq<char>) -> Option<Seq<char>>
    decreases s.len(),
{
    if s.len() == 0 {
        Some(Seq::empty())
    } else if s[0] == '\\' {
        if s.len() >= 2 && (s[1] == 'n' || s[1] == '"' || s[1] == '\\') {
            let d: char = if s[1] == 'n' {
                '\n'
            } else if s[1] == '"' {
                '"'
            } else {
                '\\'
            };
            match unescape_spec(s.skip(2)) {
                Some(r) => Some(seq![d] + r),
                None => None,
            }
        } else {
            None
        }
    } else {
        match unescape_spec(s.drop_first()) {
            Some(r) => Some(seq![s[0]] + r),
            None => None,
        }
    }
}

/// What a token denotes.  A string token is unescaped; a plain token is
/// classified in order: boolean literal, integer, float, symbol.
pub open spec fn classify_token(t: TokV) -> Result<Val, Seq<char>> {
    match t {
        TokV::Str(raw) => match unescape_spec(raw) {
            Some(u) => Ok(Val::Str(u)),
            None => Err(bad_escape_msg()),
        },
        TokV::Atom(b) => if b == "true"@ {
            Ok(Val::Bool(true))
        } else if b == "false"@ {
            Ok(Val::Bool(false))
        } else {
            match parse_int_spec(b) {
                Some(v) => if i64::MIN <= v <= i64::MAX {
                    Ok(Val::Int(v))
                } else if is_float_token(b) {
                    Ok(Val::Float(b))
                } else {
                    Ok(Val::Sym(b))
                },
                None => if is_float_token(b) {
                    Ok(Val::Float(b))
                } else {
                    Ok(Val::Sym(b))
                },
            }
        },
        _ => Ok(Val::Nil),
    }
}

/// Parse a token as an `i64`; `None` exactly when the token is not an
/// integer literal or its value does not fit.
fn parse_int_exec(t: &Vec<char>) -> (r: Option<i64>)
    ensures
        match r {
            Some(v) => parse_int_spec(t@) == Some(v as int),
            None => !(parse_int_spec(t@) matches Some(v) && i64::MIN <= v <= i64::MAX),
        },
{
    let n = t.len();
    if n == 0 {
        return None;
    }
    let neg = t[0] == '-';
    let start: usize = if t[0] == '-' || t[0] == '+' {
        1
    } else {
        0
    };
    if start >= n {
        return None;
    }
    let lim: u64 = 922337203685477580;
    let rem: u64 = if neg {
        8
    } else {
        7
    };
    let ghost bound: int = if neg {
        9223372036854775808int
    } else {
        9223372036854775807int
    };
    let mut acc: u64 = 0;
    let mut k = start;
    while k < n
        invariant
            start <= k <= n,
            n == t@.len(),
            start == (if t@[0] == '-' || t@[0] == '+' {
                1int
            } else {
                0int
            }),
            start < n,
            neg == (t@[0] == '-'),
            lim == 922337203685477580,
            rem == (if neg {
                8u64
            } else {
                7u64
            }),
            bound == (if neg {
                9223372036854775808int
            } else {
                9223372036854775807int
            }),
            acc <= bound,
            forall|j: int| start <= j < k ==> is_digit_char(#[trigger] t@[j]),
            digits_value(t@, start as int, 0) == digits_value(t@, k as int, acc as int),
        decreases n - k,
    {
        let c = t[k];
        let cu = c as u32;
        if !(48 <= cu && cu <= 57) {
            proof {
                assert(!is_digit_char(t@[k as int]));
            }
            return None;
        }
        let d = (cu - 48) as u64;
        if acc > lim || (acc == lim && d > rem) {
            proof {
                if all_digits(t@, start as int) {
                    assert(all_digits(t@, k + 1int));
                    assert(digits_value(t@, k as int, acc as int) == digits_value(
                        t@,
                        k + 1int,
                        acc as int * 10 + digit_val(t@[k as int]),
                    ));
                    lemma_digits_value_ge(t@, k + 1int, acc as int * 10 + digit_val(t@[k as int]));
                    assert(digits_value(t@, start as int, 0) > bound);
                }
            }
            return None;
        }
        acc = acc * 10 + d;
        k += 1;
    }
    proof {
        assert(all_digits(t@, start as int));
        assert(digits_value(t@, k as int, acc as int) == acc as int);
    }
    if neg {
        if acc == 9223372036854775808 {
            Some(i64::MIN)
        } else {
            Some(-(acc as i64))
        }
    } else {
        Some(acc as i64)
    }
}

/// The first position at or after `i` that does not hold a digit.
fn skip_digits_exec(t: &Vec<char>, i: usize) -> (r: usize)
    requires
        i <= t@.len(),
    ensures
        r == skip_digits(t@, i as int),
        i <= r <= t@.len(),
{
    let n = t.len();
    let mut k = i;
    while k < n && 48 <= (t[k] as u32) && (t[k] as u32) <= 57
        invariant
            i <= k <= n,
            n == t@.len(),
            skip_digits(t@, i as int) == skip_digits(t@, k as int),
        decreases n - k,
    {
        k += 1;
    }
    k
}

/// Whether the token tail from `i` is an acceptable float exponent.
fn float_exp_ok_exec(t: &Vec<char>, i: usize) -> (r: bool)
    requires
        i <= t@.len(),
    ensures
        r == float_exp_ok(t@, i as int),
{
    let n = t.len();
    if i == n {
        return true;
    }
    if !(t[i] == 'e' || t[i] == 'E') {
        return false;
    }
    let j: usize = if i + 1 < n && (t[i + 1] == '+' || t[i + 1] == '-') {
        i + 2
    } else {
        i + 1
    };
    let e = skip_digits_exec(t, j);
    e > j && e == n
}

/// Whether the token is a float literal.
fn is_float_exec(t: &Vec<char>) -> (r: bool)
    ensures
        r == is_float_token(t@),
{
    let n = t.len();
    let i0: usize = if n > 0 && (t[0] == '+' || t[0] == '-') {
        1
    } else {
        0
    };
    let i1 = skip_digits_exec(t, i0);
    if i1 > i0 {
        if i1 < n && t[i1] == '.' {
            let i2 = skip_digits_exec(t, i1 + 1);
            float_exp_ok_exec(t, i2)
        } else {
            float_exp_ok_exec(t, i1)
        }
    } else if i0 < n && t[i0] == '.' {
        let i2 = skip_digits_exec(t, i0 + 1);
        i2 > i0 + 1 && float_exp_ok_exec(t, i2)
    } else {
        false
    }
}

/// Prepend a decoded character to the outcome of unescaping the rest.
spec fn unescape_prepend(acc: Seq<char>, rest: Option<Seq<char>>) -> Option<Seq<char>> {
    match rest {
        Some(r) => Some(acc + r),
        None => None,
    }
}

/// Decode the body of a string token; an unknown escape is the error.
fn unescape_exec(raw: &Vec<char>) -> (r: Option<Vec<char>>)
    ensures
        match unescape_spec(raw@) {
            Some(u) => r matches Some(v) && v@ == u,
            None => r is None,
        },
{
    let n = raw.len();
    let mut acc: Vec<char> = Vec::new();
    let mut k: usize = 0;
    proof {
        assert(raw@.skip(0) =~= raw@);
    }
    loop
        invariant
            k <= n,
            n == raw@.len(),
            unescape_spec(raw@) == unescape_prepend(acc@, unescape_spec(raw@.skip(k as int))),
        decreases n - k,
    {
        if k >= n {
            proof {
                assert(unescape_spec(raw@.skip(k as int)) == Some(Seq::<char>::empty()));
                assert(acc@ + Seq::<char>::empty() =~= acc@);
            }
            return Some(acc);
        }
        let ghost tail = raw@.skip(k as int);
        let c = raw[k];
        proof {
            assert(tail[0] == raw@[k as int]);
        }
        if c == '\\' {
            if k + 1 < n {
                let e = raw[k + 1];
                proof {
                    assert(tail[1] == raw@[k + 1int]);
                }
                let d: char = if e == 'n' {
                    '\n'
                } else if e == '"' {
                    '"'
                } else if e == '\\' {
                    '\\'
                } else {
                    return None;
                };
                acc.push(d);
                proof {
                    assert(tail.skip(2) =~= raw@.skip(k + 2int));
                    assert(unescape_spec(tail) == unescape_prepend(
                        seq![d],
                        unescape_spec(raw@.skip(k + 2int)),
                    ));
                }
                k += 2;
            } else {
                proof {
                    assert(unescape_spec(tail) is None);
                }
                return None;
            }
        } else {
            acc.push(c);
            proof {
                assert(tail.drop_first() =~= raw@.skip(k + 1int));
            }
            k += 1;
        }
    }
}

/// Classify one token into the value it denotes.
fn classify_exec(tok: &Token) -> (r: Result<Atom, LishErr>)
    ensures
        match classify_token(tok@) {
            Ok(v) => r matches Ok(a) && a@ == v,
            Err(m) => r matches Err(e) && e.0@ == m,
        },
{
    match tok {
        Token::Str(raw) => match unescape_exec(raw) {
            Some(u) => Ok(Atom::String(string_of(&u))),
            None => Err(LishErr("Malformed escape sequence".to_owned())),
        },
        Token::Atom(b) => {
            if chars_eq_str(b, "true") {
                Ok(Atom::Bool(true))
            } else if chars_eq_str(b, "false") {
                Ok(Atom::Bool(false))
            } else {
                match parse_int_exec(b) {
                    Some(v) => Ok(Atom::Int(v)),
                    None => {
                        if is_float_exec(b) {
                            Ok(Atom::Float(string_of(b)))
                        } else {
                            Ok(Atom::Symbol(string_of(b)))
                        }
                    },
                }
            }
        },
        _ => Ok(Atom::Nil),
    }
}

} // verus!

verus! {

use crate::types::{val_envs_ok, vals_envs_ok, lemma_vals_envs_ok_pointwise};

/// The value a finished level denotes: `Nil` when nothing was collected,
/// the list of the items otherwise.
pub open spec fn wrap_items(items: Seq<Val>) -> Val {
    if items.len() == 0 {
        Val::Nil
    } else {
        Val::List(items)
    }
}

/// Append an item to the innermost open level.
pub open spec fn push_item(stack: Seq<(Seq<Val>, bool)>, v: Val) -> Seq<(Seq<Val>, bool)> {
    if stack.len() == 0 {
        stack
    } else {
        stack.update(stack.len() - 1, (stack.last().0.push(v), stack.last().1))
    }
}

/// Close every completed reader-macro level: a mark level holding its mark
/// symbol and one form becomes that two-element list, appended one level
/// down, repeatedly.
pub open spec fn cascade(stack: Seq<(Seq<Val>, bool)>) -> Seq<(Seq<Val>, bool)>
    decreases stack.len(),
{
    if stack.len() >= 2 && stack.last().1 && stack.last().0.len() == 2 {
        cascade(push_item(stack.drop_last(), Val::List(stack.last().0)))
    } else {
        stack
    }
}

/// The symbol a reader-macro mark desugars to.
pub open spec fn mark_sym(t: TokV) -> Seq<char> {
    match t {
        TokV::Quote => "quote"@,
        TokV::Quasi => "quasiquote"@,
        TokV::Unquote => "unquote"@,
        _ => "splice-unquote"@,
    }
}

/// What the finished top-level sequence denotes: nothing read is an error;
/// a single symbol is wrapped into a one-element list (so that the
/// evaluator's list-means-call rule applies to it); a single literal or
/// list stands for itself; several forms form a list.
pub open spec fn top_result(items: Seq<Val>) -> Result<Val, Seq<char>> {
    if items.len() == 0 {
        Err(eof_msg())
    } else if items.len() == 1 {
        match items[0] {
            Val::Sym(s) => Ok(Val::List(items)),
            v => Ok(v),
        }
    } else {
        Ok(Val::List(items))
    }
}

/// The parse of the tokens from `i` on, against the current level stack.
/// `(` opens a level and `)` closes the innermost one; a `)` with only the
/// top level open wraps the forms read so far into a single form (the
/// implicit leading `(`), and a `)` that is the very last token is
/// ignored; levels still open at the end of input are closed implicitly.
pub open spec fn parse_spec(toks: Seq<TokV>, i: int, stack: Seq<(Seq<Val>, bool)>) -> Result<
    Val,
    Seq<char>,
>
    decreases toks.len() - i, stack.len(),
{
    if !(0 <= i < toks.len()) {
        if stack.len() == 0 {
            Err(eof_msg())
        } else if stack.len() == 1 {
            top_result(stack[0].0)
        } else {
            parse_spec(toks, i, push_item(stack.drop_last(), wrap_items(stack.last().0)))
        }
    } else {
        match toks[i] {
            TokV::Open => parse_spec(toks, i + 1, stack.push((Seq::empty(), false))),
            TokV::Close => if i == toks.len() - 1 {
                parse_spec(toks, i + 1, stack)
            } else if stack.len() <= 1 {
                parse_spec(
                    toks,
                    i + 1,
                    seq![
                        (
                            seq![
                                wrap_items(
                                    if stack.len() == 1 {
                                        stack[0].0
                                    } else {
                                        Seq::empty()
                                    },
                                ),
                            ],
                            false,
                        ),
                    ],
                )
            } else {
                parse_spec(
                    toks,
                    i + 1,
                    cascade(push_item(stack.drop_last(), wrap_items(stack.last().0))),
                )
            },
            TokV::Quote => parse_spec(
                toks,
                i + 1,
                stack.push((seq![Val::Sym("quote"@)], true)),
            ),
            TokV::Quasi => parse_spec(
                toks,
                i + 1,
                stack.push((seq![Val::Sym("quasiquote"@)], true)),
            ),
            TokV::Unquote => parse_spec(
                toks,
                i + 1,
                stack.push((seq![Val::Sym("unquote"@)], true)),
            ),
            TokV::Splice => parse_spec(
                toks,
                i + 1,
                stack.push((seq![Val::Sym("splice-unquote"@)], true)),
            ),
            t => match classify_token(t) {
                Err(m) => Err(m),
                Ok(v) => parse_spec(toks, i + 1, cascade(push_item(stack, v))),
            },
        }
    }
}

/// What reading a whole text returns.
pub open spec fn read_spec(s: Seq<char>) -> Result<Val, Seq<char>> {
    match tokenize_spec(s, 0) {
        Err(m) => Err(m),
        Ok(toks) => parse_spec(toks, 0, seq![(Seq::<Val>::empty(), false)]),
    }
}

/// Every item on every level of the stack is free of captured frames.
pub open spec fn stack_ok(stack: Seq<(Seq<Val>, bool)>) -> bool {
    forall|i: int|
        0 <= i < stack.len() ==> vals_envs_ok((#[trigger] stack[i]).0, 0, 0)
}

/// A classified token never holds a lambda.
proof fn lemma_classify_ok(t: TokV)
    ensures
        classify_token(t) matches Ok(v) ==> val_envs_ok(v, 0),
{
}

/// Appending a frame-free item keeps the stack frame-free.
proof fn lemma_push_item_ok(stack: Seq<(Seq<Val>, bool)>, v: Val)
    requires
        stack_ok(stack),
        val_envs_ok(v, 0),
    ensures
        stack_ok(push_item(stack, v)),
{
    if stack.len() > 0 {
        let st2 = push_item(stack, v);
        assert forall|i: int| 0 <= i < st2.len() implies vals_envs_ok((#[trigger] st2[i]).0, 0, 0) by {
            lemma_vals_envs_ok_pointwise(st2[i].0, 0, 0);
            lemma_vals_envs_ok_pointwise(stack[i].0, 0, 0);
        }
    }
}

/// The wrap of a frame-free level is frame-free.
proof fn lemma_wrap_ok(items: Seq<Val>)
    requires
        vals_envs_ok(items, 0, 0),
    ensures
        val_envs_ok(wrap_items(items), 0),
{
}

/// Cascading keeps the stack frame-free.
proof fn lemma_cascade_ok(stack: Seq<(Seq<Val>, bool)>)
    requires
        stack_ok(stack),
    ensures
        stack_ok(cascade(stack)),
    decreases stack.len(),
{
    if stack.len() >= 2 && stack.last().1 && stack.last().0.len() == 2 {
        assert(stack_ok(stack.drop_last()));
        lemma_push_item_ok(stack.drop_last(), Val::List(stack.last().0));
        lemma_cascade_ok(push_item(stack.drop_last(), Val::List(stack.last().0)));
    }
}

/// What the parser returns is free of captured frames: the reader never
/// builds a lambda.
proof fn lemma_parse_envs_ok(toks: Seq<TokV>, i: int, stack: Seq<(Seq<Val>, bool)>)
    requires
        stack_ok(stack),
    ensures
        parse_spec(toks, i, stack) matches Ok(v) ==> val_envs_ok(v, 0),
    decreases toks.len() - i, stack.len(),
{
    if !(0 <= i < toks.len()) {
        if stack.len() == 1 {
            lemma_vals_envs_ok_pointwise(stack[0].0, 0, 0);
        } else if stack.len() > 1 {
            assert(stack_ok(stack.drop_last()));
            lemma_wrap_ok(stack.last().0);
            lemma_push_item_ok(stack.drop_last(), wrap_items(stack.last().0));
            lemma_parse_envs_ok(toks, i, push_item(stack.drop_last(), wrap_items(stack.last().0)));
        }
    } else {
        match toks[i] {
            TokV::Open => {
                let st2 = stack.push((Seq::<Val>::empty(), false));
                assert(stack_ok(st2));
                lemma_parse_envs_ok(toks, i + 1, st2);
            },
            TokV::Close => {
                if i == toks.len() - 1 {
                    lemma_parse_envs_ok(toks, i + 1, stack);
                } else if stack.len() <= 1 {
                    let items = if stack.len() == 1 {
                        stack[0].0
                    } else {
                        Seq::<Val>::empty()
                    };
                    if stack.len() == 1 {
                        lemma_vals_envs_ok_pointwise(stack[0].0, 0, 0);
                    }
                    lemma_wrap_ok(items);
                    let st2 = seq![(seq![wrap_items(items)], false)];
                    assert(vals_envs_ok(st2[0].0, 0, 0)) by {
                        lemma_vals_envs_ok_pointwise(st2[0].0, 0, 0);
                    }
                    assert(stack_ok(st2));
                    lemma_parse_envs_ok(toks, i + 1, st2);
                } else {
                    assert(stack_ok(stack.drop_last()));
                    lemma_wrap_ok(stack.last().0);
                    lemma_push_item_ok(stack.drop_last(), wrap_items(stack.last().0));
                    lemma_cascade_ok(push_item(stack.drop_last(), wrap_items(stack.last().0)));
                    lemma_parse_envs_ok(
                        toks,
                        i + 1,
                        cascade(push_item(stack.drop_last(), wrap_items(stack.last().0))),
                    );
                }
            },
            TokV::Quote => {
                let st2 = stack.push((seq![Val::Sym("quote"@)], true));
                assert(vals_envs_ok(st2[stack.len() as int].0, 0, 0)) by {
                    lemma_vals_envs_ok_pointwise(st2[stack.len() as int].0, 0, 0);
                }
                assert(stack_ok(st2));
                lemma_parse_envs_ok(toks, i + 1, st2);
            },
            TokV::Quasi => {
                let st2 = stack.push((seq![Val::Sym("quasiquote"@)], true));
                assert(vals_envs_ok(st2[stack.len() as int].0, 0, 0)) by {
                    lemma_vals_envs_ok_pointwise(st2[stack.len() as int].0, 0, 0);
                }
                assert(stack_ok(st2));
                lemma_parse_envs_ok(toks, i + 1, st2);
            },
            TokV::Unquote => {
                let st2 = stack.push((seq![Val::Sym("unquote"@)], true));
                assert(vals_envs_ok(st2[stack.len() as int].0, 0, 0)) by {
                    lemma_vals_envs_ok_pointwise(st2[stack.len() as int].0, 0, 0);
                }
                assert(stack_ok(st2));
                lemma_parse_envs_ok(toks, i + 1, st2);
            },
            TokV::Splice => {
                let st2 = stack.push((seq![Val::Sym("splice-unquote"@)], true));
                assert(vals_envs_ok(st2[stack.len() as int].0, 0, 0)) by {
                    lemma_vals_envs_ok_pointwise(st2[stack.len() as int].0, 0, 0);
                }
                assert(stack_ok(st2));
                lemma_parse_envs_ok(toks, i + 1, st2);
            },
            t => {
                lemma_classify_ok(t);
                match classify_token(t) {
                    Err(m) => {},
                    Ok(v) => {
                        lemma_push_item_ok(stack, v);
                        lemma_cascade_ok(push_item(stack, v));
                        lemma_parse_envs_ok(toks, i + 1, cascade(push_item(stack, v)));
                    },
                }
            },
        }
    }
}

} // verus!

verus! {

/// The abstraction of the parser's level stack.
spec fn stack_view(st: Vec<(Vec<Atom>, bool)>) -> Seq<(Seq<Val>, bool)> {
    Seq::new(st@.len(), |i: int| (atoms_view(st@[i].0), st@[i].1))
}

/// Append `v` to the innermost open level, then close every completed
/// reader-macro level.
fn push_and_cascade(st: &mut Vec<(Vec<Atom>, bool)>, v: Atom)
    requires
        old(st)@.len() >= 1,
    ensures
        final(st)@.len() >= 1,
        stack_view(*final(st)) == cascade(push_item(stack_view(*old(st)), v@)),
{
    let ghost target = cascade(push_item(stack_view(*old(st)), v@));
    let n = st.len();
    let top = vstd::std_specs::vec::vec_index_mut(st, n - 1);
    top.0.push(v);
    proof {
        lemma_atoms_view(st@[n - 1int].0);
        lemma_atoms_view(old(st)@[n - 1int].0);
        assert(atoms_view(st@[n - 1int].0) =~= atoms_view(old(st)@[n - 1int].0).push(v@));
        assert(stack_view(*st) =~= push_item(stack_view(*old(st)), v@));
    }
    loop
        invariant
            st@.len() >= 1,
            target == cascade(push_item(stack_view(*old(st)), v@)),
            cascade(stack_view(*st)) == target,
        decreases st@.len(),
    {
        let m = st.len();
        let do_fold: bool = if m >= 2 {
            let t = &st[m - 1];
            t.1 && t.0.len() == 2
        } else {
            false
        };
        proof {
            lemma_atoms_view(st@[m - 1int].0);
        }
        if !do_fold {
            proof {
                let sv = stack_view(*st);
                assert(sv.last() == (atoms_view(st@[m - 1int].0), st@[m - 1int].1));
                assert(sv.last().0.len() == st@[m - 1int].0@.len());
                assert(cascade(sv) == sv);
            }
            return ;
        }
        let ghost sv0 = stack_view(*st);
        let popped = match st.pop() {
            Some(p) => p,
            None => {
                proof {
                    assert(false);
                }
                return ;
            },
        };
        let folded = Atom::from_vec(popped.0);
        proof {
            lemma_atoms_view(popped.0);
            assert(folded@ == Val::List(sv0.last().0));
        }
        let m2 = st.len();
        let ghost prevec = st@[m2 - 1int].0;
        let top2 = vstd::std_specs::vec::vec_index_mut(st, m2 - 1);
        top2.0.push(folded);
        proof {
            lemma_atoms_view(st@[m2 - 1int].0);
            lemma_atoms_view(prevec);
            assert(atoms_view(st@[m2 - 1int].0) =~= atoms_view(prevec).push(
                Val::List(sv0.last().0),
            ));
            assert(stack_view(*st) =~= push_item(sv0.drop_last(), Val::List(sv0.last().0)));
        }
    }
}

/// Parse a token sequence into the value it denotes.
fn parse_exec(toks: &Vec<Token>) -> (r: LishResult)
    ensures
        match parse_spec(tokens_view(*toks), 0, seq![(Seq::<Val>::empty(), false)]) {
            Ok(v) => r matches Ok(a) && a@ == v,
            Err(m) => r matches Err(e) && e.0@ == m,
        },
{
    let ghost tv = tokens_view(*toks);
    let ghost init: Seq<(Seq<Val>, bool)> = seq![(Seq::<Val>::empty(), false)];
    let n = toks.len();
    let mut stack: Vec<(Vec<Atom>, bool)> = Vec::new();
    stack.push((Vec::new(), false));
    proof {
        lemma_atoms_view(stack@[0].0);
        assert(stack_view(stack) =~= init);
    }
    let mut i: usize = 0;
    while i < n
        invariant
            i <= n,
            n == tv.len(),
            tv == tokens_view(*toks),
            init == seq![(Seq::<Val>::empty(), false)],
            stack@.len() >= 1,
            parse_spec(tv, 0, init) == parse_spec(tv, i as int, stack_view(stack)),
        decreases n - i,
    {
        let ghost sv = stack_view(stack);
        match &toks[i] {
            Token::Open => {
                stack.push((Vec::new(), false));
                proof {
                    lemma_atoms_view(stack@[stack@.len() - 1].0);
                    assert(stack_view(stack) =~= sv.push((Seq::<Val>::empty(), false)));
                }
            },
            Token::Close => {
                if i == n - 1 {
                    // a closing mark that ends the input is dropped
                } else if stack.len() == 1 {
                    let lvl = match stack.pop() {
                        Some(p) => p,
                        None => {
                            proof {
                                assert(false);
                            }
                            return Err(LishErr(String::new()));
                        },
                    };
                    proof {
                        lemma_atoms_view(lvl.0);
                    }
                    let wrapped = Atom::from_vec(lvl.0);
                    let ghost wv = wrapped@;
                    let mut items: Vec<Atom> = Vec::new();
                    items.push(wrapped);
                    stack.push((items, false));
                    proof {
                        lemma_atoms_view(stack@[0].0);
                        assert(atoms_view(stack@[0].0) =~= seq![wv]);
                        assert(stack_view(stack) =~= seq![(seq![wrap_items(sv[0].0)], false)]);
                    }
                } else {
                    let lvl = match stack.pop() {
                        Some(p) => p,
                        None => {
                            proof {
                                assert(false);
                            }
                            return Err(LishErr(String::new()));
                        },
                    };
                    proof {
                        lemma_atoms_view(lvl.0);
                    }
                    let wrapped = Atom::from_vec(lvl.0);
                    proof {
                        assert(wrapped@ == wrap_items(sv.last().0));
                        assert(stack_view(stack) =~= sv.drop_last());
                    }
                    push_and_cascade(&mut stack, wrapped);
                }
            },
            Token::Quote => {
                let mut items: Vec<Atom> = Vec::new();
                items.push(Atom::symbol("quote"));
                stack.push((items, true));
                proof {
                    lemma_atoms_view(stack@[stack@.len() - 1].0);
                    assert(stack_view(stack) =~= sv.push((seq![Val::Sym("quote"@)], true)));
                }
            },
            Token::Quasi => {
                let mut items: Vec<Atom> = Vec::new();
                items.push(Atom::symbol("quasiquote"));
                stack.push((items, true));
                proof {
                    lemma_atoms_view(stack@[stack@.len() - 1].0);
                    assert(stack_view(stack) =~= sv.push((seq![Val::Sym("quasiquote"@)], true)));
                }
            },
            Token::Unquote => {
                let mut items: Vec<Atom> = Vec::new();
                items.push(Atom::symbol("unquote"));
                stack.push((items, true));
                proof {
                    lemma_atoms_view(stack@[stack@.len() - 1].0);
                    assert(stack_view(stack) =~= sv.push((seq![Val::Sym("unquote"@)], true)));
                }
            },
            Token::Splice => {
                let mut items: Vec<Atom> = Vec::new();
                items.push(Atom::symbol("splice-unquote"));
                stack.push((items, true));
                proof {
                    lemma_atoms_view(stack@[stack@.len() - 1].0);
                    assert(stack_view(stack) =~= sv.push(
                        (seq![Val::Sym("splice-unquote"@)], true),
                    ));
                }
            },
            other => {
                proof {
                    assert(tv[i as int] == toks@[i as int]@);
                }
                match classify_exec(other) {
                    Err(e) => {
                        proof {
                            assert(classify_token(tv[i as int]) == Err::<Val, Seq<char>>(e.0@));
                            assert(parse_spec(tv, i as int, sv) == Err::<Val, Seq<char>>(e.0@));
                        }
                        return Err(e);
                    },
                    Ok(a) => {
                        push_and_cascade(&mut stack, a);
                    },
                }
            },
        }
        i += 1;
    }
    // close the levels still open at end of input, innermost first
    while stack.len() > 1
        invariant
            stack@.len() >= 1,
            n == tv.len(),
            tv == tokens_view(*toks),
            init == seq![(Seq::<Val>::empty(), false)],
            parse_spec(tv, 0, init) == parse_spec(tv, n as int, stack_view(stack)),
        decreases stack@.len(),
    {
        let ghost sv = stack_view(stack);
        let lvl = match stack.pop() {
            Some(p) => p,
            None => {
                proof {
                    assert(false);
                }
                return Err(LishErr(String::new()));
            },
        };
        proof {
            lemma_atoms_view(lvl.0);
        }
        let wrapped = Atom::from_vec(lvl.0);
        proof {
            assert(wrapped@ == wrap_items(sv.last().0));
            assert(stack_view(stack) =~= sv.drop_last());
        }
        let m2 = stack.len();
        let ghost prevec = stack@[m2 - 1int].0;
        let top2 = vstd::std_specs::vec::vec_index_mut(&mut stack, m2 - 1);
        top2.0.push(wrapped);
        proof {
            lemma_atoms_view(stack@[m2 - 1int].0);
            lemma_atoms_view(prevec);
            assert(atoms_view(stack@[m2 - 1int].0) =~= atoms_view(prevec).push(
                wrap_items(sv.last().0),
            ));
            assert(stack_view(stack) =~= push_item(sv.drop_last(), wrap_items(sv.last().0)));
        }
    }
    let ghost svf = stack_view(stack);
    let lvl = match stack.pop() {
        Some(p) => p,
        None => {
            proof {
                assert(false);
            }
            return Err(LishErr(String::new()));
        },
    };
    proof {
        lemma_atoms_view(lvl.0);
        assert(atoms_view(lvl.0) == svf[0].0);
    }
    let mut items = lvl.0;
    if items.len() == 0 {
        return Err(LishErr("Unexpected end of input".to_owned()));
    }
    if items.len() == 1 {
        let only = match items.pop() {
            Some(a) => a,
            None => {
                proof {
                    assert(false);
                }
                return Err(LishErr(String::new()));
            },
        };
        if matches!(only, Atom::Symbol(_)) {
            let ghost ov = only@;
            let mut one: Vec<Atom> = Vec::new();
            one.push(only);
            proof {
                lemma_atoms_view(one);
                assert(atoms_view(one) =~= svf[0].0);
            }
            return Ok(Atom::from_vec(one));
        }
        return Ok(only);
    }
    Ok(Atom::from_vec(items))
}

/// Read one piece of source text into the value it denotes.  The result of
/// a successful read never holds a lambda, so it is fit for evaluation
/// against any environment arena.
pub fn read(cmd: String) -> (r: LishResult)
    ensures
        match read_spec(cmd@) {
            Ok(v) => r matches Ok(a) && a@ == v,
            Err(m) => r matches Err(e) && e.0@ == m,
        },
        r matches Ok(a) ==> val_envs_ok(a@, 0),
{
    let chars = chars_of(cmd.as_str());
    match tokenize(&chars) {
        Err(e) => Err(e),
        Ok(toks) => {
            proof {
                match tokenize_spec(cmd@, 0) {
                    Ok(ts) => {
                        assert(stack_ok(seq![(Seq::<Val>::empty(), false)])) by {
                            lemma_vals_envs_ok_pointwise(Seq::<Val>::empty(), 0, 0);
                        }
                        lemma_parse_envs_ok(ts, 0, seq![(Seq::<Val>::empty(), false)]);
                    },
                    Err(m) => {},
                }
            }
            parse_exec(&toks)
        },
    }
}

} // verus!

verus! {

/// The whitespace the standalone `spaces` helper consumes: space, tab,
/// carriage return and newline.
pub open spec fn is_blank(c: char) -> bool {
    c == ' ' || c == '\t' || c == '\r' || c == '\n'
}

/// The first position at or after `i` that does not hold `is_blank`
/// whitespace.
pub open spec fn skip_spaces(s: Seq<char>, i: int) -> int
    decreases s.len() - i,
{
    if 0 <= i < s.len() && is_blank(s[i]) {
        skip_spaces(s, i + 1)
    } else {
        i
    }
}

/// Consume at least one leading whitespace character and hand back the
/// rest of the input; input that does not start with whitespace is
/// refused.
pub fn spaces(input: &str) -> (r: Option<String>)
    ensures
        match r {
            Some(rest) => input@.len() > 0 && is_blank(input@[0]) && rest@ == input@.skip(
                skip_spaces(input@, 0),
            ),
            None => input@.len() == 0 || !is_blank(input@[0]),
        },
{
    let chars = chars_of(input);
    let n = chars.len();
    if n == 0 || !is_blank_exec(chars[0]) {
        return None;
    }
    let mut k: usize = 0;
    while k < n && is_blank_exec(chars[k])
        invariant
            k <= n,
            n == chars@.len(),
            chars@ == input@,
            skip_spaces(input@, 0) == skip_spaces(input@, k as int),
        decreases n - k,
    {
        k += 1;
    }
    let rest = copy_range(&chars, k, n);
    proof {
        assert(rest@ =~= input@.skip(k as int));
    }
    Some(string_of(&rest))
}

fn is_blank_exec(c: char) -> (r: bool)
    ensures
        r == is_blank(c),
{
    c == ' ' || c == '\t' || c == '\r' || c == '\n'
}

/// Whether `c` may stand in a bare identifier.
pub open spec fn is_ident_char(c: char) -> bool {
    ('a' <= c && c <= 'z') || ('A' <= c && c <= 'Z') || ('0' <= c && c <= '9') || c == '-' || c
        == '_' || c == '+' || c == '=' || c == '&' || c == '*' || c == '/' || c == ':' || c == '<'
        || c == '>' || c == '?' || c == '@' || c == '^' || c == '{' || c == '}' || c == '~' || c
        == '!' || c == '.'
}

/// The first position at or after `i` that does not hold an identifier
/// character.
pub open spec fn skip_ident(s: Seq<char>, i: int) -> int
    decreases s.len() - i,
{
    if 0 <= i < s.len() && is_ident_char(s[i]) {
        skip_ident(s, i + 1)
    } else {
        i
    }
}

/// Consume at least one leading identifier character; the matched run and
/// the rest of the input are handed back.
pub fn symbol(input: &str) -> (r: Option<(String, String)>)
    ensures
        match r {
            Some(p) => input@.len() > 0 && is_ident_char(input@[0]) && p.1@ == input@.take(
                skip_ident(input@, 0),
            ) && p.0@ == input@.skip(skip_ident(input@, 0)),
            None => input@.len() == 0 || !is_ident_char(input@[0]),
        },
{
    let chars = chars_of(input);
    let n = chars.len();
    if n == 0 || !is_ident_exec(chars[0]) {
        return None;
    }
    let mut k: usize = 0;
    while k < n && is_ident_exec(chars[k])
        invariant
            k <= n,
            n == chars@.len(),
            chars@ == input@,
            skip_ident(input@, 0) == skip_ident(input@, k as int),
        decreases n - k,
    {
        k += 1;
    }
    let matched = copy_range(&chars, 0, k);
    let rest = copy_range(&chars, k, n);
    proof {
        assert(matched@ =~= input@.take(k as int));
        assert(rest@ =~= input@.skip(k as int));
    }
    Some((string_of(&rest), string_of(&matched)))
}

fn is_ident_exec(c: char) -> (r: bool)
    ensures
        r == is_ident_char(c),
{
    ('a' <= c && c <= 'z') || ('A' <= c && c <= 'Z') || ('0' <= c && c <= '9') || c == '-' || c
        == '_' || c == '+' || c == '=' || c == '&' || c == '*' || c == '/' || c == ':' || c == '<'
        || c == '>' || c == '?' || c == '@' || c == '^' || c == '{' || c == '}' || c == '~' || c
        == '!' || c == '.'
}

/// Parse a double-quoted string literal at the front of the input, with
/// the reader's escapes; the rest of the input and the string value are
/// handed back.
pub fn string(input: &str) -> (r: Option<(String, Atom)>)
    ensures
        match r {
            Some(p) => input@.len() > 0 && input@[0] == '"' && (str_end(input@, 1) matches Some(e)
                && unescape_spec(input@.subrange(1, e)) matches Some(u) && p.1@ == Val::Str(u)
                && p.0@ == input@.skip(e + 1)),
            None => input@.len() == 0 || input@[0] != '"' || str_end(input@, 1) is None || (
            str_end(input@, 1) matches Some(e) && unescape_spec(input@.subrange(1, e)) is None),
        },
{
    let chars = chars_of(input);
    let n = chars.len();
    if n == 0 || chars[0] != '"' {
        return None;
    }
    match str_end_exec(&chars, 1) {
        None => None,
        Some(e) => {
            proof {
                lemma_str_end_ge(input@, 1);
            }
            let body = copy_range(&chars, 1, e);
            match unescape_exec(&body) {
                None => None,
                Some(u) => {
                    let rest = copy_range(&chars, e + 1, n);
                    proof {
                        assert(rest@ =~= input@.skip(e + 1int));
                    }
                    Some((string_of(&rest), Atom::String(string_of(&u))))
                },
            }
        },
    }
}

} // verus!
