//! The runtime data model: the tagged union `Atom` of every value the
//! interpreter handles, the non-empty list representation `List`, the
//! closed set `Builtin` of native functions, and the error type `LishErr`.
//!
//! Contracts throughout the crate speak of values through the abstraction
//! `Val`, a mathematical mirror of `Atom` in which strings are `Seq<char>`,
//! lists are `Seq<Val>` and integers are unbounded.
use vstd::prelude::*;
use std::cmp::Ordering;

verus! {

broadcast use vstd::std_specs::vec::group_vec_axioms;

/// Names one native function of the builtin namespace.  A `Func` value
/// carries one of these tags; the evaluator dispatches on the tag when the
/// function is applied.  Several surface names share one tag where their
/// behaviour coincides (`str` behaves as `join`, `prn` as `dbg`).
#[derive(Clone, Copy, Debug, PartialEq, Eq, Structural)]
pub enum Builtin {
    Add,
    Mul,
    Div,
    Sub,
    Or,
    And,
    Eq,
    Lt,
    Le,
    Gt,
    Ge,
    Dbg,
    Print,
    Println,
    Echo,
    Cons,
    First,
    Rest,
    MakeList,
    IsEmpty,
    Len,
    IsList,
    Concat,
    Apply,
    Read,
    Slurp,
    Join,
    Throw,
}

/// A non-empty list: one head element followed by the remaining elements.
/// The empty list is not represented here; it is the distinct value
/// `Atom::Nil`.
#[derive(Debug)]
pub struct List {
    pub head: Box<Atom>,
    pub tail: Vec<Atom>,
}

/// The universal runtime datum.
///
/// `Float` stores the literal token of the floating-point number exactly as
/// it was read; the interpreter performs no arithmetic on floats, never
/// considers two floats equal or ordered, and prints a float back as the
/// stored token, so the token itself is the whole observable content of the
/// value.
///
/// A `Lambda` records the index of its defining environment frame inside the
/// environment arena (see `env`), its parameter specification (a list of
/// symbols, interpreted by the binder), its body expression, and whether it
/// is a macro.
#[derive(Debug)]
pub enum Atom {
    Nil,
    Bool(bool),
    Int(i64),
    Float(String),
    String(String),
    Symbol(String),
    Func(Builtin),
    Lambda { ast: Box<Atom>, params: Box<Atom>, env: usize, is_macro: bool },
    List(List),
}

/// An interpreter error, carrying a human-readable message.
#[derive(Debug)]
pub struct LishErr(pub String);

/// The result of every fallible interpreter operation.
pub type LishResult = Result<Atom, LishErr>;

/// The mathematical mirror of `Atom`, used in contracts.
pub enum Val {
    Nil,
    Bool(bool),
    Int(int),
    Float(Seq<char>),
    Str(Seq<char>),
    Sym(Seq<char>),
    Func(Builtin),
    Lambda { env: int, params: Box<Val>, body: Box<Val>, is_macro: bool },
    List(Seq<Val>),
}

/// The abstraction of an atom: the `Val` it denotes.
pub open spec fn atom_view(a: Atom) -> Val
    decreases a, 2int,
{
    match a {
        Atom::Nil => Val::Nil,
        Atom::Bool(b) => Val::Bool(b),
        Atom::Int(i) => Val::Int(i as int),
        Atom::Float(s) => Val::Float(s@),
        Atom::String(s) => Val::Str(s@),
        Atom::Symbol(s) => Val::Sym(s@),
        Atom::Func(f) => Val::Func(f),
        Atom::Lambda { ast, params, env, is_macro } => Val::Lambda {
            env: env as int,
            params: Box::new(atom_view(*params)),
            body: Box::new(atom_view(*ast)),
            is_macro,
        },
        Atom::List(l) => Val::List(list_view(l)),
    }
}

/// The abstraction of a non-empty list: the sequence of the views of its
/// elements, head first.
pub open spec fn list_view(l: List) -> Seq<Val>
    decreases l, 1int,
{
    seq![atom_view(*l.head)] + atoms_view_from(l.tail, 0)
}

/// The views of the elements of `v` from position `i` on.
pub open spec fn atoms_view_from(v: Vec<Atom>, i: int) -> Seq<Val>
    decreases v, v@.len() - i,
{
    if 0 <= i < v@.len() {
        seq![atom_view(v[i])] + atoms_view_from(v, i + 1)
    } else {
        Seq::empty()
    }
}

/// The views of all elements of `v`.
pub open spec fn atoms_view(v: Vec<Atom>) -> Seq<Val> {
    atoms_view_from(v, 0)
}

/// Pointwise characterization of `atoms_view_from`: it has one view for
/// each remaining element, in order.
pub proof fn lemma_atoms_view_from(v: Vec<Atom>, i: int)
    requires
        0 <= i <= v@.len(),
    ensures
        atoms_view_from(v, i).len() == v@.len() - i,
        forall|j: int|
            0 <= j < v@.len() - i ==> atoms_view_from(v, i)[j] == atom_view(v[i + j]),
    decreases v@.len() - i,
{
    if i < v@.len() {
        lemma_atoms_view_from(v, i + 1);
    }
}

/// Pointwise characterization of `atoms_view`.
pub broadcast proof fn lemma_atoms_view(v: Vec<Atom>)
    ensures
        #[trigger] atoms_view(v).len() == v@.len(),
        forall|j: int| 0 <= j < v@.len() ==> atoms_view(v)[j] == atom_view(v[j]),
{
    lemma_atoms_view_from(v, 0);
}

impl View for Atom {
    type V = Val;

    open spec fn view(&self) -> Val {
        atom_view(*self)
    }
}

impl View for List {
    type V = Seq<Val>;

    open spec fn view(&self) -> Seq<Val> {
        list_view(*self)
    }
}

impl List {
    /// Build a list from a head element and the remaining elements.
    pub fn new(head: Atom, tail: Vec<Atom>) -> (r: List)
        ensures
            r@ == seq![head@] + atoms_view(tail),
    {
        List { head: Box::new(head), tail }
    }

    /// The elements of the list as one vector, head first.
    pub fn iter(&self) -> (r: Vec<Atom>)
        ensures
            atoms_view(r) == self@,
    {
        let mut r: Vec<Atom> = Vec::new();
        r.push((*self.head).duplicate());
        let n = self.tail.len();
        let mut k: usize = 0;
        while k < n
            invariant
                k <= n,
                n == self.tail@.len(),
                r@.len() == k + 1,
                atom_view(r@[0]) == atom_view(*self.head),
                forall|j: int| 0 <= j < k ==> atom_view(#[trigger] r@[j + 1]) == atom_view(
                    self.tail[j],
                ),
            decreases n - k,
        {
            r.push(self.tail[k].duplicate());
            k += 1;
        }
        proof {
            lemma_atoms_view(r);
            lemma_atoms_view(self.tail);
            assert forall|i: int| 0 <= i < r@.len() implies atoms_view(r)[i] == self@[i] by {
                if i > 0 {
                    assert(atom_view(r@[(i - 1) + 1]) == atom_view(self.tail[i - 1]));
                }
            }
            assert(atoms_view(r) =~= self@);
        }
        r
    }

    /// The number of elements, counting the head.
    pub fn len(&self) -> (n: usize)
        requires
            self.tail@.len() < usize::MAX,
        ensures
            n == self@.len(),
    {
        proof {
            lemma_atoms_view(self.tail);
        }
        1 + self.tail.len()
    }
}

impl Atom {
    /// Whether this value is a macro: a `Lambda` whose `is_macro` flag is set.
    pub fn is_macro(self: &Self) -> (r: bool)
        ensures
            r == (self@ matches Val::Lambda { is_macro, .. } && is_macro),
    {
        match self {
            Self::Lambda { is_macro, .. } => *is_macro,
            _ => false,
        }
    }

    /// Build a list value from a head element and the remaining elements.
    pub fn list(head: Self, tail: Vec<Self>) -> (r: Self)
        ensures
            r@ == Val::List(seq![head@] + atoms_view(tail)),
    {
        Self::List(List::new(head, tail))
    }

    /// Build a symbol with the given name.
    pub fn symbol(symbol: &str) -> (r: Self)
        ensures
            r@ == Val::Sym(symbol@),
    {
        Self::Symbol(symbol.to_owned())
    }

    /// Build a value from a vector of elements: the empty vector becomes
    /// `Nil`, any other becomes the list of the elements.
    pub fn from_vec(mut v: Vec<Atom>) -> (r: Self)
        ensures
            r@ == (if atoms_view(v).len() == 0 {
                Val::Nil
            } else {
                Val::List(atoms_view(v))
            }),
    {
        proof {
            lemma_atoms_view(v);
        }
        if v.len() == 0 {
            Self::Nil
        } else {
            let ghost v0 = v;
            let head = v.remove(0);
            let r = Self::List(List::new(head, v));
            proof {
                lemma_atoms_view(v);
                assert(v@ == v0@.remove(0));
                assert forall|j: int| 0 <= j < v@.len() implies v@[j] == v0@[j + 1] by {
                    assert(v0@.remove(0)[j] == v0@[j + 1]);
                }
                assert(r@ matches Val::List(s) && s =~= atoms_view(v0));
            }
            r
        }
    }

    /// A structural copy of the value: same view, fresh ownership.
    pub fn duplicate(&self) -> (r: Atom)
        ensures
            r@ == self@,
        decreases *self, 2int,
    {
        match self {
            Atom::Nil => Atom::Nil,
            Atom::Bool(b) => Atom::Bool(*b),
            Atom::Int(i) => Atom::Int(*i),
            Atom::Float(s) => Atom::Float(s.clone()),
            Atom::String(s) => Atom::String(s.clone()),
            Atom::Symbol(s) => Atom::Symbol(s.clone()),
            Atom::Func(f) => Atom::Func(*f),
            Atom::Lambda { ast, params, env, is_macro } => Atom::Lambda {
                ast: Box::new((**ast).duplicate()),
                params: Box::new((**params).duplicate()),
                env: *env,
                is_macro: *is_macro,
            },
            Atom::List(l) => Atom::List(l.duplicate()),
        }
    }
}

impl List {
    /// A structural copy of the list: same view, fresh ownership.
    pub fn duplicate(&self) -> (r: List)
        ensures
            r@ == self@,
        decreases *self, 1int,
    {
        let mut tail: Vec<Atom> = Vec::new();
        let n = self.tail.len();
        let mut k: usize = 0;
        while k < n
            invariant
                n == self.tail@.len(),
                k <= n,
                tail@.len() == k,
                forall|j: int| 0 <= j < k ==> atom_view(tail[j]) == atom_view(self.tail[j]),
            decreases n - k,
        {
            tail.push(self.tail[k].duplicate());
            k += 1;
        }
        let r = List { head: Box::new((*self.head).duplicate()), tail };
        proof {
            lemma_atoms_view(r.tail);
            lemma_atoms_view(self.tail);
            assert(r@ =~= self@);
        }
        r
    }
}

/// The value a sequence of elements stands for: `Nil` when empty, the list
/// of the elements otherwise.
pub open spec fn list_of(s: Seq<Val>) -> Val {
    if s.len() == 0 {
        Val::Nil
    } else {
        Val::List(s)
    }
}

/// Whether every lambda inside the value captures a frame index below `n`,
/// so that the value can be evaluated against an arena of `n` frames.
pub open spec fn val_envs_ok(v: Val, n: int) -> bool
    decreases v, 1int,
{
    match v {
        Val::Lambda { env, params, body, is_macro } => 0 <= env < n && val_envs_ok(*params, n)
            && val_envs_ok(*body, n),
        Val::List(s) => vals_envs_ok(s, n, 0),
        _ => true,
    }
}

/// `val_envs_ok` for every element of `s` from position `i` on.
pub open spec fn vals_envs_ok(s: Seq<Val>, n: int, i: int) -> bool
    decreases s, s.len() - i,
{
    if 0 <= i < s.len() {
        val_envs_ok(s[i], n) && vals_envs_ok(s, n, i + 1)
    } else {
        true
    }
}

/// `vals_envs_ok` from `i` holds exactly when it holds of every element
/// from `i` on.
pub proof fn lemma_vals_envs_ok_pointwise(s: Seq<Val>, n: int, i: int)
    requires
        0 <= i,
    ensures
        vals_envs_ok(s, n, i) <==> (forall|j: int|
            i <= j < s.len() ==> val_envs_ok(#[trigger] s[j], n)),
    decreases s.len() - i,
{
    if i < s.len() {
        lemma_vals_envs_ok_pointwise(s, n, i + 1);
    }
}

/// A value fit for `n` frames is fit for any larger arena: the arena only
/// ever grows.
pub proof fn lemma_val_envs_ok_mono(v: Val, n: int, m: int)
    requires
        val_envs_ok(v, n),
        n <= m,
    ensures
        val_envs_ok(v, m),
    decreases v, 1int,
{
    match v {
        Val::Lambda { env, params, body, is_macro } => {
            lemma_val_envs_ok_mono(*params, n, m);
            lemma_val_envs_ok_mono(*body, n, m);
        },
        Val::List(s) => {
            lemma_vals_envs_ok_pointwise(s, n, 0);
            lemma_vals_envs_ok_pointwise(s, m, 0);
            assert forall|j: int| 0 <= j < s.len() implies val_envs_ok(#[trigger] s[j], m) by {
                lemma_val_envs_ok_mono(s[j], n, m);
            }
        },
        _ => {},
    }
}

impl List {
    /// The `k`-th element of the list.
    pub fn get(&self, k: usize) -> (r: &Atom)
        requires
            k < self@.len(),
        ensures
            atom_view(*r) == self@[k as int],
    {
        proof {
            lemma_atoms_view(self.tail);
        }
        if k == 0 {
            &*self.head
        } else {
            &self.tail[k - 1]
        }
    }
}

/// Structural equality of two abstract values, exactly as the `=` builtin
/// and the tests observe it: `Nil`, booleans, integers, strings and symbols
/// compare by content, lists compare element-wise and by length, and no
/// float, native function or lambda is ever equal to anything.
pub open spec fn val_eq(a: Val, b: Val) -> bool
    decreases a, 1int,
{
    match a {
        Val::Nil => b is Nil,
        Val::Bool(x) => b matches Val::Bool(y) && x == y,
        Val::Int(x) => b matches Val::Int(y) && x == y,
        Val::Str(x) => b matches Val::Str(y) && x == y,
        Val::Sym(x) => b matches Val::Sym(y) && x == y,
        Val::List(x) => b matches Val::List(y) && x.len() == y.len() && vals_eq(x, y, 0),
        _ => false,
    }
}

/// Element-wise equality of two sequences of values from position `i` on.
pub open spec fn vals_eq(x: Seq<Val>, y: Seq<Val>, i: int) -> bool
    decreases x, x.len() - i,
{
    if 0 <= i < x.len() && i < y.len() {
        val_eq(x[i], y[i]) && vals_eq(x, y, i + 1)
    } else {
        true
    }
}

/// `vals_eq` from `i` holds exactly when every position from `i` up to the
/// shorter length compares equal.
pub proof fn lemma_vals_eq_pointwise(x: Seq<Val>, y: Seq<Val>, i: int)
    requires
        0 <= i,
    ensures
        vals_eq(x, y, i) <==> (forall|j: int|
            i <= j < x.len() && j < y.len() ==> val_eq(x[j], #[trigger] y[j])),
    decreases x.len() - i,
{
    if i < x.len() && i < y.len() {
        lemma_vals_eq_pointwise(x, y, i + 1);
    }
}

/// Structural equality at the value level; the meaning of `==` on `Atom`.
pub fn atom_eq(a: &Atom, b: &Atom) -> (r: bool)
    ensures
        r == val_eq(a@, b@),
    decreases *a, 1int,
{
    match a {
        Atom::Nil => matches!(b, Atom::Nil),
        Atom::Bool(x) => match b { Atom::Bool(y) => *x == *y, _ => false },
        Atom::Int(x) => match b { Atom::Int(y) => *x == *y, _ => false },
        Atom::String(x) => match b { Atom::String(y) => x.eq(y), _ => false },
        Atom::Symbol(x) => match b { Atom::Symbol(y) => x.eq(y), _ => false },
        Atom::List(x) => match b { Atom::List(y) => lists_eq(x, y), _ => false },
        _ => false,
    }
}

/// Element-wise equality of two lists.
fn lists_eq(x: &List, y: &List) -> (r: bool)
    ensures
        r == val_eq(Val::List(x@), Val::List(y@)),
    decreases *x, 0int,
{
    proof {
        lemma_atoms_view(x.tail);
        lemma_atoms_view(y.tail);
        lemma_vals_eq_pointwise(x@, y@, 0);
        assert(x@[0] == atom_view(*x.head));
        assert(y@[0] == atom_view(*y.head));
        assert forall|j: int| 0 <= j < x.tail@.len() implies x@[j + 1] == atom_view(
            x.tail[j],
        ) by {
            assert(atoms_view_from(x.tail, 0)[j] == atom_view(x.tail[j]));
        }
        assert forall|j: int| 0 <= j < y.tail@.len() implies y@[j + 1] == atom_view(
            y.tail[j],
        ) by {
            assert(atoms_view_from(y.tail, 0)[j] == atom_view(y.tail[j]));
        }
    }
    if x.tail.len() != y.tail.len() {
        return false;
    }
    if !atom_eq(&*x.head, &*y.head) {
        return false;
    }
    let n = x.tail.len();
    let mut k: usize = 0;
    while k < n
        invariant
            n == x.tail@.len(),
            n == y.tail@.len(),
            k <= n,
            x@.len() == n + 1,
            y@.len() == n + 1,
            forall|j: int| 0 <= j < k + 1 ==> val_eq(x@[j], #[trigger] y@[j]),
            forall|j: int| 0 <= j < n ==> x@[j + 1] == atom_view(x.tail[j]),
            forall|j: int| 0 <= j < n ==> y@[j + 1] == atom_view(y.tail[j]),
        decreases n - k,
    {
        if !atom_eq(&x.tail[k], &y.tail[k]) {
            proof {
                lemma_vals_eq_pointwise(x@, y@, 0);
                assert(!val_eq(x@[k + 1], y@[k + 1]));
            }
            return false;
        }
        k += 1;
    }
    proof {
        lemma_vals_eq_pointwise(x@, y@, 0);
    }
    true
}

impl PartialEq for Atom {
    fn eq(&self, other: &Atom) -> bool {
        atom_eq(self, other)
    }
}

impl vstd::std_specs::cmp::PartialEqSpecImpl for Atom {
    open spec fn obeys_eq_spec() -> bool {
        true
    }

    open spec fn eq_spec(&self, other: &Atom) -> bool {
        val_eq(self@, other@)
    }
}

impl PartialEq for LishErr {
    fn eq(&self, other: &LishErr) -> bool {
        self.0.eq(&other.0)
    }
}

impl vstd::std_specs::cmp::PartialEqSpecImpl for LishErr {
    open spec fn obeys_eq_spec() -> bool {
        true
    }

    open spec fn eq_spec(&self, other: &LishErr) -> bool {
        self.0@ == other.0@
    }
}

/// Lexicographic order on booleans: `false` before `true`.
pub open spec fn bool_cmp(x: bool, y: bool) -> Ordering {
    if x == y {
        Ordering::Equal
    } else if !x {
        Ordering::Less
    } else {
        Ordering::Greater
    }
}

/// Order on unbounded integers.
pub open spec fn int_cmp(x: int, y: int) -> Ordering {
    if x < y {
        Ordering::Less
    } else if x == y {
        Ordering::Equal
    } else {
        Ordering::Greater
    }
}

/// Lexicographic order on character sequences, by code point; a proper
/// prefix comes first.
pub open spec fn chars_cmp(a: Seq<char>, b: Seq<char>) -> Ordering
    decreases a.len(),
{
    if a.len() == 0 && b.len() == 0 {
        Ordering::Equal
    } else if a.len() == 0 {
        Ordering::Less
    } else if b.len() == 0 {
        Ordering::Greater
    } else if (a[0] as u32) < (b[0] as u32) {
        Ordering::Less
    } else if (a[0] as u32) > (b[0] as u32) {
        Ordering::Greater
    } else {
        chars_cmp(a.drop_first(), b.drop_first())
    }
}

/// Partial order of two abstract values, exactly as the comparison builtins
/// observe it: values of the same variant among `Nil`, booleans, integers,
/// strings, symbols and lists are ordered; every other pairing is not.
pub open spec fn val_cmp(a: Val, b: Val) -> Option<Ordering>
    decreases a, 1int,
{
    match a {
        Val::Nil => if b is Nil { Some(Ordering::Equal) } else { None },
        Val::Bool(x) => match b { Val::Bool(y) => Some(bool_cmp(x, y)), _ => None },
        Val::Int(x) => match b { Val::Int(y) => Some(int_cmp(x, y)), _ => None },
        Val::Str(x) => match b { Val::Str(y) => Some(chars_cmp(x, y)), _ => None },
        Val::Sym(x) => match b { Val::Sym(y) => Some(chars_cmp(x, y)), _ => None },
        Val::List(x) => match b { Val::List(y) => vals_cmp(x, y, 0), _ => None },
        _ => None,
    }
}

/// Lexicographic element-wise order of two sequences of values from
/// position `i` on: the first non-equal (or non-comparable) pair decides; a
/// sequence that runs out first comes first.
pub open spec fn vals_cmp(x: Seq<Val>, y: Seq<Val>, i: int) -> Option<Ordering>
    decreases x, x.len() - i,
{
    if i < 0 {
        None
    } else if i >= x.len() && i >= y.len() {
        Some(Ordering::Equal)
    } else if i >= x.len() {
        Some(Ordering::Less)
    } else if i >= y.len() {
        Some(Ordering::Greater)
    } else {
        match val_cmp(x[i], y[i]) {
            Some(Ordering::Equal) => vals_cmp(x, y, i + 1),
            r => r,
        }
    }
}

/// Exec comparison of two strings, matching `chars_cmp` of their views.
fn string_cmp(x: &String, y: &String) -> (r: Ordering)
    ensures
        r == chars_cmp(x@, y@),
{
    let xs = x.as_str();
    let ys = y.as_str();
    let xn = xs.unicode_len();
    let yn = ys.unicode_len();
    proof {
        assert(xs@.skip(0) =~= xs@);
        assert(ys@.skip(0) =~= ys@);
    }
    let mut k: usize = 0;
    while k < xn && k < yn
        invariant
            xn == xs@.len(),
            yn == ys@.len(),
            k <= xn,
            k <= yn,
            chars_cmp(x@, y@) == chars_cmp(xs@.skip(k as int), ys@.skip(k as int)),
            xs@ == x@,
            ys@ == y@,
        decreases xn - k,
    {
        let cx = xs.get_char(k);
        let cy = ys.get_char(k);
        let ghost xk = xs@.skip(k as int);
        let ghost yk = ys@.skip(k as int);
        proof {
            assert(xk[0] == xs@[k as int]);
            assert(yk[0] == ys@[k as int]);
            assert(xk.drop_first() =~= xs@.skip(k as int + 1));
            assert(yk.drop_first() =~= ys@.skip(k as int + 1));
        }
        if (cx as u32) < (cy as u32) {
            return Ordering::Less;
        }
        if (cx as u32) > (cy as u32) {
            return Ordering::Greater;
        }
        proof {
            assert(cx as u32 == cy as u32);
            assert(cx == cy) by {
                assert(cx as u32 == cy as u32);
            }
        }
        k += 1;
    }
    proof {
        assert(xs@.skip(k as int).len() == xn - k);
        assert(ys@.skip(k as int).len() == yn - k);
    }
    if xn == k && yn == k {
        Ordering::Equal
    } else if xn == k {
        Ordering::Less
    } else {
        Ordering::Greater
    }
}

/// Partial comparison at the value level; the meaning of `partial_cmp` on
/// `Atom`.
pub fn atom_cmp(a: &Atom, b: &Atom) -> (r: Option<Ordering>)
    ensures
        r == val_cmp(a@, b@),
    decreases *a, 1int,
{
    match a {
        Atom::Nil => match b { Atom::Nil => Some(Ordering::Equal), _ => None },
        Atom::Bool(x) => match b {
            Atom::Bool(y) => Some(
                if *x == *y {
                    Ordering::Equal
                } else if !*x {
                    Ordering::Less
                } else {
                    Ordering::Greater
                },
            ),
            _ => None,
        },
        Atom::Int(x) => match b {
            Atom::Int(y) => Some(
                if *x < *y {
                    Ordering::Less
                } else if *x == *y {
                    Ordering::Equal
                } else {
                    Ordering::Greater
                },
            ),
            _ => None,
        },
        Atom::String(x) => match b { Atom::String(y) => Some(string_cmp(x, y)), _ => None },
        Atom::Symbol(x) => match b { Atom::Symbol(y) => Some(string_cmp(x, y)), _ => None },
        Atom::List(x) => match b { Atom::List(y) => lists_cmp(x, y), _ => None },
        _ => None,
    }
}

/// Lexicographic element-wise comparison of two lists.
fn lists_cmp(x: &List, y: &List) -> (r: Option<Ordering>)
    ensures
        r == vals_cmp(x@, y@, 0),
    decreases *x, 0int,
{
    proof {
        lemma_atoms_view(x.tail);
        lemma_atoms_view(y.tail);
        assert(x@[0] == atom_view(*x.head));
        assert(y@[0] == atom_view(*y.head));
        assert forall|j: int| 0 <= j < x.tail@.len() implies x@[j + 1] == atom_view(
            x.tail[j],
        ) by {
            assert(atoms_view_from(x.tail, 0)[j] == atom_view(x.tail[j]));
        }
        assert forall|j: int| 0 <= j < y.tail@.len() implies y@[j + 1] == atom_view(
            y.tail[j],
        ) by {
            assert(atoms_view_from(y.tail, 0)[j] == atom_view(y.tail[j]));
        }
    }
    match atom_cmp(&*x.head, &*y.head) {
        Some(Ordering::Equal) => {},
        r => {
            return r;
        },
    }
    let xn = x.tail.len();
    let yn = y.tail.len();
    let mut k: usize = 0;
    while k < xn && k < yn
        invariant
            xn == x.tail@.len(),
            yn == y.tail@.len(),
            x@.len() == xn + 1,
            y@.len() == yn + 1,
            k <= xn,
            k <= yn,
            vals_cmp(x@, y@, 0) == vals_cmp(x@, y@, k + 1int),
            forall|j: int| 0 <= j < xn ==> x@[j + 1] == atom_view(x.tail[j]),
            forall|j: int| 0 <= j < yn ==> y@[j + 1] == atom_view(y.tail[j]),
        decreases xn - k,
    {
        match atom_cmp(&x.tail[k], &y.tail[k]) {
            Some(Ordering::Equal) => {
                k += 1;
            },
            r => {
                return r;
            },
        }
    }
    if xn == k && yn == k {
        Some(Ordering::Equal)
    } else if xn == k {
        Some(Ordering::Less)
    } else {
        Some(Ordering::Greater)
    }
}

impl PartialOrd for Atom {
    fn partial_cmp(&self, other: &Atom) -> Option<Ordering> {
        atom_cmp(self, other)
    }
}

impl vstd::std_specs::cmp::PartialOrdSpecImpl for Atom {
    open spec fn obeys_partial_cmp_spec() -> bool {
        true
    }

    open spec fn partial_cmp_spec(&self, other: &Atom) -> Option<Ordering> {
        val_cmp(self@, other@)
    }
}

} // verus!

verus! {

/// The least arena size a value fits, as `val_envs_ok` counts it: one
/// more than the highest frame index any lambda inside captures, zero for
/// a value with no lambdas.  A value so large that the count has no
/// `usize` representation reports `usize::MAX` and claims nothing.
impl Atom {
    pub fn env_bound(&self) -> (r: usize)
        ensures
            r < usize::MAX ==> val_envs_ok(self@, r as int),
            r < usize::MAX ==> (forall|n2: int|
                0 <= n2 && val_envs_ok(self@, n2) ==> r as int <= n2),
        decreases *self, 2int,
    {
        match self {
            Atom::Lambda { ast, params, env, is_macro } => {
                if *env == usize::MAX {
                    return usize::MAX;
                }
                let b0 = *env + 1;
                let b1 = (**params).env_bound();
                let b2 = (**ast).env_bound();
                if b1 == usize::MAX || b2 == usize::MAX {
                    return usize::MAX;
                }
                let mut r = b0;
                if b1 > r {
                    r = b1;
                }
                if b2 > r {
                    r = b2;
                }
                proof {
                    assert(self@ == Val::Lambda {
                        env: *env as int,
                        params: Box::new((**params)@),
                        body: Box::new((**ast)@),
                        is_macro: *is_macro,
                    });
                    lemma_val_envs_ok_mono((**params)@, b1 as int, r as int);
                    lemma_val_envs_ok_mono((**ast)@, b2 as int, r as int);
                    assert forall|n2: int|
                        0 <= n2 && val_envs_ok(self@, n2) implies r as int <= n2 by {
                        assert(val_envs_ok((**params)@, n2));
                        assert(val_envs_ok((**ast)@, n2));
                        assert(*env < n2);
                    }
                }
                r
            },
            Atom::List(l) => {
                let b = l.env_bound();
                proof {
                    if b < usize::MAX {
                        lemma_vals_envs_ok_pointwise(l@, b as int, 0);
                        assert forall|n2: int|
                            0 <= n2 && val_envs_ok(self@, n2) implies b as int <= n2 by {
                            lemma_vals_envs_ok_pointwise(l@, n2, 0);
                        }
                    }
                }
                b
            },
            _ => 0,
        }
    }
}

impl List {
    /// The least arena size every element of the list fits.
    pub fn env_bound(&self) -> (r: usize)
        ensures
            r < usize::MAX ==> vals_envs_ok(self@, r as int, 0),
            r < usize::MAX ==> (forall|n2: int|
                0 <= n2 && #[trigger] vals_envs_ok(self@, n2, 0) ==> r as int <= n2),
        decreases *self, 1int,
    {
        proof {
            lemma_atoms_view(self.tail);
        }
        let b0 = (*self.head).env_bound();
        if b0 == usize::MAX {
            return usize::MAX;
        }
        let mut r = b0;
        let n = self.tail.len();
        let mut k: usize = 0;
        while k < n
            invariant
                k <= n,
                n == self.tail@.len(),
                self@.len() == n + 1,
                self@[0] == atom_view(*self.head),
                forall|j: int| 0 <= j < n ==> self@[j + 1] == atom_view(self.tail[j]),
                r < usize::MAX,
                val_envs_ok(self@[0], r as int),
                forall|j: int| 0 <= j < k ==> val_envs_ok(#[trigger] self@[j + 1], r as int),
                forall|n2: int|
                    0 <= n2 && #[trigger] val_envs_ok(self@[0], n2) && (forall|j: int|
                        0 <= j < k ==> val_envs_ok(#[trigger] self@[j + 1], n2)) ==> r as int
                        <= n2,
            decreases n - k,
        {
            let ghost r_old = r;
            let b = self.tail[k].env_bound();
            if b == usize::MAX {
                return usize::MAX;
            }
            if b > r {
                r = b;
            }
            proof {
                lemma_val_envs_ok_mono(self@[0], r_old as int, r as int);
                assert forall|j: int| 0 <= j < k + 1 implies val_envs_ok(
                    #[trigger] self@[j + 1],
                    r as int,
                ) by {
                    if j < k {
                        lemma_val_envs_ok_mono(self@[j + 1], r_old as int, r as int);
                    } else {
                        lemma_val_envs_ok_mono(self@[j + 1], b as int, r as int);
                    }
                }
            }
            k += 1;
        }
        proof {
            lemma_vals_envs_ok_pointwise(self@, r as int, 0);
            assert forall|n2: int|
                0 <= n2 && #[trigger] vals_envs_ok(self@, n2, 0) implies r as int <= n2 by {
                lemma_vals_envs_ok_pointwise(self@, n2, 0);
                assert(val_envs_ok(self@[0], n2));
            }
            assert forall|j: int| 0 <= j < self@.len() implies val_envs_ok(
                #[trigger] self@[j],
                r as int,
            ) by {
                if j >= 1 {
                    assert(val_envs_ok(self@[(j - 1) + 1], r as int));
                }
            }
        }
        r
    }
}

} // verus!
