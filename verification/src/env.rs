//! The environment: an arena of frames, each a list of bindings in
//! insertion order plus the index of its parent frame.  Closures capture a
//! frame by index, several closures may share one frame, and a binding
//! added to a shared frame is seen by every later lookup through it — the
//! lookup-at-call-time behaviour the language promises.
//!
//! `Env` also carries the two tables that stand between the interpreter
//! and the host: the output buffered by the printing builtins, and the
//! file table that `slurp` consults.  The library itself does no I/O.
use vstd::prelude::*;
use crate::types::{
    Atom, Val, LishErr, atom_view, atoms_view, lemma_atoms_view, val_envs_ok, vals_envs_ok,
    lemma_vals_envs_ok_pointwise, lemma_val_envs_ok_mono,
};
use crate::text::{append_str, push_char};

verus! {

/// One environment frame: bindings in insertion order (a later binding for
/// the same name shadows an earlier one) and the index of the parent frame,
/// `None` for a root frame.
pub struct EnvStruct {
    pub data: Vec<(String, Atom)>,
    pub outer: Option<usize>,
}

/// The interpreter store: the arena of environment frames (frame 0 is the
/// root the REPL evaluates in), the output buffer and the file table.
pub struct Env {
    pub frames: Vec<EnvStruct>,
    pub out: Vec<String>,
    pub files: Vec<(String, String)>,
}

/// The abstraction of one frame.
#[verifier::ext_equal]
pub struct FrameV {
    pub data: Seq<(Seq<char>, Val)>,
    pub outer: Option<int>,
}

/// The abstraction of a binding vector.
pub open spec fn entries_view(v: Vec<(String, Atom)>) -> Seq<(Seq<char>, Val)> {
    Seq::new(v@.len(), |i: int| (v@[i].0@, atom_view(v@[i].1)))
}

/// The abstraction of one frame.
pub open spec fn frame_view(f: EnvStruct) -> FrameV {
    FrameV {
        data: entries_view(f.data),
        outer: match f.outer {
            Some(o) => Some(o as int),
            None => None,
        },
    }
}

/// The abstraction of the whole arena: one `FrameV` per frame.
pub open spec fn env_view(e: Env) -> Seq<FrameV> {
    Seq::new(e.frames@.len(), |i: int| frame_view(e.frames@[i]))
}

/// The abstraction of the output buffer.
pub open spec fn out_view(e: Env) -> Seq<Seq<char>> {
    Seq::new(e.out@.len(), |i: int| e.out@[i]@)
}

/// The abstraction of the file table.
pub open spec fn files_view(e: Env) -> Seq<(Seq<char>, Seq<char>)> {
    Seq::new(e.files@.len(), |i: int| (e.files@[i].0@, e.files@[i].1@))
}

/// What looking `key` up in one frame's bindings returns: the value of the
/// latest binding under that name, if any.
pub open spec fn frame_lookup(data: Seq<(Seq<char>, Val)>, key: Seq<char>) -> Option<Val>
    decreases data.len(),
{
    if data.len() == 0 {
        None
    } else if data.last().0 == key {
        Some(data.last().1)
    } else {
        frame_lookup(data.drop_last(), key)
    }
}

/// What looking `key` up from frame `fid` outward returns: the innermost
/// frame on the parent chain that binds it decides.
pub open spec fn env_lookup(ev: Seq<FrameV>, fid: int, key: Seq<char>) -> Option<Val>
    decreases fid,
{
    if fid < 0 || fid >= ev.len() {
        None
    } else {
        match frame_lookup(ev[fid].data, key) {
            Some(v) => Some(v),
            None => match ev[fid].outer {
                Some(o) => if 0 <= o < fid {
                    env_lookup(ev, o, key)
                } else {
                    None
                },
                None => None,
            },
        }
    }
}

/// The innermost frame on the parent chain of `fid` that binds `key`.
pub open spec fn env_find(ev: Seq<FrameV>, fid: int, key: Seq<char>) -> Option<int>
    decreases fid,
{
    if fid < 0 || fid >= ev.len() {
        None
    } else if frame_lookup(ev[fid].data, key) is Some {
        Some(fid)
    } else {
        match ev[fid].outer {
            Some(o) => if 0 <= o < fid {
                env_find(ev, o, key)
            } else {
                None
            },
            None => None,
        }
    }
}

/// The outermost frame on the parent chain of `fid`.
pub open spec fn env_root(ev: Seq<FrameV>, fid: int) -> int
    decreases fid,
{
    if fid < 0 || fid >= ev.len() {
        fid
    } else {
        match ev[fid].outer {
            Some(o) => if 0 <= o < fid {
                env_root(ev, o)
            } else {
                fid
            },
            None => fid,
        }
    }
}

/// What looking a file name up in the file table returns.
pub open spec fn file_lookup(fv: Seq<(Seq<char>, Seq<char>)>, name: Seq<char>) -> Option<Seq<char>>
    decreases fv.len(),
{
    if fv.len() == 0 {
        None
    } else if fv.last().0 == name {
        Some(fv.last().1)
    } else {
        file_lookup(fv.drop_last(), name)
    }
}

/// Every value bound in the frame is fit for an arena of `n` frames.
pub open spec fn frame_entries_ok(f: FrameV, n: int) -> bool {
    forall|j: int| 0 <= j < f.data.len() ==> val_envs_ok((#[trigger] f.data[j]).1, n)
}

/// The failed-lookup message: `Not found '<name>'`.
pub open spec fn not_found_msg(key: Seq<char>) -> Seq<char> {
    "Not found '"@ + key + "'"@
}

impl Env {
    /// Well-formedness of the arena: it is non-empty, every parent link
    /// points to an earlier frame, and every bound value only captures
    /// frames of the arena.
    pub open spec fn wf(&self) -> bool {
        let ev = env_view(*self);
        &&& ev.len() >= 1
        &&& forall|i: int|
            0 <= i < ev.len() ==> ((#[trigger] ev[i].outer) matches Some(o) ==> 0 <= o < i)
        &&& forall|i: int| 0 <= i < ev.len() ==> frame_entries_ok(#[trigger] ev[i], ev.len() as int)
    }

    /// A fresh arena holding one empty root frame.
    pub fn new() -> (e: Env)
        ensures
            e.wf(),
            env_view(e).len() == 1,
            env_view(e)[0].data.len() == 0,
            env_view(e)[0].outer is None,
            out_view(e).len() == 0,
            files_view(e).len() == 0,
    {
        let mut frames: Vec<EnvStruct> = Vec::new();
        frames.push(EnvStruct { data: Vec::new(), outer: None });
        Env { frames, out: Vec::new(), files: Vec::new() }
    }

    /// Append a fresh empty frame whose parent is `outer`; its index is
    /// returned.  Every existing frame and binding is untouched.
    pub fn new_frame(&mut self, outer: Option<usize>) -> (fid: usize)
        requires
            old(self).wf(),
            outer matches Some(o) ==> o < old(self).frames@.len(),
        ensures
            final(self).wf(),
            fid == env_view(*old(self)).len(),
            env_view(*final(self)) == env_view(*old(self)).push(
                FrameV {
                    data: Seq::empty(),
                    outer: match outer {
                        Some(o) => Some(o as int),
                        None => None,
                    },
                },
            ),
            final(self).out == old(self).out,
            final(self).files == old(self).files,
    {
        let fid = self.frames.len();
        self.frames.push(EnvStruct { data: Vec::new(), outer });
        proof {
            let ev0 = env_view(*old(self));
            let ev = env_view(*self);
            assert(entries_view(self.frames@[fid as int].data) =~= Seq::<(Seq<char>, Val)>::empty());
            assert(ev =~= ev0.push(
                FrameV {
                    data: Seq::empty(),
                    outer: match outer {
                        Some(o) => Some(o as int),
                        None => None,
                    },
                },
            ));
            assert forall|i: int| 0 <= i < ev.len() implies frame_entries_ok(
                #[trigger] ev[i],
                ev.len() as int,
            ) by {
                if i < ev0.len() {
                    assert(frame_entries_ok(ev0[i], ev0.len() as int));
                    assert forall|j: int| 0 <= j < ev[i].data.len() implies val_envs_ok(
                        (#[trigger] ev[i].data[j]).1,
                        ev.len() as int,
                    ) by {
                        lemma_val_envs_ok_mono(ev0[i].data[j].1, ev0.len() as int, ev.len() as int);
                    }
                }
            }
        }
        fid
    }

    /// Add the binding `key -> val` to frame `fid` alone; it shadows any
    /// earlier binding of the same name there, and no other frame changes.
    pub fn sets(&mut self, fid: usize, key: &str, val: Atom)
        requires
            old(self).wf(),
            fid < old(self).frames@.len(),
            val_envs_ok(val@, env_view(*old(self)).len() as int),
        ensures
            final(self).wf(),
            env_view(*final(self)) == env_view(*old(self)).update(
                fid as int,
                FrameV {
                    data: env_view(*old(self))[fid as int].data.push((key@, val@)),
                    outer: env_view(*old(self))[fid as int].outer,
                },
            ),
            final(self).out == old(self).out,
            final(self).files == old(self).files,
    {
        let ghost n = env_view(*old(self)).len() as int;
        let f = vstd::std_specs::vec::vec_index_mut(&mut self.frames, fid);
        f.data.push((key.to_owned(), val));
        proof {
            let ev0 = env_view(*old(self));
            let ev = env_view(*self);
            assert(entries_view(self.frames@[fid as int].data) =~= ev0[fid as int].data.push(
                (key@, val@),
            ));
            assert(ev =~= ev0.update(
                fid as int,
                FrameV { data: ev0[fid as int].data.push((key@, val@)), outer: ev0[fid as int].outer },
            ));
            assert forall|i: int| 0 <= i < ev.len() implies frame_entries_ok(
                #[trigger] ev[i],
                ev.len() as int,
            ) by {
                assert(frame_entries_ok(ev0[i], n));
                if i == fid as int {
                    assert forall|j: int| 0 <= j < ev[i].data.len() implies val_envs_ok(
                        (#[trigger] ev[i].data[j]).1,
                        ev.len() as int,
                    ) by {
                        if j < ev0[i].data.len() {
                            assert(val_envs_ok(ev0[i].data[j].1, n));
                        }
                    }
                }
            }
        }
    }

    /// `sets`, returning the bound value — so that the `set` special form
    /// can hand its value back.
    pub fn set(&mut self, fid: usize, key: &str, val: Atom) -> (r: Atom)
        requires
            old(self).wf(),
            fid < old(self).frames@.len(),
            val_envs_ok(val@, env_view(*old(self)).len() as int),
        ensures
            final(self).wf(),
            env_view(*final(self)) == env_view(*old(self)).update(
                fid as int,
                FrameV {
                    data: env_view(*old(self))[fid as int].data.push((key@, val@)),
                    outer: env_view(*old(self))[fid as int].outer,
                },
            ),
            final(self).out == old(self).out,
            final(self).files == old(self).files,
            r@ == val@,
    {
        let r = val.duplicate();
        self.sets(fid, key, val);
        r
    }

    /// The innermost frame on the parent chain of `fid` that binds `key`.
    pub fn find(&self, fid: usize, key: &str) -> (r: Option<usize>)
        requires
            self.wf(),
            fid < self.frames@.len(),
        ensures
            match env_find(env_view(*self), fid as int, key@) {
                Some(i) => r matches Some(u) && u == i,
                None => r is None,
            },
    {
        let ghost ev = env_view(*self);
        let keystring = key.to_owned();
        let mut cur = fid;
        loop
            invariant
                self.wf(),
                ev == env_view(*self),
                cur < self.frames@.len(),
                keystring@ == key@,
                env_find(ev, fid as int, key@) == env_find(ev, cur as int, key@),
            decreases cur,
        {
            proof {
                assert(ev[cur as int].data == entries_view(self.frames@[cur as int].data));
            }
            if frame_get_index(&self.frames[cur].data, &keystring).is_some() {
                proof {
                    assert(env_find(ev, cur as int, key@) == Some(cur as int));
                }
                return Some(cur);
            }
            match self.frames[cur].outer {
                Some(o) => {
                    proof {
                        assert(ev[cur as int].outer == Some(o as int));
                    }
                    cur = o;
                },
                None => {
                    proof {
                        assert(ev[cur as int].outer is None);
                        assert(env_find(ev, cur as int, key@) is None);
                    }
                    return None;
                },
            }
        }
    }

    /// Walk the parent chain of `fid` to its root frame.
    pub fn get_root(&self, fid: usize) -> (r: usize)
        requires
            self.wf(),
            fid < self.frames@.len(),
        ensures
            r == env_root(env_view(*self), fid as int),
            r < self.frames@.len(),
    {
        let ghost ev = env_view(*self);
        let mut cur = fid;
        loop
            invariant
                self.wf(),
                ev == env_view(*self),
                cur < self.frames@.len(),
                env_root(ev, fid as int) == env_root(ev, cur as int),
            decreases cur,
        {
            match self.frames[cur].outer {
                Some(o) => {
                    proof {
                        assert(ev[cur as int].outer == Some(o as int));
                    }
                    cur = o;
                },
                None => {
                    proof {
                        assert(ev[cur as int].outer is None);
                    }
                    return cur;
                },
            }
        }
    }

    /// Look `key` up from frame `fid` outward; a missing name is the error
    /// `Not found '<name>'`.
    pub fn get(&self, fid: usize, key: &str) -> (r: Result<Atom, LishErr>)
        requires
            self.wf(),
            fid < self.frames@.len(),
        ensures
            match env_lookup(env_view(*self), fid as int, key@) {
                Some(v) => r matches Ok(a) && a@ == v,
                None => r matches Err(e) && e.0@ == not_found_msg(key@),
            },
            r matches Ok(a) ==> val_envs_ok(a@, env_view(*self).len() as int),
    {
        let ghost ev = env_view(*self);
        let keystring = key.to_owned();
        let mut cur = fid;
        loop
            invariant
                self.wf(),
                ev == env_view(*self),
                cur < self.frames@.len(),
                keystring@ == key@,
                env_lookup(ev, fid as int, key@) == env_lookup(ev, cur as int, key@),
            decreases cur,
        {
            proof {
                assert(ev[cur as int].data == entries_view(self.frames@[cur as int].data));
            }
            match frame_get_index(&self.frames[cur].data, &keystring) {
                Some(i) => {
                    let a = self.frames[cur].data[i].1.duplicate();
                    proof {
                        assert(env_lookup(ev, cur as int, key@) == frame_lookup(
                            ev[cur as int].data,
                            key@,
                        ));
                        assert(frame_entries_ok(ev[cur as int], ev.len() as int));
                        assert(val_envs_ok(ev[cur as int].data[i as int].1, ev.len() as int));
                    }
                    return Ok(a);
                },
                None => {},
            }
            match self.frames[cur].outer {
                Some(o) => {
                    proof {
                        assert(ev[cur as int].outer == Some(o as int));
                    }
                    cur = o;
                },
                None => {
                    proof {
                        assert(ev[cur as int].outer is None);
                        assert(env_lookup(ev, cur as int, key@) is None);
                    }
                    let mut m = "Not found '".to_owned();
                    append_str(&mut m, key);
                    push_char(&mut m, '\'');
                    proof {
                        reveal_strlit("'");
                        assert(m@ =~= not_found_msg(key@));
                    }
                    return Err(LishErr(m));
                },
            }
        }
    }

    /// Append one chunk to the buffered output.
    pub fn push_out(&mut self, s: String)
        requires
            old(self).wf(),
        ensures
            final(self).wf(),
            env_view(*final(self)) == env_view(*old(self)),
            out_view(*final(self)) == out_view(*old(self)).push(s@),
            final(self).files == old(self).files,
    {
        self.out.push(s);
        proof {
            assert(env_view(*self) =~= env_view(*old(self)));
            assert(out_view(*self) =~= out_view(*old(self)).push(s@));
        }
    }

    /// Hand the buffered output over, leaving the buffer empty.  The host
    /// calls this after each evaluation and performs the actual printing.
    pub fn take_out(&mut self) -> (r: Vec<String>)
        requires
            old(self).wf(),
        ensures
            final(self).wf(),
            env_view(*final(self)) == env_view(*old(self)),
            out_view(*final(self)).len() == 0,
            r == old(self).out,
            final(self).files == old(self).files,
    {
        let mut r: Vec<String> = Vec::new();
        std::mem::swap(&mut self.out, &mut r);
        proof {
            assert(env_view(*self) =~= env_view(*old(self)));
        }
        r
    }

    /// Register a file for `slurp`: the host reads the disk, the
    /// interpreter only ever sees this table.
    pub fn add_file(&mut self, name: String, contents: String)
        requires
            old(self).wf(),
        ensures
            final(self).wf(),
            env_view(*final(self)) == env_view(*old(self)),
            out_view(*final(self)) == out_view(*old(self)),
            files_view(*final(self)) == files_view(*old(self)).push((name@, contents@)),
    {
        self.files.push((name, contents));
        proof {
            assert(env_view(*self) =~= env_view(*old(self)));
            assert(out_view(*self) =~= out_view(*old(self)));
            assert(files_view(*self) =~= files_view(*old(self)).push((name@, contents@)));
        }
    }

    /// Look a file up in the file table.
    pub fn lookup_file(&self, name: &String) -> (r: Option<String>)
        ensures
            match file_lookup(files_view(*self), name@) {
                Some(c) => r matches Some(s) && s@ == c,
                None => r is None,
            },
    {
        let ghost fv = files_view(*self);
        let n = self.files.len();
        proof {
            assert(fv.take(n as int) =~= fv);
        }
        let mut k: usize = n;
        while k > 0
            invariant
                n == self.files@.len(),
                k <= n,
                fv == files_view(*self),
                file_lookup(fv, name@) == file_lookup(fv.take(k as int), name@),
            decreases k,
        {
            if self.files[k - 1].0.eq(name) {
                proof {
                    assert(fv.take(k as int).last() == fv[k - 1]);
                }
                return Some(self.files[k - 1].1.clone());
            }
            proof {
                assert(fv.take(k as int).drop_last() =~= fv.take(k - 1int));
            }
            k -= 1;
        }
        proof {
            assert(fv.take(0).len() == 0);
        }
        None
    }
}

/// The index of the latest binding of `key` in a binding vector, if any.
fn frame_get_index(data: &Vec<(String, Atom)>, key: &String) -> (r: Option<usize>)
    ensures
        match frame_lookup(entries_view(*data), key@) {
            Some(v) => r matches Some(i) && i < data@.len() && atom_view(data@[i as int].1) == v
                && data@[i as int].0@ == key@,
            None => r is None,
        },
{
    let ghost dv = entries_view(*data);
    let n = data.len();
    proof {
        assert(dv.take(n as int) =~= dv);
    }
    let mut k: usize = n;
    while k > 0
        invariant
            n == data@.len(),
            k <= n,
            dv == entries_view(*data),
            frame_lookup(dv, key@) == frame_lookup(dv.take(k as int), key@),
        decreases k,
    {
        if data[k - 1].0.eq(key) {
            proof {
                assert(dv.take(k as int).last() == dv[k - 1]);
            }
            return Some(k - 1);
        }
        proof {
            assert(dv.take(k as int).last() == dv[k - 1]);
            assert(dv.take(k as int).drop_last() =~= dv.take(k - 1int));
        }
        k -= 1;
    }
    proof {
        assert(dv.take(0).len() == 0);
    }
    None
}

} // verus!

verus! {

use crate::types::list_of;

/// The error when a lambda's parameter specification is not a list.
pub open spec fn params_list_msg() -> Seq<char> {
    "Lambda parameters are not a list"@
}

/// The error when a parameter is not a symbol.
pub open spec fn param_sym_msg() -> Seq<char> {
    "Lambda parameter is not a symbol"@
}

/// The error when `&` ends the parameter list with no rest name after it.
pub open spec fn rest_missing_msg() -> Seq<char> {
    "Missing rest parameter"@
}

/// The error when a call supplies fewer arguments than parameters.
pub open spec fn args_missing_msg() -> Seq<char> {
    "Not enough arguments"@
}

/// The bindings a parameter list produces against an argument list, from
/// parameter `i` on: each parameter name takes the argument at its own
/// position; the parameter `&` instead binds the following name to all the
/// remaining arguments as one list and ends the binding.  Extra arguments
/// are ignored; missing ones are an error, as are non-symbol parameters.
pub open spec fn bind_entries(ps: Seq<Val>, args: Seq<Val>, i: int) -> Result<
    Seq<(Seq<char>, Val)>,
    Seq<char>,
>
    decreases ps.len() - i,
{
    if !(0 <= i < ps.len()) {
        Ok(Seq::empty())
    } else {
        match ps[i] {
            Val::Sym(name) => if name == "&"@ {
                if i + 1 < ps.len() {
                    match ps[i + 1] {
                        Val::Sym(rest_name) => Ok(
                            seq![
                                (
                                    rest_name,
                                    list_of(
                                        if i <= args.len() {
                                            args.skip(i)
                                        } else {
                                            Seq::empty()
                                        },
                                    ),
                                ),
                            ],
                        ),
                        _ => Err(param_sym_msg()),
                    }
                } else {
                    Err(rest_missing_msg())
                }
            } else if i < args.len() {
                match bind_entries(ps, args, i + 1) {
                    Ok(rest) => Ok(seq![(name, args[i])] + rest),
                    Err(m) => Err(m),
                }
            } else {
                Err(args_missing_msg())
            },
            _ => Err(param_sym_msg()),
        }
    }
}

/// The bindings a whole parameter specification produces: `Nil` binds
/// nothing, a list binds as `bind_entries` says, anything else is an error.
pub open spec fn bind_spec(params: Val, args: Seq<Val>) -> Result<Seq<(Seq<char>, Val)>, Seq<char>> {
    match params {
        Val::Nil => Ok(Seq::empty()),
        Val::List(ps) => bind_entries(ps, args, 0),
        _ => Err(params_list_msg()),
    }
}

/// Prepend already-made bindings to the outcome of binding the rest.
pub open spec fn bind_cont(
    acc: Seq<(Seq<char>, Val)>,
    rest: Result<Seq<(Seq<char>, Val)>, Seq<char>>,
) -> Result<Seq<(Seq<char>, Val)>, Seq<char>> {
    match rest {
        Ok(r) => Ok(acc + r),
        Err(m) => Err(m),
    }
}

/// A structural copy of the elements of `v` from position `from` on.
pub(crate) fn copy_tail(v: &Vec<Atom>, from: usize) -> (r: Vec<Atom>)
    ensures
        r@.len() == (if from as int <= v@.len() {
            v@.len() - from
        } else {
            0int
        }),
        forall|j: int| 0 <= j < r@.len() ==> atom_view(#[trigger] r@[j]) == atom_view(
            v@[from + j],
        ),
{
    let mut r: Vec<Atom> = Vec::new();
    if from >= v.len() {
        return r;
    }
    let n = v.len();
    let mut k = from;
    while k < n
        invariant
            from <= k <= n,
            n == v@.len(),
            r@.len() == k - from,
            forall|j: int| 0 <= j < r@.len() ==> atom_view(#[trigger] r@[j]) == atom_view(
                v@[from + j],
            ),
        decreases n - k,
    {
        r.push(v[k].duplicate());
        k += 1;
    }
    r
}

impl Env {
    /// Create a child frame of `outer` holding the parameter bindings for a
    /// call, as `bind_spec` says.  On a binding error nothing changes.
    pub fn bind(&mut self, outer: Option<usize>, params: &Atom, args: Vec<Atom>) -> (r: Result<
        usize,
        LishErr,
    >)
        requires
            old(self).wf(),
            outer matches Some(o) ==> o < old(self).frames@.len(),
            vals_envs_ok(atoms_view(args), env_view(*old(self)).len() as int, 0),
        ensures
            final(self).wf(),
            final(self).out == old(self).out,
            final(self).files == old(self).files,
            match bind_spec(params@, atoms_view(args)) {
                Ok(data) => r matches Ok(fid) && fid == env_view(*old(self)).len() && env_view(
                    *final(self),
                ) == env_view(*old(self)).push(
                    FrameV {
                        data,
                        outer: match outer {
                            Some(o) => Some(o as int),
                            None => None,
                        },
                    },
                ),
                Err(m) => r matches Err(e) && e.0@ == m && env_view(*final(self)) == env_view(
                    *old(self),
                ),
            },
    {
        let ghost n = env_view(*old(self)).len() as int;
        let ghost av = atoms_view(args);
        proof {
            lemma_atoms_view(args);
            lemma_vals_envs_ok_pointwise(av, n, 0);
        }
        let mut data: Vec<(String, Atom)> = Vec::new();
        match params {
            Atom::Nil => {
                proof {
                    assert(entries_view(data) =~= Seq::<(Seq<char>, Val)>::empty());
                }
            },
            Atom::List(l) => {
                let ghost ps = l@;
                proof {
                    lemma_atoms_view(l.tail);
                    assert(entries_view(data) =~= Seq::<(Seq<char>, Val)>::empty());
                    assert(bind_cont(entries_view(data), bind_entries(ps, av, 0)) == bind_entries(
                        ps,
                        av,
                        0,
                    )) by {
                        match bind_entries(ps, av, 0) {
                            Ok(r0) => {
                                assert(Seq::<(Seq<char>, Val)>::empty() + r0 =~= r0);
                            },
                            Err(_) => {},
                        }
                    }
                }
                let np = l.tail.len();
                let amp = "&".to_owned();
                let mut k: usize = 0;
                while k <= np
                    invariant
                        k <= np + 1,
                        np == l.tail@.len(),
                        ps == l@,
                        params@ == Val::List(ps),
                        ps.len() == np + 1,
                        av == atoms_view(args),
                        av.len() == args@.len(),
                        amp@ == "&"@,
                        n == env_view(*self).len() as int,
                        self.wf(),
                        env_view(*self) == env_view(*old(self)),
                        self.out == old(self).out,
                        self.files == old(self).files,
                        outer matches Some(o) ==> o < self.frames@.len(),
                        forall|j: int| 0 <= j < av.len() ==> val_envs_ok(#[trigger] av[j], n),
                        bind_cont(entries_view(data), bind_entries(ps, av, k as int))
                            == bind_entries(ps, av, 0),
                        forall|j: int|
                            0 <= j < entries_view(data).len() ==> val_envs_ok(
                                (#[trigger] entries_view(data)[j]).1,
                                n,
                            ),
                    decreases ps.len() - k,
                {
                    let ghost d0 = entries_view(data);
                    let p = l.get(k);
                    match p {
                        Atom::Symbol(name) => {
                            if name.eq(&amp) {
                                if k < np {
                                    let rest_param = l.get(k + 1);
                                    match rest_param {
                                        Atom::Symbol(rest_name) => {
                                            let ghost restv: Seq<Val> = if k as int
                                                <= av.len() {
                                                av.skip(k as int)
                                            } else {
                                                Seq::empty()
                                            };
                                            proof {
                                                lemma_atoms_view(args);
                                            }
                                            let rest = copy_tail(&args, k);
                                            proof {
                                                lemma_atoms_view(rest);
                                                assert(atoms_view(rest) =~= restv);
                                            }
                                            let rest_list = Atom::from_vec(rest);
                                            proof {
                                                assert(rest_list@ == list_of(restv));
                                            }
                                            let entry_name = rest_name.clone();
                                            data.push((entry_name, rest_list));
                                            proof {
                                                assert(entries_view(data) =~= d0.push(
                                                    (rest_name@, list_of(restv)),
                                                ));
                                                assert(bind_entries(ps, av, k as int) == Ok::<
                                                    Seq<(Seq<char>, Val)>,
                                                    Seq<char>,
                                                >(seq![(rest_name@, list_of(restv))]));
                                                assert(d0 + seq![(rest_name@, list_of(restv))]
                                                    =~= entries_view(data));
                                                assert(val_envs_ok(list_of(restv), n)) by {
                                                    lemma_vals_envs_ok_pointwise(restv, n, 0);
                                                }
                                            }
                                            let ghost dfinal = entries_view(data);
                                            proof {
                                                assert(bind_spec(params@, av) == Ok::<
                                                    Seq<(Seq<char>, Val)>,
                                                    Seq<char>,
                                                >(dfinal));
                                            }
                                            let fid = self.push_data_frame(outer, data);
                                            proof {
                                                assert(env_view(*self) == env_view(
                                                    *old(self),
                                                ).push(
                                                    FrameV {
                                                        data: dfinal,
                                                        outer: match outer {
                                                            Some(o) => Some(o as int),
                                                            None => None,
                                                        },
                                                    },
                                                ));
                                            }
                                            return Ok(fid);
                                        },
                                        _ => {
                                            proof {
                                                assert(!(ps[k + 1int] is Sym));
                                                assert(bind_entries(ps, av, k as int) == Err::<
                                                    Seq<(Seq<char>, Val)>,
                                                    Seq<char>,
                                                >(param_sym_msg()));
                                            }
                                            return Err(LishErr(
                                                "Lambda parameter is not a symbol".to_owned(),
                                            ));
                                        },
                                    }
                                } else {
                                    return Err(LishErr("Missing rest parameter".to_owned()));
                                }
                            } else if k < args.len() {
                                let v = args[k].duplicate();
                                let entry_name = name.clone();
                                data.push((entry_name, v));
                                proof {
                                    lemma_atoms_view(args);
                                    assert(entries_view(data) =~= d0.push((name@, av[k as int])));
                                    assert(d0.push((name@, av[k as int])) =~= d0 + seq![
                                        (name@, av[k as int]),
                                    ]);
                                    assert(bind_entries(ps, av, k as int) == bind_cont(
                                        seq![(name@, av[k as int])],
                                        bind_entries(ps, av, k + 1int),
                                    ));
                                    match bind_entries(ps, av, k + 1int) {
                                        Ok(r2) => {
                                            assert(d0 + (seq![(name@, av[k as int])] + r2) =~= (d0
                                                + seq![(name@, av[k as int])]) + r2);
                                        },
                                        Err(_) => {},
                                    }
                                }
                                k += 1;
                            } else {
                                return Err(LishErr("Not enough arguments".to_owned()));
                            }
                        },
                        _ => {
                            proof {
                                assert(!(ps[k as int] is Sym));
                                assert(bind_entries(ps, av, k as int) == Err::<
                                    Seq<(Seq<char>, Val)>,
                                    Seq<char>,
                                >(param_sym_msg()));
                            }
                            return Err(LishErr("Lambda parameter is not a symbol".to_owned()));
                        },
                    }
                }
                proof {
                    assert(bind_entries(ps, av, k as int) == Ok::<
                        Seq<(Seq<char>, Val)>,
                        Seq<char>,
                    >(Seq::empty()));
                    assert(entries_view(data) + Seq::<(Seq<char>, Val)>::empty() =~= entries_view(
                        data,
                    ));
                }
            },
            _ => {
                return Err(LishErr("Lambda parameters are not a list".to_owned()));
            },
        }
        let fid = self.push_data_frame(outer, data);
        Ok(fid)
    }

    /// Append a frame already holding `data`, whose parent is `outer`.
    fn push_data_frame(&mut self, outer: Option<usize>, data: Vec<(String, Atom)>) -> (fid: usize)
        requires
            old(self).wf(),
            outer matches Some(o) ==> o < old(self).frames@.len(),
            forall|j: int|
                0 <= j < entries_view(data).len() ==> val_envs_ok(
                    (#[trigger] entries_view(data)[j]).1,
                    env_view(*old(self)).len() as int,
                ),
        ensures
            final(self).wf(),
            fid == env_view(*old(self)).len(),
            env_view(*final(self)) == env_view(*old(self)).push(
                FrameV {
                    data: entries_view(data),
                    outer: match outer {
                        Some(o) => Some(o as int),
                        None => None,
                    },
                },
            ),
            final(self).out == old(self).out,
            final(self).files == old(self).files,
    {
        let fid = self.frames.len();
        let ghost dv = entries_view(data);
        self.frames.push(EnvStruct { data, outer });
        proof {
            let ev0 = env_view(*old(self));
            let ev = env_view(*self);
            assert(entries_view(self.frames@[fid as int].data) == dv);
            assert(ev =~= ev0.push(
                FrameV {
                    data: dv,
                    outer: match outer {
                        Some(o) => Some(o as int),
                        None => None,
                    },
                },
            ));
            assert forall|i: int| 0 <= i < ev.len() implies frame_entries_ok(
                #[trigger] ev[i],
                ev.len() as int,
            ) by {
                if i < ev0.len() {
                    assert(frame_entries_ok(ev0[i], ev0.len() as int));
                    assert forall|j: int| 0 <= j < ev[i].data.len() implies val_envs_ok(
                        (#[trigger] ev[i].data[j]).1,
                        ev.len() as int,
                    ) by {
                        lemma_val_envs_ok_mono(ev0[i].data[j].1, ev0.len() as int, ev.len() as int);
                    }
                } else {
                    assert(ev[i] == ev.last());
                    assert forall|j: int| 0 <= j < ev[i].data.len() implies val_envs_ok(
                        (#[trigger] ev[i].data[j]).1,
                        ev.len() as int,
                    ) by {
                        assert(val_envs_ok(dv[j].1, ev0.len() as int));
                        lemma_val_envs_ok_mono(dv[j].1, ev0.len() as int, ev.len() as int);
                    }
                }
            }
        }
        fid
    }
}

} // verus!

verus! {

impl Env {
    /// Reclaim frames: find the shortest prefix of the arena that is
    /// closed — no kept binding captures a frame past it — and drop
    /// everything after it.  Frame 0 and everything reachable from it
    /// stay, with every binding intact; a host that holds no values of
    /// its own (the REPL holds only printed text) can call this between
    /// evaluations to keep a long session's arena bounded by what its
    /// definitions actually capture.
    #[verifier::loop_isolation(false)]
    pub fn collect(&mut self)
        requires
            old(self).wf(),
        ensures
            final(self).wf(),
            1 <= env_view(*final(self)).len() <= env_view(*old(self)).len(),
            env_view(*final(self)) == env_view(*old(self)).take(
                env_view(*final(self)).len() as int,
            ),
            final(self).out == old(self).out,
            final(self).files == old(self).files,
    {
        let ghost ev = env_view(*self);
        let n = self.frames.len();
        let mut m: usize = 1;
        let mut i: usize = 0;
        while i < m
            invariant
                1 <= m <= n,
                i <= m,
                *self == *old(self),
                forall|a: int, b: int|
                    0 <= a < i && 0 <= b < ev[a].data.len() ==> val_envs_ok(
                        (#[trigger] ev[a].data[b]).1,
                        m as int,
                    ),
            decreases n - m, m - i,
        {
            let fl = self.frames[i].data.len();
            let ghost m_in = m as int;
            let mut j: usize = 0;
            while j < fl
                invariant
                    m_in <= m as int,
                    i < m <= n,
                    fl == self.frames@[i as int].data@.len(),
                    j <= fl,
                    *self == *old(self),
                    forall|a: int, b: int|
                        0 <= a < i && 0 <= b < ev[a].data.len() ==> val_envs_ok(
                            (#[trigger] ev[a].data[b]).1,
                            m as int,
                        ),
                    forall|b: int|
                        0 <= b < j ==> val_envs_ok((#[trigger] ev[i as int].data[b]).1, m as int),
                decreases n - m, fl - j,
            {
                let ghost m0 = m as int;
                let b = self.frames[i].data[j].1.env_bound();
                proof {
                    assert(ev[i as int].data[j as int].1 == atom_view(
                        self.frames@[i as int].data@[j as int].1,
                    ));
                    assert(frame_entries_ok(ev[i as int], ev.len() as int));
                    assert(val_envs_ok(ev[i as int].data[j as int].1, ev.len() as int));
                }
                if b == usize::MAX {
                    // a bound too large to represent: keep everything
                    return ;
                }
                proof {
                    assert(b as int <= ev.len());
                }
                if b > m {
                    m = b;
                }
                proof {
                    assert forall|a: int, c: int|
                        0 <= a < i && 0 <= c < ev[a].data.len() implies val_envs_ok(
                        (#[trigger] ev[a].data[c]).1,
                        m as int,
                    ) by {
                        lemma_val_envs_ok_mono(ev[a].data[c].1, m0, m as int);
                    }
                    assert forall|c: int| 0 <= c < j + 1 implies val_envs_ok(
                        (#[trigger] ev[i as int].data[c]).1,
                        m as int,
                    ) by {
                        if c < j {
                            lemma_val_envs_ok_mono(ev[i as int].data[c].1, m0, m as int);
                        } else {
                            lemma_val_envs_ok_mono(
                                ev[i as int].data[c].1,
                                b as int,
                                m as int,
                            );
                        }
                    }
                }
                j += 1;
            }
            i += 1;
        }
        if m < n {
            self.frames.truncate(m);
            proof {
                let ev2 = env_view(*self);
                assert(ev2 =~= ev.take(m as int));
                assert forall|a: int| 0 <= a < ev2.len() implies frame_entries_ok(
                    #[trigger] ev2[a],
                    ev2.len() as int,
                ) by {
                    assert(ev2[a] == ev[a]);
                    assert forall|b: int| 0 <= b < ev2[a].data.len() implies val_envs_ok(
                        (#[trigger] ev2[a].data[b]).1,
                        ev2.len() as int,
                    ) by {
                        assert(val_envs_ok(ev[a].data[b].1, m as int));
                    }
                }
                assert(env_view(*self) == env_view(*old(self)).take(
                    env_view(*self).len() as int,
                ));
            }
        } else {
            proof {
                assert(env_view(*self).take(env_view(*self).len() as int) =~= env_view(*self));
            }
        }
    }
}

} // verus!
