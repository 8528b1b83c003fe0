//! The evaluation relation: a fuel-indexed interpreter over abstract
//! values, environments and output.  `eval_spec` says, for every
//! expression, exactly which result the evaluator returns, how the frame
//! arena changes, and what the printing builtins append — including the
//! two budget errors, so the relation is total and the evaluator's
//! contract is an equality against it.
use vstd::prelude::*;
use crate::types::{Val, Builtin, LishResult};
use crate::env::{
    Env, FrameV, env_view, out_view, files_view, env_lookup, env_root, bind_spec, not_found_msg,
};
use crate::builtins::{builtin_spec, BuiltinOut, arity1_msg, not_fn_msg};
use crate::{
    EVAL_STEPS, depth_msg, steps_msg, form_arity_msg, not_symbol_msg, let_not_list_msg,
    let_odd_msg, not_lambda_msg, is_macro_call_spec, quasiquote_spec, list_items,
};

verus! {

/// One evaluation outcome: the result, the frame arena after, and the
/// output buffer after.
#[verifier::ext_equal]
pub struct Outcome {
    pub result: Result<Val, Seq<char>>,
    pub frames: Seq<FrameV>,
    pub out: Seq<Seq<char>>,
}

/// A successful outcome.
pub open spec fn done_ok(v: Val, frames: Seq<FrameV>, out: Seq<Seq<char>>) -> Outcome {
    Outcome { result: Ok(v), frames, out }
}

/// A failed outcome.
pub open spec fn done_err(m: Seq<char>, frames: Seq<FrameV>, out: Seq<Seq<char>>) -> Outcome {
    Outcome { result: Err(m), frames, out }
}

/// Whether an executable result and a final store agree with a spec
/// outcome: same result up to views, same frames, same output.
pub open spec fn outcome_matches(r: LishResult, post: Env, o: Outcome) -> bool {
    &&& (match o.result {
        Ok(v) => r matches Ok(a) && a@ == v,
        Err(m) => r matches Err(e) && e.0@ == m,
    })
    &&& env_view(post) == o.frames
    &&& out_view(post) == o.out
}

/// The evaluator's contract: its outcome is exactly what `eval_spec`
/// says, under a fresh step budget.
pub open spec fn eval_matches(
    r: LishResult,
    pre: Env,
    post: Env,
    ast: Val,
    fid: int,
    fuel: nat,
) -> bool {
    outcome_matches(
        r,
        post,
        eval_spec(
            ast,
            env_view(pre),
            out_view(pre),
            files_view(pre),
            fid,
            fuel,
            EVAL_STEPS as nat,
        ),
    )
}

/// The builtin dispatcher's contract against `apply_spec`.
pub open spec fn apply_matches(
    r: LishResult,
    pre: Env,
    post: Env,
    op: Builtin,
    args: Seq<Val>,
    fuel: nat,
) -> bool {
    outcome_matches(
        r,
        post,
        apply_spec(op, args, env_view(pre), out_view(pre), files_view(pre), fuel),
    )
}

/// The macro expander's contract against `macroexpand_spec`.
pub open spec fn mx_matches(
    r: LishResult,
    pre: Env,
    post: Env,
    ast: Val,
    fid: int,
    fuel: nat,
) -> bool {
    outcome_matches(
        r,
        post,
        macroexpand_spec(ast, env_view(pre), out_view(pre), files_view(pre), fid, fuel),
    )
}

/// The expansion loop's contract against `macroexpand_steps_spec`.
pub open spec fn mx_steps_matches(
    r: LishResult,
    pre: Env,
    post: Env,
    ast: Val,
    fid: int,
    fuel: nat,
) -> bool {
    outcome_matches(
        r,
        post,
        macroexpand_steps_spec(
            ast,
            env_view(pre),
            out_view(pre),
            files_view(pre),
            fid,
            fuel,
            EVAL_STEPS as nat,
        ),
    )
}

/// The arena after adding the binding `name -> v` to frame `fid`.
pub open spec fn set_frames(frames: Seq<FrameV>, fid: int, name: Seq<char>, v: Val) -> Seq<
    FrameV,
> {
    frames.update(fid, FrameV { data: frames[fid].data.push((name, v)), outer: frames[fid].outer })
}

/// What evaluating `ast` from frame `fid` produces, with `fuel` depth
/// units and `steps` remaining trampoline turns.  Exhausting a budget is
/// the corresponding error outcome.  Macro calls are expanded first; a
/// non-list then stands for itself (a symbol resolves through the chain),
/// and a list dispatches on its head in the evaluator's own order.
pub open spec fn eval_spec(
    ast: Val,
    frames: Seq<FrameV>,
    out: Seq<Seq<char>>,
    files: Seq<(Seq<char>, Seq<char>)>,
    fid: int,
    fuel: nat,
    steps: nat,
) -> Outcome
    decreases fuel, 9int, steps,
{
    if steps == 0 {
        done_err(steps_msg(), frames, out)
    } else {
        let mo = macroexpand_spec(ast, frames, out, files, fid, fuel);
        if mo.result is Err {
            mo
        } else {
            let ast = mo.result->Ok_0;
            let frames = mo.frames;
            let out = mo.out;
            match ast {
                Val::Sym(s) => match env_lookup(frames, fid, s) {
                    Some(v) => done_ok(v, frames, out),
                    None => done_err(not_found_msg(s), frames, out),
                },
                Val::List(items) => {
                    if items.len() == 0 {
                        done_ok(ast, frames, out)
                    } else {
                        let h = items[0];
                        let nargs = items.len() - 1;
                        if h == Val::Sym("quote"@) {
                            if items.len() == 2 {
                                done_ok(items[1], frames, out)
                            } else {
                                done_err(form_arity_msg("quote"@, 1, nargs, ast), frames, out)
                            }
                        } else if h == Val::Sym("quasiquoteexpand"@) {
                            if items.len() == 2 {
                                done_ok(quasiquote_spec(items[1]), frames, out)
                            } else {
                                done_err(
                                    form_arity_msg("quasiquoteexpand"@, 1, nargs, ast),
                                    frames,
                                    out,
                                )
                            }
                        } else if h == Val::Sym("fn"@) {
                            if items.len() >= 3 {
                                done_ok(
                                    Val::Lambda {
                                        env: fid,
                                        params: Box::new(items[1]),
                                        body: Box::new(items[2]),
                                        is_macro: false,
                                    },
                                    frames,
                                    out,
                                )
                            } else {
                                done_err(form_arity_msg("fn"@, 2, nargs, ast), frames, out)
                            }
                        } else if h == Val::Sym("quasiquote"@) {
                            if items.len() != 2 {
                                done_err(form_arity_msg("quasiquote"@, 1, nargs, ast), frames, out)
                            } else {
                                eval_spec(
                                    quasiquote_spec(items[1]),
                                    frames,
                                    out,
                                    files,
                                    fid,
                                    fuel,
                                    (steps - 1) as nat,
                                )
                            }
                        } else if h == Val::Sym("macroexpand"@) {
                            if items.len() != 2 {
                                done_err(form_arity_msg("macroexpand"@, 1, nargs, ast), frames, out)
                            } else {
                                macroexpand_spec(items[1], frames, out, files, fid, fuel)
                            }
                        } else if h == Val::Sym("set"@) {
                            if items.len() != 3 {
                                done_err(form_arity_msg("set"@, 2, nargs, ast), frames, out)
                            } else {
                                match items[1] {
                                    Val::Sym(name) => {
                                        if fuel == 0 {
                                            done_err(depth_msg(), frames, out)
                                        } else {
                                            let o = eval_spec(
                                                items[2],
                                                frames,
                                                out,
                                                files,
                                                fid,
                                                (fuel - 1) as nat,
                                                EVAL_STEPS as nat,
                                            );
                                            match o.result {
                                                Err(m) => o,
                                                Ok(v) => done_ok(
                                                    v,
                                                    set_frames(o.frames, fid, name, v),
                                                    o.out,
                                                ),
                                            }
                                        }
                                    },
                                    v => done_err(not_symbol_msg(v), frames, out),
                                }
                            }
                        } else if h == Val::Sym("setmacro"@) {
                            if items.len() != 3 {
                                done_err(form_arity_msg("setmacro"@, 2, nargs, ast), frames, out)
                            } else {
                                match items[1] {
                                    Val::Sym(name) => {
                                        if fuel == 0 {
                                            done_err(depth_msg(), frames, out)
                                        } else {
                                            let o = eval_spec(
                                                items[2],
                                                frames,
                                                out,
                                                files,
                                                fid,
                                                (fuel - 1) as nat,
                                                EVAL_STEPS as nat,
                                            );
                                            match o.result {
                                                Err(m) => o,
                                                Ok(v) => match v {
                                                    Val::Lambda { env, params, body, is_macro } => {
                                                        let mac = Val::Lambda {
                                                            env,
                                                            params,
                                                            body,
                                                            is_macro: true,
                                                        };
                                                        done_ok(
                                                            mac,
                                                            set_frames(o.frames, fid, name, mac),
                                                            o.out,
                                                        )
                                                    },
                                                    _ => done_err(
                                                        not_lambda_msg(),
                                                        o.frames,
                                                        o.out,
                                                    ),
                                                },
                                            }
                                        }
                                    },
                                    v => done_err(not_symbol_msg(v), frames, out),
                                }
                            }
                        } else if h == Val::Sym("let"@) {
                            if nargs == 0 {
                                done_err(form_arity_msg("let"@, 2, 0, ast), frames, out)
                            } else {
                                match items[1] {
                                    Val::List(bl) => {
                                        if bl.len() % 2 != 0 {
                                            done_err(let_odd_msg(nargs, ast), frames, out)
                                        } else {
                                            let lf = frames.len() as int;
                                            let frames1 = frames.push(
                                                FrameV { data: Seq::empty(), outer: Some(fid) },
                                            );
                                            match let_pairs_spec(
                                                bl,
                                                0,
                                                bl.len() as int / 2,
                                                frames1,
                                                out,
                                                files,
                                                lf,
                                                fuel,
                                            ) {
                                                Err(o) => o,
                                                Ok(st) => eval_spec(
                                                    Val::List(
                                                        seq![Val::Sym("progn"@)] + items.skip(2),
                                                    ),
                                                    st.0,
                                                    st.1,
                                                    files,
                                                    lf,
                                                    fuel,
                                                    (steps - 1) as nat,
                                                ),
                                            }
                                        }
                                    },
                                    v => done_err(let_not_list_msg(v), frames, out),
                                }
                            }
                        } else if h == Val::Sym("progn"@) {
                            if nargs == 0 {
                                done_ok(Val::Nil, frames, out)
                            } else {
                                match progn_spec(items, 1, frames, out, files, fid, fuel) {
                                    Err(o) => o,
                                    Ok(st) => eval_spec(
                                        items[items.len() - 1],
                                        st.0,
                                        st.1,
                                        files,
                                        fid,
                                        fuel,
                                        (steps - 1) as nat,
                                    ),
                                }
                            }
                        } else if h == Val::Sym("if"@) {
                            if nargs < 2 {
                                done_err(form_arity_msg("if"@, 2, nargs, ast), frames, out)
                            } else if fuel == 0 {
                                done_err(depth_msg(), frames, out)
                            } else {
                                let o = eval_spec(
                                    items[1],
                                    frames,
                                    out,
                                    files,
                                    fid,
                                    (fuel - 1) as nat,
                                    EVAL_STEPS as nat,
                                );
                                match o.result {
                                    Err(m) => o,
                                    Ok(v) => {
                                        let falsy = v == Val::Bool(false) || v is Nil;
                                        if !falsy {
                                            eval_spec(
                                                items[2],
                                                o.frames,
                                                o.out,
                                                files,
                                                fid,
                                                fuel,
                                                (steps - 1) as nat,
                                            )
                                        } else if nargs == 3 {
                                            eval_spec(
                                                items[3],
                                                o.frames,
                                                o.out,
                                                files,
                                                fid,
                                                fuel,
                                                (steps - 1) as nat,
                                            )
                                        } else {
                                            done_ok(Val::Nil, o.frames, o.out)
                                        }
                                    },
                                }
                            }
                        } else if h == Val::Sym("eval"@) {
                            if items.len() != 2 {
                                done_err(form_arity_msg("eval"@, 1, nargs, ast), frames, out)
                            } else if fuel == 0 {
                                done_err(depth_msg(), frames, out)
                            } else {
                                let o = eval_spec(
                                    items[1],
                                    frames,
                                    out,
                                    files,
                                    fid,
                                    (fuel - 1) as nat,
                                    EVAL_STEPS as nat,
                                );
                                match o.result {
                                    Err(m) => o,
                                    Ok(v) => eval_spec(
                                        v,
                                        o.frames,
                                        o.out,
                                        files,
                                        env_root(o.frames, fid),
                                        fuel,
                                        (steps - 1) as nat,
                                    ),
                                }
                            }
                        } else {
                            // ordinary application: head, then arguments, then the call
                            if fuel == 0 {
                                done_err(depth_msg(), frames, out)
                            } else {
                                let ho = eval_spec(
                                    items[0],
                                    frames,
                                    out,
                                    files,
                                    fid,
                                    (fuel - 1) as nat,
                                    EVAL_STEPS as nat,
                                );
                                match ho.result {
                                    Err(m) => ho,
                                    Ok(funv) => match eval_args_spec(
                                        items,
                                        1,
                                        ho.frames,
                                        ho.out,
                                        files,
                                        fid,
                                        fuel,
                                    ) {
                                        Err(o) => o,
                                        Ok(st) => {
                                            let vals = st.0;
                                            let frames2 = st.1;
                                            let out2 = st.2;
                                            match funv {
                                                Val::Func(b) => apply_spec(
                                                    b,
                                                    vals,
                                                    frames2,
                                                    out2,
                                                    files,
                                                    fuel,
                                                ),
                                                Val::Lambda { env: le, params, body, is_macro } => {
                                                    match bind_spec(*params, vals) {
                                                        Err(m) => done_err(m, frames2, out2),
                                                        Ok(data) => eval_spec(
                                                            *body,
                                                            frames2.push(
                                                                FrameV { data, outer: Some(le) },
                                                            ),
                                                            out2,
                                                            files,
                                                            frames2.len() as int,
                                                            fuel,
                                                            (steps - 1) as nat,
                                                        ),
                                                    }
                                                },
                                                v => done_err(not_fn_msg(v), frames2, out2),
                                            }
                                        },
                                    },
                                }
                            }
                        }
                    }
                },
                _ => done_ok(ast, frames, out),
            }
        }
    }
}

/// Evaluate the binding pairs of a `let`, in order, into frame `lf`.
pub open spec fn let_pairs_spec(
    bl: Seq<Val>,
    p: int,
    npairs: int,
    frames: Seq<FrameV>,
    out: Seq<Seq<char>>,
    files: Seq<(Seq<char>, Seq<char>)>,
    lf: int,
    fuel: nat,
) -> Result<(Seq<FrameV>, Seq<Seq<char>>), Outcome>
    decreases fuel, 7int, npairs - p,
{
    if p >= npairs {
        Ok((frames, out))
    } else {
        match bl[2 * p] {
            Val::Sym(name) => if fuel == 0 {
                Err(done_err(depth_msg(), frames, out))
            } else {
                let o = eval_spec(
                    bl[2 * p + 1],
                    frames,
                    out,
                    files,
                    lf,
                    (fuel - 1) as nat,
                    EVAL_STEPS as nat,
                );
                match o.result {
                    Err(m) => Err(o),
                    Ok(v) => let_pairs_spec(
                        bl,
                        p + 1,
                        npairs,
                        set_frames(o.frames, lf, name, v),
                        o.out,
                        files,
                        lf,
                        fuel,
                    ),
                }
            },
            v => Err(done_err(not_symbol_msg(v), frames, out)),
        }
    }
}

/// Evaluate the forms of a `progn` body except the last, for effect.
pub open spec fn progn_spec(
    items: Seq<Val>,
    k: int,
    frames: Seq<FrameV>,
    out: Seq<Seq<char>>,
    files: Seq<(Seq<char>, Seq<char>)>,
    fid: int,
    fuel: nat,
) -> Result<(Seq<FrameV>, Seq<Seq<char>>), Outcome>
    decreases fuel, 7int, items.len() - k,
{
    if k >= items.len() - 1 {
        Ok((frames, out))
    } else if fuel == 0 {
        Err(done_err(depth_msg(), frames, out))
    } else {
        let o = eval_spec(items[k], frames, out, files, fid, (fuel - 1) as nat, EVAL_STEPS as nat);
        match o.result {
            Err(m) => Err(o),
            Ok(v) => progn_spec(items, k + 1, o.frames, o.out, files, fid, fuel),
        }
    }
}

/// Evaluate call arguments left to right, collecting their values.
pub open spec fn eval_args_spec(
    items: Seq<Val>,
    k: int,
    frames: Seq<FrameV>,
    out: Seq<Seq<char>>,
    files: Seq<(Seq<char>, Seq<char>)>,
    fid: int,
    fuel: nat,
) -> Result<(Seq<Val>, Seq<FrameV>, Seq<Seq<char>>), Outcome>
    decreases fuel, 6int, items.len() - k,
{
    if !(1 <= k < items.len()) {
        Ok((Seq::empty(), frames, out))
    } else if fuel == 0 {
        Err(done_err(depth_msg(), frames, out))
    } else {
        let o = eval_spec(items[k], frames, out, files, fid, (fuel - 1) as nat, EVAL_STEPS as nat);
        match o.result {
            Err(m) => Err(o),
            Ok(v) => match eval_args_spec(items, k + 1, o.frames, o.out, files, fid, fuel) {
                Err(e) => Err(e),
                Ok(st) => Ok((seq![v] + st.0, st.1, st.2)),
            },
        }
    }
}

/// What applying a native function returns: `apply` recurses through its
/// own first argument, hands a lambda to the evaluator, and every other
/// builtin is decided by `builtin_spec`.
pub open spec fn apply_spec(
    op: Builtin,
    args: Seq<Val>,
    frames: Seq<FrameV>,
    out: Seq<Seq<char>>,
    files: Seq<(Seq<char>, Seq<char>)>,
    fuel: nat,
) -> Outcome
    decreases fuel, 5int, args.len(),
{
    if op is Apply {
        if args.len() == 0 {
            done_err(arity1_msg("apply"@), frames, out)
        } else {
            match args[0] {
                Val::Func(op2) => apply_spec(op2, args.skip(1), frames, out, files, fuel),
                Val::Lambda { env: le, params, body, is_macro } => if fuel == 0 {
                    done_err(depth_msg(), frames, out)
                } else {
                    match bind_spec(*params, args.skip(1)) {
                        Err(m) => done_err(m, frames, out),
                        Ok(data) => eval_spec(
                            *body,
                            frames.push(FrameV { data, outer: Some(le) }),
                            out,
                            files,
                            frames.len() as int,
                            (fuel - 1) as nat,
                            EVAL_STEPS as nat,
                        ),
                    }
                },
                v => done_err(not_fn_msg(v), frames, out),
            }
        }
    } else {
        match builtin_spec(op, args, files) {
            BuiltinOut::Done(Ok(vo)) => Outcome { result: Ok(vo.0), frames, out: out + vo.1 },
            BuiltinOut::Done(Err(m)) => done_err(m, frames, out),
            // only `apply` ever hands off to the evaluator
            BuiltinOut::CallLambda => done_err(depth_msg(), frames, out),
        }
    }
}

/// What expanding macro calls at the head of `ast` produces: an
/// expression that is not a macro call comes back unchanged; otherwise the
/// macro's body runs on the unevaluated argument forms, repeatedly, under
/// its own step budget.
pub open spec fn macroexpand_spec(
    ast: Val,
    frames: Seq<FrameV>,
    out: Seq<Seq<char>>,
    files: Seq<(Seq<char>, Seq<char>)>,
    fid: int,
    fuel: nat,
) -> Outcome
    decreases fuel, 4int, 0int,
{
    if !is_macro_call_spec(frames, fid, ast) {
        done_ok(ast, frames, out)
    } else {
        macroexpand_steps_spec(ast, frames, out, files, fid, fuel, EVAL_STEPS as nat)
    }
}

/// One expansion turn per step: stop as soon as the expression is no
/// longer a macro call.
pub open spec fn macroexpand_steps_spec(
    ast: Val,
    frames: Seq<FrameV>,
    out: Seq<Seq<char>>,
    files: Seq<(Seq<char>, Seq<char>)>,
    fid: int,
    fuel: nat,
    steps: nat,
) -> Outcome
    decreases fuel, 3int, steps,
{
    if steps == 0 {
        done_err(steps_msg(), frames, out)
    } else if !is_macro_call_spec(frames, fid, ast) {
        done_ok(ast, frames, out)
    } else {
        let items = list_items(ast);
        match items[0] {
            Val::Sym(s) => match env_lookup(frames, fid, s) {
                Some(m) => match m {
                    Val::Lambda { env: le, params, body, is_macro } => match bind_spec(
                        *params,
                        items.skip(1),
                    ) {
                        Err(msg) => done_err(msg, frames, out),
                        Ok(data) => {
                            let frames2 = frames.push(FrameV { data, outer: Some(le) });
                            if fuel == 0 {
                                done_err(depth_msg(), frames2, out)
                            } else {
                                let o = eval_spec(
                                    *body,
                                    frames2,
                                    out,
                                    files,
                                    frames.len() as int,
                                    (fuel - 1) as nat,
                                    EVAL_STEPS as nat,
                                );
                                match o.result {
                                    Err(m2) => o,
                                    Ok(a2) => macroexpand_steps_spec(
                                        a2,
                                        o.frames,
                                        o.out,
                                        files,
                                        fid,
                                        fuel,
                                        (steps - 1) as nat,
                                    ),
                                }
                            }
                        },
                    },
                    _ => done_ok(ast, frames, out),
                },
                None => done_ok(ast, frames, out),
            },
            _ => done_ok(ast, frames, out),
        }
    }
}

} // verus!
