//! The evaluator: the special-form dispatcher and apply protocol.  It
//! walks an expression tree against an environment and yields a value or a
//! typed fault; every exit path leaves the frame stack as deep as it found
//! it, and the output sink only ever grows.
//!
//! The whole of evaluation is pinned by the fuel-indexed relation
//! [`spec_eval`]: wherever it yields an outcome, the executable evaluator
//! returns exactly that value (or a fault of exactly that kind) and
//! leaves exactly that frame stack.  It leaves open only what cannot be
//! pinned: print forms, and the machine-dependent identity test.
//!
//! Recursion is bounded by an explicit call-depth counter: entering a
//! procedure body, or treating a computed value as code, spends one unit;
//! walking into subexpressions is free.  A native callable's result is
//! propagated as-is; running a value as code is opt-in, through the
//! `eval` special form — the one exception is `map`, whose application
//! of the callable per element runs through the evaluator.

use vstd::prelude::*;
use std::rc::Rc;
use crate::types::{
    bind_innermost, env_lookup, lemma_list_view, res_matches, str_eq, views_of_seq, Atom,
    Environment, EvalErr, EvalOut, Exceptions, Exp, ExpV,
};
use crate::builtin_functions::{call_builtin, spec_call_builtin};
use crate::parser::{parse, views_of_strings};
use crate::printer::push_str_chars;

verus! {

broadcast use vstd::std_specs::vec::axiom_vec_index_decreases;

/// How many procedure entries an evaluation may nest.
pub const MAX_CALL_DEPTH: u64 = 1024;

/// How deep `apply` may nest built-in calls.
pub const MAX_APPLY_DEPTH: u64 = 64;

/// Parse one form and evaluate it in `env`.  Reader faults come back as
/// syntax faults exactly as `parse` says; a lone literal evaluates to
/// itself and a lone symbol resolves through the environment.
pub fn parse_and_eval(program: String, env: &mut Environment) -> (r: Result<Exp, Exceptions>)
    requires
        old(env)@.len() >= 1,
    ensures
        final(env)@.len() == old(env)@.len(),
        old(env).sink().is_prefix_of(final(env).sink()),
        crate::parser::tok_spec(program@, 0) is None ==> (r matches Err(
            Exceptions::SyntaxError(_),
        ) && *final(env) == *old(env)),
        crate::parser::tok_spec(program@, 0) matches Some(toks) ==> {
            &&& (crate::parser::read_spec(toks, 0) is None ==> (r matches Err(
                Exceptions::SyntaxError(_),
            ) && *final(env) == *old(env)))
            &&& (crate::parser::read_spec(toks, 0) matches Some(p) ==> {
                &&& (p.1 != toks.len() ==> (r matches Err(Exceptions::SyntaxError(_))
                    && *final(env) == *old(env)))
                &&& (p.1 == toks.len() && (p.0 matches ExpV::Num(_) || p.0 matches ExpV::Bool(_)
                    || p.0 matches ExpV::Str(_)) ==> (r matches Ok(e) && e@ == p.0))
                &&& (p.1 == toks.len() ==> (p.0 matches ExpV::Sym(name) ==> match env_lookup(
                    old(env)@,
                    name,
                ) {
                    Some(v) => r matches Ok(e) && e@ == v,
                    None => r matches Err(Exceptions::ValueError(_)),
                }))
                &&& (p.1 == toks.len() ==> match spec_eval(
                    p.0,
                    old(env)@,
                    MAX_CALL_DEPTH as nat,
                ) {
                    Some(out) => res_matches(r, out.result) && final(env)@ == out.env
                        && final(env).sink() == old(env).sink(),
                    None => true,
                })
            })
        },
{
    let parsed_exp = match parse(program) {
        Ok(e) => e,
        Err(e) => {
            proof {
                assert(old(env).sink().is_prefix_of(env.sink()));
            }
            return Err(e);
        },
    };
    eval(&parsed_exp, env, MAX_CALL_DEPTH)
}


/// A successful specification-level step.
pub open spec fn vok(v: ExpV, env: Seq<Map<Seq<char>, ExpV>>) -> EvalOut {
    EvalOut { result: Ok(v), env }
}

/// A value fault at specification level.
pub open spec fn verr(env: Seq<Map<Seq<char>, ExpV>>) -> EvalOut {
    EvalOut { result: Err(EvalErr::Value), env }
}

/// The arguments of one application, evaluated left to right at
/// specification level: their values and the frame stack afterwards.
pub ghost struct ArgsOut {
    pub result: Result<Seq<ExpV>, EvalErr>,
    pub env: Seq<Map<Seq<char>, ExpV>>,
}

/// What evaluating `e` against `env` with `depth` call units left yields:
/// the result and the frame stack afterwards.  `None` where the outcome is
/// not pinned down here: a print form (this relation does not carry the
/// output sink; the print handler's own contract pins the joined text it
/// writes and returns), and the identity test on two lists (it depends on
/// where they are stored).  Wherever the outcome is pinned, the sink is
/// untouched.
pub open spec fn spec_eval(e: ExpV, env: Seq<Map<Seq<char>, ExpV>>, depth: nat) -> Option<EvalOut>
    decreases depth, e, 2int, 0int,
{
    match e {
        ExpV::Num(_) => Some(vok(e, env)),
        ExpV::Bool(_) => Some(vok(e, env)),
        ExpV::Str(_) => Some(vok(e, env)),
        ExpV::Sym(name) => match env_lookup(env, name) {
            Some(v) => Some(vok(v, env)),
            None => Some(verr(env)),
        },
        ExpV::Func(_) => Some(verr(env)),
        ExpV::Proc { .. } => Some(verr(env)),
        ExpV::List(es) => if es.len() == 0 {
            Some(verr(env))
        } else {
            match es[0] {
                ExpV::Sym(name) => if name == "if"@ {
                    spec_if(es, env, depth)
                } else if name == "define"@ {
                    spec_define(es, env, depth)
                } else if name == "quote"@ {
                    if es.len() < 2 {
                        Some(verr(env))
                    } else {
                        Some(vok(es[1], env))
                    }
                } else if name == "set!"@ {
                    spec_set(es, env, depth)
                } else if name == "lambda"@ {
                    Some(EvalOut { result: spec_lambda_res(es), env })
                } else if name == "eval"@ {
                    if es.len() != 2 {
                        Some(verr(env))
                    } else {
                        match spec_eval(es[1], env, depth) {
                            None => None,
                            Some(o) => match o.result {
                                Err(_) => Some(o),
                                Ok(v) => if depth == 0 {
                                    Some(verr(o.env))
                                } else {
                                    spec_eval(v, o.env, (depth - 1) as nat)
                                },
                            },
                        }
                    }
                } else if name == "print!"@ || name == "println!"@ {
                    None
                } else {
                    match env_lookup(env, name) {
                        None => Some(verr(env)),
                        Some(f) => match f {
                            ExpV::Func(b) => spec_func(b, es, env, depth),
                            ExpV::Proc { params, body } => spec_proc(params, *body, es, env, depth),
                            _ => Some(verr(env)),
                        },
                    }
                },
                ExpV::Proc { params, body } => spec_proc(params, *body, es, env, depth),
                ExpV::Func(b) => spec_func(b, es, env, depth),
                _ => match spec_eval(es[0], env, depth) {
                    None => None,
                    Some(o) => match o.result {
                        Err(_) => Some(verr(o.env)),
                        Ok(g) => if (g matches ExpV::Func(_)) || (g matches ExpV::Proc { .. }) {
                            if depth == 0 {
                                Some(verr(o.env))
                            } else {
                                spec_eval(
                                    ExpV::List(seq![g] + es.drop_first()),
                                    o.env,
                                    (depth - 1) as nat,
                                )
                            }
                        } else {
                            Some(verr(o.env))
                        },
                    },
                },
            }
        },
    }
}

/// The `if` special form: the test must yield a boolean, then exactly one
/// branch is evaluated.
pub open spec fn spec_if(es: Seq<ExpV>, env: Seq<Map<Seq<char>, ExpV>>, depth: nat) -> Option<
    EvalOut,
>
    decreases depth, es, 1int, 0int,
{
    if es.len() != 4 {
        Some(verr(env))
    } else {
        match spec_eval(es[1], env, depth) {
            None => None,
            Some(o) => match o.result {
                Err(_) => Some(o),
                Ok(v) => match v {
                    ExpV::Bool(b) => spec_eval(
                        if b {
                            es[2]
                        } else {
                            es[3]
                        },
                        o.env,
                        depth,
                    ),
                    _ => Some(verr(o.env)),
                },
            },
        }
    }
}

/// The `define` special form, both shapes: the result is the bound value,
/// and only the innermost frame changes.
pub open spec fn spec_define(es: Seq<ExpV>, env: Seq<Map<Seq<char>, ExpV>>, depth: nat) -> Option<
    EvalOut,
>
    decreases depth, es, 1int, 0int,
{
    if es.len() != 3 {
        Some(verr(env))
    } else {
        match es[1] {
            ExpV::Sym(name) => match spec_eval(es[2], env, depth) {
                None => None,
                Some(o) => match o.result {
                    Err(_) => Some(o),
                    Ok(v) => Some(EvalOut { result: Ok(v), env: bind_innermost(o.env, name, v) }),
                },
            },
            ExpV::List(hs) => if hs.len() == 0 {
                Some(verr(env))
            } else if !(forall|j: int|
                1 <= j < hs.len() ==> (#[trigger] hs[j]) matches ExpV::Sym(_)) {
                // Every parameter token must be a bare symbol.
                Some(EvalOut { result: Err(EvalErr::Syntax), env })
            } else if !(hs[0] matches ExpV::Sym(_)) {
                Some(verr(env))
            } else {
                let proc = ExpV::Proc {
                    params: Seq::new((hs.len() - 1) as nat, |j: int| hs[j + 1]->Sym_0),
                    body: Box::new(es[2]),
                };
                Some(EvalOut { result: Ok(proc), env: bind_innermost(env, hs[0]->Sym_0, proc) })
            },
            _ => Some(verr(env)),
        }
    }
}

/// The `set!` special form: succeeds exactly when the name is bound
/// somewhere after evaluating the operand, and rebinds it innermost.
pub open spec fn spec_set(es: Seq<ExpV>, env: Seq<Map<Seq<char>, ExpV>>, depth: nat) -> Option<
    EvalOut,
>
    decreases depth, es, 1int, 0int,
{
    if es.len() != 3 {
        Some(verr(env))
    } else {
        match es[1] {
            ExpV::Sym(name) => match spec_eval(es[2], env, depth) {
                None => None,
                Some(o) => match o.result {
                    Err(_) => Some(o),
                    Ok(v) => if env_lookup(o.env, name) is Some {
                        Some(EvalOut { result: Ok(v), env: bind_innermost(o.env, name, v) })
                    } else {
                        Some(verr(o.env))
                    },
                },
            },
            _ => Some(verr(env)),
        }
    }
}

/// The `lambda` special form: a procedure value, with nothing evaluated.
pub open spec fn spec_lambda_res(es: Seq<ExpV>) -> Result<ExpV, EvalErr> {
    if es.len() != 3 {
        Err(EvalErr::Syntax)
    } else {
        match es[1] {
            ExpV::List(ps) => if (forall|j: int|
                0 <= j < ps.len() ==> (#[trigger] ps[j]) matches ExpV::Sym(_)) {
                Ok(
                    ExpV::Proc {
                        params: Seq::new(ps.len(), |j: int| ps[j]->Sym_0),
                        body: Box::new(es[2]),
                    },
                )
            } else {
                Err(EvalErr::Value)
            },
            _ => Err(EvalErr::Value),
        }
    }
}

/// Evaluate `es[1..]` left to right, threading the frame stack.
pub open spec fn spec_eval_args(
    es: Seq<ExpV>,
    i: int,
    env: Seq<Map<Seq<char>, ExpV>>,
    depth: nat,
) -> Option<ArgsOut>
    decreases depth, es, 0int, es.len() - i,
    when 1 <= i <= es.len()
{
    if i >= es.len() {
        Some(ArgsOut { result: Ok(Seq::empty()), env })
    } else {
        match spec_eval(es[i], env, depth) {
            None => None,
            Some(o) => match o.result {
                Err(k) => Some(ArgsOut { result: Err(k), env: o.env }),
                Ok(v) => match spec_eval_args(es, i + 1, o.env, depth) {
                    None => None,
                    Some(rest) => match rest.result {
                        Ok(vs) => Some(ArgsOut { result: Ok(seq![v] + vs), env: rest.env }),
                        Err(_) => Some(rest),
                    },
                },
            },
        }
    }
}

/// The frame a call pushes: the parameters bound positionally.
pub open spec fn frame_of(params: Seq<Seq<char>>, vs: Seq<ExpV>) -> Map<Seq<char>, ExpV>
    decreases params.len(),
{
    if params.len() == 0 {
        Map::empty()
    } else {
        frame_of(params.drop_last(), vs.drop_last()).insert(params.last(), vs.last())
    }
}

/// Apply a procedure: exact arity, arguments left to right, the body in a
/// fresh frame binding the parameters positionally, and that frame popped
/// on every exit.
pub open spec fn spec_proc(
    params: Seq<Seq<char>>,
    body: ExpV,
    es: Seq<ExpV>,
    env: Seq<Map<Seq<char>, ExpV>>,
    depth: nat,
) -> Option<EvalOut>
    decreases depth, es, 1int, 0int,
{
    if es.len() - 1 != params.len() {
        Some(verr(env))
    } else {
        match spec_eval_args(es, 1, env, depth) {
            None => None,
            Some(a) => match a.result {
                Err(k) => Some(EvalOut { result: Err(k), env: a.env }),
                Ok(vs) => if depth == 0 {
                    Some(verr(a.env))
                } else {
                    match spec_eval(body, a.env.push(frame_of(params, vs)), (depth - 1) as nat) {
                        None => None,
                        Some(o) => Some(EvalOut { result: o.result, env: o.env.drop_last() }),
                    }
                },
            },
        }
    }
}

/// Apply a native callable: arguments left to right, then the call, whose
/// result is propagated as-is.  The one exception is `map`: the code it
/// builds (applying the callable to each element) runs through the
/// evaluator, so its faults propagate.
pub open spec fn spec_func(
    b: crate::types::Builtin,
    es: Seq<ExpV>,
    env: Seq<Map<Seq<char>, ExpV>>,
    depth: nat,
) -> Option<EvalOut>
    decreases depth, es, 1int, 0int,
{
    match spec_eval_args(es, 1, env, depth) {
        None => None,
        Some(a) => match a.result {
            Err(k) => Some(EvalOut { result: Err(k), env: a.env }),
            Ok(vs) => match spec_call_builtin(b, vs, MAX_APPLY_DEPTH as nat) {
                None => None,
                Some(res) => match res {
                    Err(_) => Some(verr(a.env)),
                    Ok(v) => if b == crate::types::Builtin::MapFn {
                        if depth == 0 {
                            Some(verr(a.env))
                        } else {
                            spec_eval(v, a.env, (depth - 1) as nat)
                        }
                    } else {
                        Some(vok(v, a.env))
                    },
                },
            },
        },
    }
}

/// Evaluate `exp` against `env`.
///
/// Atoms other than symbols, and strings, evaluate to themselves; a symbol
/// resolves through the environment, innermost frame first, and is a value
/// fault when unbound; an empty application is a value fault; a reserved
/// head symbol (`if`, `define`, `quote`, `set!`, `lambda`, `eval`, the
/// print forms) dispatches to its special form; any other non-empty list
/// evaluates its head to a callable and applies it to the evaluated
/// arguments, and a head that is no callable is a value fault.  Whatever
/// happens, the frame stack keeps its depth and already-written output
/// stays.
pub fn eval(exp: &Exp, env: &mut Environment, depth: u64) -> (r: Result<Exp, Exceptions>)
    requires
        old(env)@.len() >= 1,
    ensures
        final(env)@.len() == old(env)@.len(),
        old(env).sink().is_prefix_of(final(env).sink()),
        (exp@ matches ExpV::Num(_) || exp@ matches ExpV::Bool(_) || exp@ matches ExpV::Str(_))
            ==> (r matches Ok(e) && e@ == exp@ && *final(env) == *old(env)),
        exp@ matches ExpV::Sym(name) ==> (*final(env) == *old(env) && match env_lookup(
            old(env)@, name) {
            Some(v) => r matches Ok(e) && e@ == v,
            None => r matches Err(Exceptions::ValueError(_)),
        }),
        (exp@ matches ExpV::Func(_) || exp@ matches ExpV::Proc { .. }) ==> (r matches Err(
            Exceptions::ValueError(_),
        ) && *final(env) == *old(env)),
        exp@ matches ExpV::List(es) ==> {
            &&& (es.len() == 0 ==> (r matches Err(Exceptions::ValueError(_)) && *final(env)
                == *old(env)))
            &&& (es.len() >= 1 && es[0] == ExpV::Sym("quote"@) ==> (*final(env) == *old(env) && (
            if es.len() >= 2 {
                r matches Ok(e) && e@ == es[1]
            } else {
                r matches Err(Exceptions::ValueError(_))
            })))
            &&& (es.len() >= 1 && es[0] == ExpV::Sym("if"@) && es.len() != 4 ==> r matches Err(
                Exceptions::ValueError(_),
            ))
            &&& (es.len() >= 1 && es[0] == ExpV::Sym("define"@) && es.len() != 3 ==> r matches Err(
                Exceptions::ValueError(_),
            ))
            &&& (es.len() == 3 && es[0] == ExpV::Sym("define"@) ==> (es[1] matches ExpV::Sym(name)
                ==> (r matches Ok(e) ==> env_lookup(final(env)@, name) == Some(e@))))
            &&& (es.len() >= 1 && es[0] == ExpV::Sym("set!"@) && es.len() != 3 ==> r matches Err(
                Exceptions::ValueError(_),
            ))
            &&& (es.len() >= 1 && es[0] == ExpV::Sym("lambda"@) ==> (*final(env) == *old(env) && (
            if es.len() == 3 {
                match es[1] {
                    ExpV::List(ps) => if (forall|j: int|
                        0 <= j < ps.len() ==> #[trigger] ps[j] matches ExpV::Sym(_)) {
                        r matches Ok(e) && e@ == (ExpV::Proc {
                            params: Seq::new(ps.len(), |j: int| ps[j]->Sym_0),
                            body: Box::new(es[2]),
                        })
                    } else {
                        r matches Err(Exceptions::ValueError(_))
                    },
                    _ => r matches Err(Exceptions::ValueError(_)),
                }
            } else {
                r matches Err(Exceptions::SyntaxError(_))
            })))
        },
        match spec_eval(exp@, old(env)@, depth as nat) {
            Some(out) => res_matches(r, out.result) && final(env)@ == out.env && final(env).sink()
                == old(env).sink(),
            None => true,
        },
    decreases depth, *exp, 2int,
{
    proof {
        assert("if"@.len() == 2) by {
            reveal_strlit("if");
        }
        assert("quote"@.len() == 5) by {
            reveal_strlit("quote");
        }
        assert("set!"@.len() == 4 && "set!"@[0] == 's') by {
            reveal_strlit("set!");
        }
        assert("eval"@.len() == 4 && "eval"@[0] == 'e') by {
            reveal_strlit("eval");
        }
        assert("println!"@.len() == 8) by {
            reveal_strlit("println!");
        }
        assert("define"@.len() == 6 && "define"@[0] == 'd') by {
            reveal_strlit("define");
        }
        assert("lambda"@.len() == 6 && "lambda"@[0] == 'l') by {
            reveal_strlit("lambda");
        }
        assert("print!"@.len() == 6 && "print!"@[0] == 'p') by {
            reveal_strlit("print!");
        }
    }
    match exp {
        Exp::Atom(a) => match a {
            Atom::Symbol(name) => match env.get(name) {
                Some(v) => Ok(v.duplicate()),
                None => Err(Exceptions::ValueError(String::from_str("not a valid symbol"))),
            },
            _ => Ok(exp.duplicate()),
        },
        Exp::Str(_) => Ok(exp.duplicate()),
        Exp::List(l) => {
            proof {
                lemma_list_view(*l);
                broadcast use vstd::std_specs::vec::axiom_vec_index_decreases;

                assert(decreases_to!(*exp => **l));
            }
            let x: &Vec<Exp> = &**l;
            if x.len() == 0 {
                return Err(Exceptions::ValueError(String::from_str("Expected a non empty list")));
            }
            let ghost es = exp@->List_0;
            proof {
                assert(es == views_of_seq(x@));
                assert(forall|j: int| 0 <= j < es.len() ==> es[j] == #[trigger] x@[j]@);
            }
            match &x[0] {
                Exp::Atom(Atom::Symbol(s)) => {
                    if str_eq(s.as_str(), "if") {
                        if_handler(x, env, depth)
                    } else if str_eq(s.as_str(), "define") {
                        define_handler(x, env, depth)
                    } else if str_eq(s.as_str(), "quote") {
                        if x.len() < 2 {
                            Err(
                                Exceptions::ValueError(
                                    String::from_str("Expected something after quote"),
                                ),
                            )
                        } else {
                            Ok(x[1].duplicate())
                        }
                    } else if str_eq(s.as_str(), "set!") {
                        set_handler(x, env, depth)
                    } else if str_eq(s.as_str(), "lambda") {
                        lambda_handler(x)
                    } else if str_eq(s.as_str(), "eval") {
                        // The explicit opt-in for treating a computed value
                        // as code.
                        if x.len() != 2 {
                            Err(Exceptions::ValueError(String::from_str("eval expects one operand")))
                        } else {
                            proof {
                                assert(decreases_to!(*x => x@[1]));
                            }
                            let first = match eval(&x[1], env, depth) {
                                Ok(v) => v,
                                Err(e) => {
                                    return Err(e);
                                },
                            };
                            if depth == 0 {
                                Err(
                                    Exceptions::ValueError(
                                        String::from_str("recursion depth exceeded"),
                                    ),
                                )
                            } else {
                                eval(&first, env, depth - 1)
                            }
                        }
                    } else if str_eq(s.as_str(), "print!") {
                        printer(x, env, depth, false)
                    } else if str_eq(s.as_str(), "println!") {
                        printer(x, env, depth, true)
                    } else {
                        // The head must resolve to a callable.
                        let f = match eval(&x[0], env, depth) {
                            Ok(f) => f,
                            Err(e) => {
                                return Err(e);
                            },
                        };
                        match f {
                            Exp::Func(b) => func_handler(b, x, env, depth),
                            Exp::Procedure(ps, body) => {
                                proof {
                                    assert(views_of_strings(ps@) =~= Seq::new(
                                        ps@.len(),
                                        |i: int| ps@[i]@,
                                    ));
                                }
                                proc_handler(&ps, &body, x, env, depth)
                            },
                            _ => Err(
                                Exceptions::ValueError(
                                    String::from_str("not a defined as a function"),
                                ),
                            ),
                        }
                    }
                },
                Exp::Procedure(ps, body) => {
                    proof {
                        assert(views_of_strings(ps@) =~= Seq::new(ps@.len(), |i: int| ps@[i]@));
                    }
                    proc_handler(ps, body, x, env, depth)
                },
                Exp::Func(b) => func_handler(*b, x, env, depth),
                _ => {
                    // An expression in head position: evaluate it, and when
                    // it turns out callable, run the application afresh.
                    let f = match eval(&x[0], env, depth) {
                        Ok(f) => f,
                        Err(_) => {
                            return Err(
                                Exceptions::ValueError(
                                    String::from_str(
                                        "First thing in an expression should be a keyword or a function",
                                    ),
                                ),
                            );
                        },
                    };
                    let callable = match &f {
                        Exp::Func(_) => true,
                        Exp::Procedure(_, _) => true,
                        _ => false,
                    };
                    if callable {
                        if depth == 0 {
                            return Err(
                                Exceptions::ValueError(
                                    String::from_str("recursion depth exceeded"),
                                ),
                            );
                        }
                        let ghost g = f@;
                        let mut internals: Vec<Exp> = Vec::new();
                        internals.push(f);
                        let mut k: usize = 1;
                        while k < x.len()
                            invariant
                                1 <= k <= x@.len(),
                                internals@.len() == k,
                                internals@[0]@ == g,
                                forall|j: int| 1 <= j < k ==> internals@[j]@ == #[trigger] x@[j]@,
                            decreases x@.len() - k,
                        {
                            internals.push(x[k].duplicate());
                            k = k + 1;
                        }
                        let new_exp = Exp::List(Rc::new(internals));
                        proof {
                            lemma_list_view(new_exp->List_0);
                            assert(views_of_seq(internals@) =~= seq![g] + es.drop_first());
                        }
                        eval(&new_exp, env, depth - 1)
                    } else {
                        Err(
                            Exceptions::ValueError(
                                String::from_str(
                                    "First thing in an expression should be a keyword or a function",
                                ),
                            ),
                        )
                    }
                },
            }
        },
        _ => Err(Exceptions::ValueError(String::from_str("Invalid form"))),
    }
}

/// `(if test conseq alt)`: the test must yield a boolean, and exactly one
/// branch is evaluated.
#[verifier::loop_isolation(false)]
fn if_handler(x: &Vec<Exp>, env: &mut Environment, depth: u64) -> (r: Result<Exp, Exceptions>)
    requires
        old(env)@.len() >= 1,
        x@.len() >= 1,
    ensures
        final(env)@.len() == old(env)@.len(),
        old(env).sink().is_prefix_of(final(env).sink()),
        x@.len() != 4 ==> (r matches Err(Exceptions::ValueError(_)) && *final(env) == *old(env)),
        match spec_if(views_of_seq(x@), old(env)@, depth as nat) {
            Some(out) => res_matches(r, out.result) && final(env)@ == out.env && final(env).sink()
                == old(env).sink(),
            None => true,
        },
    decreases depth, *x, 1int,
{
    proof {
        assert(forall|j: int|
            0 <= j < x@.len() ==> views_of_seq(x@)[j] == #[trigger] x@[j]@);
    }
    if x.len() != 4 {
        return Err(Exceptions::ValueError(String::from_str("Not a valid if expression")));
    }
    proof {
        assert(decreases_to!(*x => x@[1]));
    }
    let test = match eval(&x[1], env, depth) {
        Ok(t) => t,
        Err(e) => {
            return Err(e);
        },
    };
    match test {
        Exp::Atom(Atom::Bool(b)) => {
            if b {
                proof {
                    assert(decreases_to!(*x => x@[2]));
                }
                eval(&x[2], env, depth)
            } else {
                proof {
                    assert(decreases_to!(*x => x@[3]));
                }
                eval(&x[3], env, depth)
            }
        },
        _ => Err(Exceptions::ValueError(String::from_str("doesnt evaluate to a boolean"))),
    }
}

/// `(set! symbol exp)`: evaluate and rebind an already-bound name.
#[verifier::loop_isolation(false)]
fn set_handler(x: &Vec<Exp>, env: &mut Environment, depth: u64) -> (r: Result<Exp, Exceptions>)
    requires
        old(env)@.len() >= 1,
        x@.len() >= 1,
    ensures
        final(env)@.len() == old(env)@.len(),
        old(env).sink().is_prefix_of(final(env).sink()),
        x@.len() != 3 ==> (r matches Err(Exceptions::ValueError(_)) && *final(env) == *old(env)),
        x@.len() == 3 ==> (x@[1]@ matches ExpV::Sym(name) ==> (r matches Ok(e) ==> env_lookup(
            final(env)@, name) == Some(e@))),
        match spec_set(views_of_seq(x@), old(env)@, depth as nat) {
            Some(out) => res_matches(r, out.result) && final(env)@ == out.env && final(env).sink()
                == old(env).sink(),
            None => true,
        },
    decreases depth, *x, 1int,
{
    proof {
        assert(forall|j: int|
            0 <= j < x@.len() ==> views_of_seq(x@)[j] == #[trigger] x@[j]@);
    }
    if x.len() != 3 {
        return Err(
            Exceptions::ValueError(
                String::from_str("Expected 2 things after set!,symbol followed by an expression"),
            ),
        );
    }
    match &x[1] {
        Exp::Atom(Atom::Symbol(name)) => {
            proof {
                assert(decreases_to!(*x => x@[2]));
            }
            let evaluated = match eval(&x[2], env, depth) {
                Ok(v) => v,
                Err(e) => {
                    return Err(e);
                },
            };
            if env.is_defined(name) {
                let out = evaluated.duplicate();
                let ghost mid = env@;
                let _ = env.insert(name.clone(), evaluated);
                proof {
                    crate::types::lemma_env_lookup_insert(env@, name@, out@);
                    assert(env@ =~= bind_innermost(mid, name@, out@));
                }
                Ok(out)
            } else {
                Err(
                    Exceptions::ValueError(
                        String::from_str(
                            "set!: assignment disallowed, cannot set variable before its definition",
                        ),
                    ),
                )
            }
        },
        _ => Err(
            Exceptions::ValueError(String::from_str("Expected a symbol after set!, got something else")),
        ),
    }
}

/// `(define symbol exp)` or `(define (name params...) body)`.
#[verifier::loop_isolation(false)]
fn define_handler(x: &Vec<Exp>, env: &mut Environment, depth: u64) -> (r: Result<
    Exp,
    Exceptions,
>)
    requires
        old(env)@.len() >= 1,
        x@.len() >= 1,
    ensures
        final(env)@.len() == old(env)@.len(),
        old(env).sink().is_prefix_of(final(env).sink()),
        x@.len() != 3 ==> (r matches Err(Exceptions::ValueError(_)) && *final(env) == *old(env)),
        x@.len() == 3 ==> (x@[1]@ matches ExpV::Sym(name) ==> (r matches Ok(e) ==> env_lookup(
            final(env)@, name) == Some(e@))),
        x@.len() == 3 ==> (x@[1]@ matches ExpV::List(hs) ==> (hs.len() >= 1 ==> (hs[0]
            matches ExpV::Sym(name) ==> (r matches Ok(e) ==> env_lookup(final(env)@, name) == Some(
            e@,
        ))))),
        match spec_define(views_of_seq(x@), old(env)@, depth as nat) {
            Some(out) => res_matches(r, out.result) && final(env)@ == out.env && final(env).sink()
                == old(env).sink(),
            None => true,
        },
    decreases depth, *x, 1int,
{
    proof {
        assert(forall|j: int|
            0 <= j < x@.len() ==> views_of_seq(x@)[j] == #[trigger] x@[j]@);
    }
    if x.len() != 3 {
        return Err(Exceptions::ValueError(String::from_str("Not a valid define expression")));
    }
    match &x[1] {
        Exp::Atom(Atom::Symbol(name)) => {
            proof {
                assert(decreases_to!(*x => x@[2]));
            }
            let evaluated = match eval(&x[2], env, depth) {
                Ok(v) => v,
                Err(e) => {
                    return Err(e);
                },
            };
            let out = evaluated.duplicate();
            let ghost mid = env@;
            let _ = env.insert(name.clone(), evaluated);
            proof {
                crate::types::lemma_env_lookup_insert(env@, name@, out@);
                assert(env@ =~= bind_innermost(mid, name@, out@));
            }
            Ok(out)
        },
        Exp::List(lst) => {
            // Sugar: bind the head name to a procedure over the remaining
            // names.
            let items: &Vec<Exp> = &**lst;
            proof {
                lemma_list_view(*lst);
                assert(x@[1]@->List_0 =~= views_of_seq(items@));
                assert(forall|j: int|
                    0 <= j < items@.len() ==> views_of_seq(items@)[j] == #[trigger] items@[j]@);
            }
            let ghost hs = x@[1]@->List_0;
            if items.len() == 0 {
                return Err(Exceptions::ValueError(String::from_str("Invalid define expression")));
            }
            let mut params: Vec<String> = Vec::new();
            let mut k: usize = 1;
            while k < items.len()
                invariant
                    1 <= k <= items@.len(),
                    params@.len() == k - 1,
                    forall|j: int| 1 <= j < k ==> (#[trigger] items@[j]@) matches ExpV::Sym(_),
                    forall|j: int| 1 <= j < k ==> params@[j - 1]@ == items@[j]@->Sym_0,
                decreases items@.len() - k,
            {
                match &items[k] {
                    Exp::Atom(Atom::Symbol(p)) => {
                        params.push(p.clone());
                    },
                    _ => {
                        proof {
                            assert(!(hs[k as int] matches ExpV::Sym(_)));
                        }
                        return Err(
                            Exceptions::SyntaxError(
                                String::from_str("non symbol passed in a define parameters list"),
                            ),
                        );
                    },
                }
                k = k + 1;
            }
            let func_name = match &items[0] {
                Exp::Atom(Atom::Symbol(n)) => n.clone(),
                _ => {
                    proof {
                        assert(!(hs[0] matches ExpV::Sym(_)));
                    }
                    return Err(
                        Exceptions::ValueError(
                            String::from_str("non symbol passed in a lambda parameters list"),
                        ),
                    );
                },
            };
            let ghost fname = (**lst)@[0]@->Sym_0;
            let proc = Exp::Procedure(params, Box::new(x[2].duplicate()));
            let out = proc.duplicate();
            proof {
                assert(out@ == proc@);
                assert(proc@->params =~= Seq::new(
                    (hs.len() - 1) as nat,
                    |j: int| hs[j + 1]->Sym_0,
                ));
            }
            let ghost mid = env@;
            let _ = env.insert(func_name, proc);
            proof {
                crate::types::lemma_env_lookup_insert(env@, fname, out@);
                assert(env@ =~= bind_innermost(mid, fname, out@));
            }
            Ok(out)
        },
        _ => Err(Exceptions::ValueError(String::from_str("Invalid define expression"))),
    }
}

/// `(lambda (params...) body)`: build the procedure; nothing is evaluated.
#[verifier::loop_isolation(false)]
fn lambda_handler(x: &Vec<Exp>) -> (r: Result<Exp, Exceptions>)
    requires
        x@.len() >= 1,
    ensures
        res_matches(r, spec_lambda_res(views_of_seq(x@))),
        x@.len() != 3 ==> r matches Err(Exceptions::SyntaxError(_)),
        x@.len() == 3 ==> match x@[1]@ {
            ExpV::List(ps) => if (forall|j: int|
                0 <= j < ps.len() ==> #[trigger] ps[j] matches ExpV::Sym(_)) {
                r matches Ok(e) && e@ == (ExpV::Proc {
                    params: Seq::new(ps.len(), |j: int| ps[j]->Sym_0),
                    body: Box::new(x@[2]@),
                })
            } else {
                r matches Err(Exceptions::ValueError(_))
            },
            _ => r matches Err(Exceptions::ValueError(_)),
        },
{
    if x.len() != 3 {
        return Err(Exceptions::SyntaxError(String::from_str("lambda expects a params list and body")));
    }
    match &x[1] {
        Exp::List(ps) => {
            proof {
                lemma_list_view(*ps);
            }
            let items: &Vec<Exp> = &**ps;
            proof {
                assert(x@[1]@->List_0 =~= views_of_seq(items@));
            }
            let mut params: Vec<String> = Vec::new();
            let mut k: usize = 0;
            while k < items.len()
                invariant
                    k <= items@.len(),
                    params@.len() == k,
                    forall|j: int| 0 <= j < k ==> #[trigger] items@[j]@ matches ExpV::Sym(_),
                    forall|j: int| 0 <= j < k ==> params@[j]@ == items@[j]@->Sym_0,
                decreases items@.len() - k,
            {
                match &items[k] {
                    Exp::Atom(Atom::Symbol(p)) => {
                        params.push(p.clone());
                    },
                    _ => {
                        proof {
                            assert(!(x@[1]@->List_0[k as int] matches ExpV::Sym(_)));
                        }
                        return Err(
                            Exceptions::ValueError(
                                String::from_str("non symbol passed in a lambda parameters list"),
                            ),
                        );
                    },
                }
                k = k + 1;
            }
            let body = x[2].duplicate();
            let out = Exp::Procedure(params, Box::new(body));
            proof {
                assert(out@->params =~= Seq::new(
                    x@[1]@->List_0.len(),
                    |j: int| x@[1]@->List_0[j]->Sym_0,
                ));
            }
            Ok(out)
        },
        _ => Err(
            Exceptions::ValueError(String::from_str("Expected a params LIST after lambda keyword")),
        ),
    }
}

/// Apply a procedure: exact arity, bind parameters in a fresh frame,
/// evaluate the body, and pop the frame on every exit.
#[verifier::loop_isolation(false)]
pub fn proc_handler(
    params: &Vec<String>,
    body: &Exp,
    x: &Vec<Exp>,
    env: &mut Environment,
    depth: u64,
) -> (r: Result<Exp, Exceptions>)
    requires
        old(env)@.len() >= 1,
        x@.len() >= 1,
    ensures
        final(env)@.len() == old(env)@.len(),
        old(env).sink().is_prefix_of(final(env).sink()),
        x@.len() - 1 != params@.len() ==> (r matches Err(Exceptions::ValueError(m)) && m@
            == "Expected "@ + crate::printer::dec_digits(params@.len() as int)
            + " arguments but got "@ + crate::printer::dec_digits(x@.len() - 1) && *final(env)
            == *old(env)),
        match spec_proc(
            views_of_strings(params@),
            body@,
            views_of_seq(x@),
            old(env)@,
            depth as nat,
        ) {
            Some(out) => res_matches(r, out.result) && final(env)@ == out.env && final(env).sink()
                == old(env).sink(),
            None => true,
        },
    decreases depth, *x, 1int,
{
    proof {
        assert(views_of_strings(params@).len() == params@.len());
        assert(views_of_seq(x@).len() == x@.len());
    }
    if x.len() - 1 != params.len() {
        // The arity fault names the expected and the actual counts.
        return Err(
            Exceptions::ValueError(
                crate::printer::count_message(
                    "Expected ",
                    params.len() as u64,
                    " arguments but got ",
                    (x.len() - 1) as u64,
                ),
            ),
        );
    }
    let evaluated = match eval_args(x, env, depth) {
        Ok(v) => v,
        Err(e) => {
            return Err(e);
        },
    };
    if depth == 0 {
        return Err(Exceptions::ValueError(String::from_str("recursion depth exceeded")));
    }
    let ghost vs0 = views_of_seq(evaluated@);
    let ghost pviews = views_of_strings(params@);
    let ghost aenv = env@;
    let mut frame: Vec<(String, Exp)> = Vec::new();
    let mut i: usize = 0;
    let mut evaluated = evaluated;
    // Bind positionally; the evaluated arguments arrive in order.
    while i < params.len()
        invariant
            i <= params@.len(),
            evaluated@.len() == params@.len() - i,
            vs0.len() == params@.len(),
            views_of_seq(evaluated@) =~= vs0.skip(i as int),
            crate::types::frame_map(frame@) == frame_of(
                pviews.take(i as int),
                vs0.take(i as int),
            ),
        decreases params@.len() - i,
    {
        let ghost fr0 = frame@;
        let ghost ev0 = evaluated@;
        let v = evaluated.remove(0);
        frame.push((params[i].clone(), v));
        proof {
            assert(v@ == views_of_seq(ev0)[0]);
            assert(views_of_seq(ev0)[0] == vs0[i as int]);
            assert(views_of_seq(evaluated@) =~= vs0.skip(i + 1)) by {
                assert(evaluated@ =~= ev0.drop_first());
                assert(forall|j: int|
                    0 <= j < evaluated@.len() ==> views_of_seq(evaluated@)[j] == #[trigger]
                        views_of_seq(ev0)[j + 1]);
                assert(forall|j: int|
                    0 <= j < evaluated@.len() ==> vs0.skip(i as int)[j + 1] == #[trigger] vs0.skip(
                        i + 1,
                    )[j]);
            }
            assert(frame@.drop_last() =~= fr0);
            assert(crate::types::frame_map(frame@) == crate::types::frame_map(fr0).insert(
                params@[i as int]@,
                v@,
            ));
            assert(pviews.take(i + 1).drop_last() =~= pviews.take(i as int));
            assert(vs0.take(i + 1).drop_last() =~= vs0.take(i as int));
            assert(pviews.take(i + 1).last() == pviews[i as int]);
            assert(vs0.take(i + 1).last() == vs0[i as int]);
            assert(pviews[i as int] == params@[i as int]@);
        }
        i = i + 1;
    }
    proof {
        assert(pviews.take(params@.len() as int) =~= pviews);
        assert(vs0.take(params@.len() as int) =~= vs0);
    }
    env.push_stack_frame(frame);
    let ans = eval(body, env, depth - 1);
    env.pop_stack_frame();
    ans
}

/// Evaluate `x[1..]` left to right in the current environment.
#[verifier::loop_isolation(false)]
fn eval_args(x: &Vec<Exp>, env: &mut Environment, depth: u64) -> (r: Result<Vec<Exp>, Exceptions>)
    requires
        old(env)@.len() >= 1,
        x@.len() >= 1,
    ensures
        final(env)@.len() == old(env)@.len(),
        old(env).sink().is_prefix_of(final(env).sink()),
        r matches Ok(v) ==> v@.len() == x@.len() - 1,
        match spec_eval_args(views_of_seq(x@), 1, old(env)@, depth as nat) {
            Some(a) => (match a.result {
                Ok(vs) => r matches Ok(v) && views_of_seq(v@) == vs,
                Err(k) => r is Err && (k matches EvalErr::Value ==> r matches Err(
                    Exceptions::ValueError(_),
                )) && (k matches EvalErr::Syntax ==> r matches Err(Exceptions::SyntaxError(_))),
            }) && final(env)@ == a.env && final(env).sink() == old(env).sink(),
            None => true,
        },
    decreases depth, *x, 0int,
{
    let ghost es = views_of_seq(x@);
    let ghost env0 = old(env)@;
    let mut out: Vec<Exp> = Vec::new();
    let mut k: usize = 1;
    proof {
        assert(forall|j: int| 0 <= j < es.len() ==> es[j] == #[trigger] x@[j]@);
    }
    while k < x.len()
        invariant
            1 <= k <= x@.len(),
            out@.len() == k - 1,
            env@.len() == old(env)@.len(),
            old(env).sink().is_prefix_of(env.sink()),
            match spec_eval_args(es, 1, env0, depth as nat) {
                Some(a) => (match spec_eval_args(es, k as int, env@, depth as nat) {
                    Some(rest) => (match rest.result {
                        Ok(vs) => a.result == Ok::<Seq<ExpV>, EvalErr>(views_of_seq(out@) + vs),
                        Err(k2) => a.result == Err::<Seq<ExpV>, EvalErr>(k2),
                    }) && a.env == rest.env,
                    None => false,
                }) && env.sink() == old(env).sink(),
                None => true,
            },
        decreases x@.len() - k,
    {
        proof {
            assert(decreases_to!(*x => x@[k as int]));
        }
        let ghost env_pre = env@;
        let ghost out_pre = out@;
        let v = match eval(&x[k], env, depth) {
            Ok(v) => v,
            Err(e) => {
                proof {
                    match spec_eval_args(es, 1, env0, depth as nat) {
                        Some(a) => {
                            match spec_eval(es[k as int], env_pre, depth as nat) {
                                Some(o) => {
                                    assert(o.result is Err);
                                },
                                None => {
                                    assert(false);
                                },
                            }
                        },
                        None => {},
                    }
                }
                return Err(e);
            },
        };
        out.push(v);
        proof {
            crate::types::lemma_views_of_seq_push(out_pre, out@.last());
            assert(out@ == out_pre.push(out@.last()));
            match spec_eval_args(es, 1, env0, depth as nat) {
                Some(a) => {
                    match spec_eval(es[k as int], env_pre, depth as nat) {
                        Some(o) => {
                            assert(o.result == Ok::<ExpV, EvalErr>(v@));
                            match spec_eval_args(es, k + 1, env@, depth as nat) {
                                Some(rest2) => {
                                    match rest2.result {
                                        Ok(vs2) => {
                                            assert(views_of_seq(out_pre) + (seq![v@] + vs2)
                                                =~= views_of_seq(out@) + vs2);
                                        },
                                        Err(_) => {},
                                    }
                                },
                                None => {},
                            }
                        },
                        None => {
                            assert(false);
                        },
                    }
                },
                None => {},
            }
        }
        k = k + 1;
    }
    proof {
        match spec_eval_args(es, 1, env0, depth as nat) {
            Some(a) => {
                assert(spec_eval_args(es, k as int, env@, depth as nat) == Some(
                    ArgsOut { result: Ok(Seq::<ExpV>::empty()), env: env@ },
                ));
                assert(views_of_seq(out@) + Seq::<ExpV>::empty() =~= views_of_seq(out@));
            },
            None => {},
        }
    }
    Ok(out)
}

/// Apply a native callable: evaluate the arguments, call it, and
/// propagate its result as-is.  Only `map` is applied through the
/// evaluator: the per-element applications it builds are run, and their
/// faults propagate.
#[verifier::loop_isolation(false)]
fn func_handler(function: crate::types::Builtin, x: &Vec<Exp>, env: &mut Environment, depth: u64) -> (r:
    Result<Exp, Exceptions>)
    requires
        old(env)@.len() >= 1,
        x@.len() >= 1,
    ensures
        final(env)@.len() == old(env)@.len(),
        old(env).sink().is_prefix_of(final(env).sink()),
        match spec_func(function, views_of_seq(x@), old(env)@, depth as nat) {
            Some(out) => res_matches(r, out.result) && final(env)@ == out.env && final(env).sink()
                == old(env).sink(),
            None => true,
        },
    decreases depth, *x, 1int,
{
    let evaluated = match eval_args(x, env, depth) {
        Ok(v) => v,
        Err(e) => {
            return Err(e);
        },
    };
    let func_result = match call_builtin(function, evaluated.as_slice(), MAX_APPLY_DEPTH) {
        Ok(v) => v,
        Err(e) => {
            return Err(e);
        },
    };
    match function {
        crate::types::Builtin::MapFn => {
            if depth == 0 {
                return Err(Exceptions::ValueError(String::from_str("recursion depth exceeded")));
            }
            eval(&func_result, env, depth - 1)
        },
        _ => Ok(func_result),
    }
}

/// The print forms: evaluate every operand, join the printed forms with
/// single spaces, write the line (with a trailing newline for the
/// newline-printing form) to the output sink, and return the joined text.
#[verifier::loop_isolation(false)]
fn printer(x: &Vec<Exp>, env: &mut Environment, depth: u64, new_line: bool) -> (r: Result<
    Exp,
    Exceptions,
>)
    requires
        old(env)@.len() >= 1,
        x@.len() >= 1,
    ensures
        final(env)@.len() == old(env)@.len(),
        old(env).sink().is_prefix_of(final(env).sink()),
        match spec_eval_args(views_of_seq(x@), 1, old(env)@, depth as nat) {
            Some(a) => match a.result {
                Ok(vs) => (r matches Ok(e) && e@ == ExpV::Str(crate::printer::printed_items(vs)))
                    && final(env)@ == a.env && final(env).sink() == old(env).sink()
                    + crate::printer::printed_items(vs) + (if new_line {
                    seq!['\n']
                } else {
                    Seq::<char>::empty()
                }),
                Err(k) => r is Err && (k matches EvalErr::Value ==> r matches Err(
                    Exceptions::ValueError(_),
                )) && (k matches EvalErr::Syntax ==> r matches Err(Exceptions::SyntaxError(_)))
                    && final(env)@ == a.env && final(env).sink() == old(env).sink(),
            },
            None => true,
        },
    decreases depth, *x, 1int,
{
    let evaluated = match eval_args(x, env, depth) {
        Ok(v) => v,
        Err(e) => {
            return Err(e);
        },
    };
    let ghost vs = views_of_seq(evaluated@);
    let mut text: Vec<char> = Vec::new();
    let mut k: usize = 0;
    proof {
        assert(forall|j: int|
            0 <= j < vs.len() ==> vs[j] == #[trigger] evaluated@[j]@);
    }
    while k < evaluated.len()
        invariant
            k <= evaluated@.len(),
            k == 0 ==> text@ == Seq::<char>::empty(),
            k > 0 ==> text@ == crate::printer::printed_items(vs.take(k as int)),
        decreases evaluated@.len() - k,
    {
        if k > 0 {
            text.push(' ');
        }
        let piece = evaluated[k].to_display_string();
        push_str_chars(piece.as_str(), &mut text);
        proof {
            crate::printer::lemma_printed_items_snoc(vs, k as int);
            if k == 0 {
                assert(text@ =~= crate::printer::printed(vs[0]));
                assert(vs.take(1)[0] == vs[0]);
            }
        }
        k = k + 1;
    }
    proof {
        if evaluated@.len() == 0 {
            assert(crate::printer::printed_items(vs) =~= Seq::<char>::empty());
        } else {
            assert(vs.take(vs.len() as int) =~= vs);
        }
    }
    let printable = crate::printer::chars_to_string(&text);
    env.emit(printable.as_str());
    if new_line {
        env.emit("\n");
        proof {
            assert(("\n"@) =~= seq!['\n']) by {
                reveal_strlit("\n");
            }
        }
    }
    proof {
        match spec_eval_args(views_of_seq(x@), 1, old(env)@, depth as nat) {
            Some(a) => {
                match a.result {
                    Ok(vs2) => {
                        assert(vs2 == vs);
                        if new_line {
                            assert(env.sink() =~= old(env).sink()
                                + crate::printer::printed_items(vs) + seq!['\n']);
                        } else {
                            assert(env.sink() =~= old(env).sink()
                                + crate::printer::printed_items(vs));
                        }
                    },
                    Err(_) => {},
                }
            },
            None => {},
        }
    }
    Ok(Exp::Str(printable))
}


} // verus!
