//! The default environment: one global frame, pre-populated with the
//! built-in callables and the numeric constants.

use vstd::prelude::*;
use crate::types::{Atom, Builtin, Environment, Exp, ExpV, Number};

verus! {

/// The bindings the global frame starts with: `pi` and `exp` as the usual
/// 16-digit decimal approximations, and every built-in under its name.
pub open spec fn default_global() -> Map<Seq<char>, ExpV> {
    Map::empty().insert("pi"@, ExpV::Num(Number::Dec { m: 3141592653589793, s: 15 })).insert(
        "exp"@,
        ExpV::Num(Number::Dec { m: 2718281828459045, s: 15 }),
    ).insert("+"@, ExpV::Func(Builtin::Add)).insert("*"@, ExpV::Func(Builtin::Mul)).insert(
        "-"@,
        ExpV::Func(Builtin::Minus),
    ).insert("/"@, ExpV::Func(Builtin::Divide)).insert("fmod"@, ExpV::Func(Builtin::Fmod)).insert(
        "mod"@,
        ExpV::Func(Builtin::ModInt),
    ).insert("abs"@, ExpV::Func(Builtin::Abs)).insert("expt"@, ExpV::Func(Builtin::Expt)).insert(
        ">"@,
        ExpV::Func(Builtin::Gt),
    ).insert("<"@, ExpV::Func(Builtin::Lt)).insert("="@, ExpV::Func(Builtin::NumEq)).insert(
        ">="@,
        ExpV::Func(Builtin::Ge),
    ).insert("<="@, ExpV::Func(Builtin::Le)).insert("and"@, ExpV::Func(Builtin::And)).insert(
        "or"@,
        ExpV::Func(Builtin::Or),
    ).insert("not"@, ExpV::Func(Builtin::Not)).insert("begin"@, ExpV::Func(Builtin::Begin)).insert(
        "append"@,
        ExpV::Func(Builtin::Append),
    ).insert("car"@, ExpV::Func(Builtin::Car)).insert("cdr"@, ExpV::Func(Builtin::Cdr)).insert(
        "apply"@,
        ExpV::Func(Builtin::Apply),
    ).insert("cons"@, ExpV::Func(Builtin::Cons)).insert(
        "same_obj?"@,
        ExpV::Func(Builtin::SameObj),
    ).insert("equal?"@, ExpV::Func(Builtin::Equal)).insert(
        "length"@,
        ExpV::Func(Builtin::Length),
    ).insert("list?"@, ExpV::Func(Builtin::IsList)).insert("max"@, ExpV::Func(Builtin::Max)).insert(
        "min"@,
        ExpV::Func(Builtin::Min),
    ).insert("null?"@, ExpV::Func(Builtin::IsNull)).insert(
        "number?"@,
        ExpV::Func(Builtin::IsNumber),
    ).insert("procedure?"@, ExpV::Func(Builtin::IsProc)).insert(
        "bool?"@,
        ExpV::Func(Builtin::IsBool),
    ).insert("map"@, ExpV::Func(Builtin::MapFn)).insert("list"@, ExpV::Func(Builtin::ListFn))
}

/// Build the default environment: exactly one frame holding
/// `default_global()`, with an empty output sink.
pub fn default_env() -> (r: Environment)
    ensures
        r@ =~= seq![default_global()],
        r.sink() == Seq::<char>::empty(),
{
    let mut env = Environment::new();
    let _ = env.insert(
        String::from_str("pi"),
        Exp::Atom(Atom::Number(Number::Dec { m: 3141592653589793, s: 15 })),
    );
    let _ = env.insert(
        String::from_str("exp"),
        Exp::Atom(Atom::Number(Number::Dec { m: 2718281828459045, s: 15 })),
    );
    let _ = env.insert(String::from_str("+"), Exp::Func(Builtin::Add));
    let _ = env.insert(String::from_str("*"), Exp::Func(Builtin::Mul));
    let _ = env.insert(String::from_str("-"), Exp::Func(Builtin::Minus));
    let _ = env.insert(String::from_str("/"), Exp::Func(Builtin::Divide));
    let _ = env.insert(String::from_str("fmod"), Exp::Func(Builtin::Fmod));
    let _ = env.insert(String::from_str("mod"), Exp::Func(Builtin::ModInt));
    let _ = env.insert(String::from_str("abs"), Exp::Func(Builtin::Abs));
    let _ = env.insert(String::from_str("expt"), Exp::Func(Builtin::Expt));
    let _ = env.insert(String::from_str(">"), Exp::Func(Builtin::Gt));
    let _ = env.insert(String::from_str("<"), Exp::Func(Builtin::Lt));
    let _ = env.insert(String::from_str("="), Exp::Func(Builtin::NumEq));
    let _ = env.insert(String::from_str(">="), Exp::Func(Builtin::Ge));
    let _ = env.insert(String::from_str("<="), Exp::Func(Builtin::Le));
    let _ = env.insert(String::from_str("and"), Exp::Func(Builtin::And));
    let _ = env.insert(String::from_str("or"), Exp::Func(Builtin::Or));
    let _ = env.insert(String::from_str("not"), Exp::Func(Builtin::Not));
    let _ = env.insert(String::from_str("begin"), Exp::Func(Builtin::Begin));
    let _ = env.insert(String::from_str("append"), Exp::Func(Builtin::Append));
    let _ = env.insert(String::from_str("car"), Exp::Func(Builtin::Car));
    let _ = env.insert(String::from_str("cdr"), Exp::Func(Builtin::Cdr));
    let _ = env.insert(String::from_str("apply"), Exp::Func(Builtin::Apply));
    let _ = env.insert(String::from_str("cons"), Exp::Func(Builtin::Cons));
    let _ = env.insert(String::from_str("same_obj?"), Exp::Func(Builtin::SameObj));
    let _ = env.insert(String::from_str("equal?"), Exp::Func(Builtin::Equal));
    let _ = env.insert(String::from_str("length"), Exp::Func(Builtin::Length));
    let _ = env.insert(String::from_str("list?"), Exp::Func(Builtin::IsList));
    let _ = env.insert(String::from_str("max"), Exp::Func(Builtin::Max));
    let _ = env.insert(String::from_str("min"), Exp::Func(Builtin::Min));
    let _ = env.insert(String::from_str("null?"), Exp::Func(Builtin::IsNull));
    let _ = env.insert(String::from_str("number?"), Exp::Func(Builtin::IsNumber));
    let _ = env.insert(String::from_str("procedure?"), Exp::Func(Builtin::IsProc));
    let _ = env.insert(String::from_str("bool?"), Exp::Func(Builtin::IsBool));
    let _ = env.insert(String::from_str("map"), Exp::Func(Builtin::MapFn));
    let _ = env.insert(String::from_str("list"), Exp::Func(Builtin::ListFn));
    proof {
        assert(env@ =~= seq![default_global()]);
    }
    env
}

} // verus!
