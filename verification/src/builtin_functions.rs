//! The built-in callables: variadic exact arithmetic, comparisons, boolean
//! logic, list primitives, predicates and equality.  Each states precisely
//! which value it returns and on which inputs it faults.

use vstd::prelude::*;
use std::rc::Rc;
use crate::types::{
    exp_equal, get_bool, lemma_list_view, lemma_views_of_seq_push, views_of_seq, Atom,
    Builtin, EvalErr, Exceptions, Exp, ExpV, Number, ToInt, _is_same_object,
};
use crate::numbers::{
    abs_num, add_canon, add_sub_num, canon, check_wf, div_num, eq_num, le_num, lift2, lt_num,
    mul_canon, mul_num, num_is_frac, num_trunc, num_wf, p10, pow_canon, pow_int, pow_num,
    quot_canon, rem_canon, rem_num, scale, mant, sub_canon, trunc_rem,
};

verus! {

broadcast use vstd::std_specs::vec::axiom_vec_index_decreases;

/// The two variadic arithmetic folds.
#[derive(Debug, Clone, Copy, PartialEq, Eq, Structural)]
pub enum ArithOp {
    Add,
    Mul,
}

/// The two-operand comparisons.
#[derive(Debug, Clone, Copy, PartialEq, Eq, Structural)]
pub enum CmpOp {
    Gt,
    Lt,
    Eq,
    Ge,
    Le,
}

/// The variadic boolean folds.
#[derive(Debug, Clone, Copy, PartialEq, Eq, Structural)]
pub enum BoolOp {
    And,
    Or,
}

/// Which extremum `min_max` keeps.
#[derive(Debug, Clone, Copy, PartialEq, Eq, Structural)]
pub enum MinMax {
    Min,
    Max,
}

/// One fold step: both operands must be canonical numbers, and the
/// canonical result must be representable.
pub open spec fn arith_step(op: ArithOp, acc: Number, x: Number) -> Option<Number> {
    if !num_wf(acc) || !num_wf(x) {
        None
    } else {
        match op {
            ArithOp::Add => add_canon(acc, x),
            ArithOp::Mul => mul_canon(acc, x),
        }
    }
}

/// Fold an arithmetic operation over values, left to right.
pub open spec fn fold_arith(op: ArithOp, acc: Number, vs: Seq<ExpV>) -> Option<Number>
    decreases vs.len(),
{
    if vs.len() == 0 {
        Some(acc)
    } else {
        match vs[0] {
            ExpV::Num(x) => match arith_step(op, acc, x) {
                Some(a2) => fold_arith(op, a2, vs.drop_first()),
                None => None,
            },
            _ => None,
        }
    }
}

/// Report a wrong argument count.
pub fn expect_x_args(x: usize, func_name: &str, args: &[Exp]) -> (r: Result<
    usize,
    Exceptions,
>)
    ensures
        match r {
            Ok(v) => v == x && args@.len() == x,
            Err(e) => args@.len() != x && e matches Exceptions::ValueError(_),
        },
{
    if args.len() != x {
        let mut msg = crate::printer::count_message(
            "expected ",
            x as u64,
            " arguments, got ",
            args.len() as u64,
        );
        msg.append(" for ");
        msg.append(func_name);
        Err(Exceptions::ValueError(msg))
    } else {
        Ok(x)
    }
}

/// Report too few arguments.
pub fn expect_atleast_x_args(x: usize, func_name: &str, args: &[Exp]) -> (r: Result<
    usize,
    Exceptions,
>)
    ensures
        match r {
            Ok(v) => v == x && args@.len() >= x,
            Err(e) => args@.len() < x && e matches Exceptions::ValueError(_),
        },
{
    if args.len() < x {
        let mut msg = crate::printer::count_message(
            "expected at least ",
            x as u64,
            " arguments, got ",
            args.len() as u64,
        );
        msg.append(" for ");
        msg.append(func_name);
        Err(Exceptions::ValueError(msg))
    } else {
        Ok(x)
    }
}

/// The number an argument holds, if any.
fn get_num(e: &Exp) -> (r: Option<Number>)
    ensures
        match e@ {
            ExpV::Num(n) => r == Some(n),
            _ => r is None,
        },
{
    match e {
        Exp::Atom(Atom::Number(n)) => Some(*n),
        _ => None,
    }
}

/// Fold `+` or `*` over the arguments.  Returns exactly the canonical fold
/// of `fold_arith`, and a value fault exactly when an argument is not a
/// canonical number or a step leaves the representable range.
#[verifier::loop_isolation(false)]
pub fn binary_op_arith(args: &[Exp], init: Number, op: ArithOp) -> (r: Result<Exp, Exceptions>)
    requires
        num_wf(init),
    ensures
        match fold_arith(op, init, views_of_seq(args@)) {
            Some(n) => r matches Ok(e) && e@ == ExpV::Num(n) && num_wf(n),
            None => r matches Err(Exceptions::ValueError(_)),
        },
{
    let ghost vs = views_of_seq(args@);
    proof {
        assert(vs.skip(0) =~= vs);
    }
    let mut acc = init;
    let mut i: usize = 0;
    while i < args.len()
        invariant
            i <= args@.len(),
            num_wf(acc),
            fold_arith(op, init, vs) == fold_arith(op, acc, vs.skip(i as int)),
        decreases args@.len() - i,
    {
        proof {
            assert(vs.skip(i as int)[0] == args@[i as int]@);
            assert(vs.skip(i as int).drop_first() =~= vs.skip(i + 1));
        }
        let x = match get_num(&args[i]) {
            Some(x) => x,
            None => {
                return Err(Exceptions::ValueError(String::from_str("expected a number")));
            },
        };
        if !check_wf(&x) {
            return Err(Exceptions::ValueError(String::from_str("malformed number")));
        }
        let step = match op {
            ArithOp::Add => add_sub_num(&acc, &x, false),
            ArithOp::Mul => mul_num(&acc, &x),
        };
        acc = match step {
            Ok(a2) => a2,
            Err(e) => {
                return Err(e);
            },
        };
        i = i + 1;
    }
    proof {
        assert(vs.skip(args@.len() as int) =~= Seq::<ExpV>::empty());
    }
    Ok(Exp::Atom(Atom::Number(acc)))
}

/// Two-operand comparison on the denoted values, exact.
pub fn binary_cmp(args: &[Exp], op: CmpOp) -> (r: Result<Exp, Exceptions>)
    ensures
        args@.len() != 2 ==> r matches Err(Exceptions::ValueError(_)),
        args@.len() == 2 ==> match (args@[0]@, args@[1]@) {
            (ExpV::Num(a), ExpV::Num(b)) => if num_wf(a) && num_wf(b) {
                r matches Ok(e) && e@ == ExpV::Bool(
                    match op {
                        CmpOp::Gt => lift2(a, b).0 > lift2(a, b).1,
                        CmpOp::Lt => lift2(a, b).0 < lift2(a, b).1,
                        CmpOp::Eq => lift2(a, b).0 == lift2(a, b).1,
                        CmpOp::Ge => lift2(a, b).0 >= lift2(a, b).1,
                        CmpOp::Le => lift2(a, b).0 <= lift2(a, b).1,
                    },
                )
            } else {
                r matches Err(Exceptions::ValueError(_))
            },
            _ => r matches Err(Exceptions::ValueError(_)),
        },
{
    if args.len() != 2 {
        return Err(Exceptions::ValueError(String::from_str("expected two arguments")));
    }
    let a = match get_num(&args[0]) {
        Some(a) => a,
        None => {
            return Err(Exceptions::ValueError(String::from_str("Not a number")));
        },
    };
    let b = match get_num(&args[1]) {
        Some(b) => b,
        None => {
            return Err(Exceptions::ValueError(String::from_str("Not a number")));
        },
    };
    if !check_wf(&a) || !check_wf(&b) {
        return Err(Exceptions::ValueError(String::from_str("malformed number")));
    }
    let v = match op {
        CmpOp::Gt => lt_num(&b, &a),
        CmpOp::Lt => lt_num(&a, &b),
        CmpOp::Eq => eq_num(&a, &b),
        CmpOp::Ge => le_num(&b, &a),
        CmpOp::Le => le_num(&a, &b),
    };
    proof {
        crate::numbers::lemma_lift2_swap(a, b);
    }
    Ok(Exp::Atom(Atom::Bool(v)))
}

/// Subtraction: negates a lone operand, else subtracts the sum of the rest
/// from the first operand; exact.
pub fn minus(args: &[Exp]) -> (r: Result<Exp, Exceptions>)
    ensures
        args@.len() == 0 ==> r matches Err(Exceptions::ValueError(_)),
        args@.len() >= 1 ==> match args@[0]@ {
            ExpV::Num(a) => if num_wf(a) {
                match fold_arith(ArithOp::Add, Number::Int(0), views_of_seq(args@).drop_first()) {
                    Some(s) => {
                        let d = if args@.len() == 1 {
                            sub_canon(Number::Int(0), a)
                        } else {
                            sub_canon(a, s)
                        };
                        match d {
                            Some(n) => r matches Ok(e) && e@ == ExpV::Num(n) && num_wf(n),
                            None => r matches Err(Exceptions::ValueError(_)),
                        }
                    },
                    None => r matches Err(Exceptions::ValueError(_)),
                }
            } else {
                r matches Err(Exceptions::ValueError(_))
            },
            _ => r matches Err(Exceptions::ValueError(_)),
        },
{
    if args.len() == 0 {
        return Err(Exceptions::ValueError(String::from_str("- must have one argument at least")));
    }
    let a = match get_num(&args[0]) {
        Some(a) => a,
        None => {
            return Err(Exceptions::ValueError(String::from_str("Not a number")));
        },
    };
    if !check_wf(&a) {
        return Err(Exceptions::ValueError(String::from_str("malformed number")));
    }
    let rest = &args[1..args.len()];
    proof {
        assert(views_of_seq(rest@) =~= views_of_seq(args@).drop_first());
    }
    let sum_exp = match binary_op_arith(rest, Number::Int(0), ArithOp::Add) {
        Ok(e) => e,
        Err(e) => {
            return Err(e);
        },
    };
    let s = match get_num(&sum_exp) {
        Some(s) => s,
        None => {
            return Err(Exceptions::ValueError(String::from_str("Not a number")));
        },
    };
    let out = if args.len() == 1 {
        add_sub_num(&Number::Int(0), &a, true)
    } else {
        add_sub_num(&a, &s, true)
    };
    match out {
        Ok(n) => Ok(Exp::Atom(Atom::Number(n))),
        Err(e) => Err(e),
    }
}

/// Division: inverts a lone operand, else divides the first operand by the
/// product of the rest.  When the quotient has a canonical representation
/// the result is exactly that number.
pub fn divide(args: &[Exp]) -> (r: Result<Exp, Exceptions>)
    ensures
        args@.len() == 0 ==> r matches Err(Exceptions::ValueError(_)),
        args@.len() >= 1 ==> match args@[0]@ {
            ExpV::Num(a) => if num_wf(a) {
                match fold_arith(ArithOp::Mul, Number::Int(1), views_of_seq(args@).drop_first()) {
                    Some(p) => {
                        let hi = if args@.len() == 1 {
                            Number::Int(1)
                        } else {
                            a
                        };
                        let lo = if args@.len() == 1 {
                            a
                        } else {
                            p
                        };
                        &&& (lift2(hi, lo).1 == 0 ==> r matches Err(Exceptions::ValueError(_)))
                        &&& (lift2(hi, lo).1 != 0 ==> (r matches Ok(e) ==> exists|n: Number|
                            e@ == ExpV::Num(n) && num_wf(n) && num_is_frac(
                                n,
                                lift2(hi, lo).0,
                                lift2(hi, lo).1,
                            )))
                        &&& (lift2(hi, lo).1 != 0 ==> (forall|n: Number|
                            num_wf(n) && num_is_frac(n, lift2(hi, lo).0, lift2(hi, lo).1)
                                ==> (r matches Ok(e) && e@ == ExpV::Num(n))))
                        &&& (r matches Err(v) ==> v matches Exceptions::ValueError(_))
                    },
                    None => r matches Err(Exceptions::ValueError(_)),
                }
            } else {
                r matches Err(Exceptions::ValueError(_))
            },
            _ => r matches Err(Exceptions::ValueError(_)),
        },
{
    if args.len() == 0 {
        return Err(Exceptions::ValueError(String::from_str("/ must have one argument at least")));
    }
    let a = match get_num(&args[0]) {
        Some(a) => a,
        None => {
            return Err(Exceptions::ValueError(String::from_str("Not a number")));
        },
    };
    if !check_wf(&a) {
        return Err(Exceptions::ValueError(String::from_str("malformed number")));
    }
    let rest = &args[1..args.len()];
    proof {
        assert(views_of_seq(rest@) =~= views_of_seq(args@).drop_first());
    }
    let prod_exp = match binary_op_arith(rest, Number::Int(1), ArithOp::Mul) {
        Ok(e) => e,
        Err(e) => {
            return Err(e);
        },
    };
    let p = match get_num(&prod_exp) {
        Some(p) => p,
        None => {
            return Err(Exceptions::ValueError(String::from_str("Not a number")));
        },
    };
    let one = Number::Int(1);
    let out = if args.len() == 1 {
        div_num(&one, &a)
    } else {
        div_num(&a, &p)
    };
    match out {
        Ok(n) => Ok(Exp::Atom(Atom::Number(n))),
        Err(e) => Err(e),
    }
}

/// `fmod`: the exact remainder of truncated division.
pub fn fmod(args: &[Exp]) -> (r: Result<Exp, Exceptions>)
    ensures
        args@.len() != 2 ==> r matches Err(Exceptions::ValueError(_)),
        args@.len() == 2 ==> match (args@[0]@, args@[1]@) {
            (ExpV::Num(a), ExpV::Num(b)) => if num_wf(a) && num_wf(b) && mant(b) != 0 {
                match rem_canon(a, b) {
                    Some(n) => r matches Ok(e) && e@ == ExpV::Num(n) && num_wf(n),
                    None => r matches Err(Exceptions::ValueError(_)),
                }
            } else {
                r matches Err(Exceptions::ValueError(_))
            },
            _ => r matches Err(Exceptions::ValueError(_)),
        },
{
    let _ = match expect_x_args(2, "fmod", args) {
        Ok(v) => v,
        Err(e) => {
            return Err(e);
        },
    };
    let a = match get_num(&args[0]) {
        Some(a) => a,
        None => {
            return Err(Exceptions::ValueError(String::from_str("Not a number")));
        },
    };
    let b = match get_num(&args[1]) {
        Some(b) => b,
        None => {
            return Err(Exceptions::ValueError(String::from_str("Not a number")));
        },
    };
    match rem_num(&a, &b) {
        Ok(n) => Ok(Exp::Atom(Atom::Number(n))),
        Err(e) => Err(e),
    }
}

/// `mod` on truncated integers.
pub fn mod_int(args: &[Exp]) -> (r: Result<Exp, Exceptions>)
    ensures
        args@.len() != 2 ==> r matches Err(Exceptions::ValueError(_)),
        args@.len() == 2 ==> match (args@[0]@, args@[1]@) {
            (ExpV::Num(a), ExpV::Num(b)) => if num_wf(a) && num_wf(b) && num_trunc(b) != 0 && !(
            num_trunc(a) == i64::MIN && num_trunc(b) == -1) {
                r matches Ok(e) && e@ == ExpV::Num(
                    Number::Int((trunc_rem(num_trunc(a), num_trunc(b))) as i64),
                )
            } else {
                r matches Err(Exceptions::ValueError(_))
            },
            _ => r matches Err(Exceptions::ValueError(_)),
        },
{
    let _ = match expect_x_args(2, "mod", args) {
        Ok(v) => v,
        Err(e) => {
            return Err(e);
        },
    };
    let a = match crate::types::get_int(&args[0]) {
        Ok(a) => a,
        Err(e) => {
            return Err(e);
        },
    };
    let b = match crate::types::get_int(&args[1]) {
        Ok(b) => b,
        Err(e) => {
            return Err(e);
        },
    };
    if b == 0 || (a == i64::MIN && b == -1) {
        return Err(Exceptions::ValueError(String::from_str("division by zero")));
    }
    Ok(Exp::Atom(Atom::Number(Number::Int(a % b))))
}

/// `not` on a single boolean.
pub fn logical_not(args: &[Exp]) -> (r: Result<Exp, Exceptions>)
    ensures
        args@.len() != 1 ==> r matches Err(Exceptions::ValueError(_)),
        args@.len() == 1 ==> match args@[0]@ {
            ExpV::Bool(b) => r matches Ok(e) && e@ == ExpV::Bool(!b),
            _ => r matches Err(Exceptions::ValueError(_)),
        },
{
    let _ = match expect_x_args(1, "not", args) {
        Ok(v) => v,
        Err(e) => {
            return Err(e);
        },
    };
    let operand = match get_bool(&args[0]) {
        Ok(b) => b,
        Err(e) => {
            return Err(e);
        },
    };
    Ok(Exp::Atom(Atom::Bool(!operand)))
}

/// Whether every argument is the boolean `true` / any argument is.
pub open spec fn all_true(vs: Seq<ExpV>) -> bool {
    forall|j: int| 0 <= j < vs.len() ==> #[trigger] vs[j] == ExpV::Bool(true)
}

pub open spec fn any_true(vs: Seq<ExpV>) -> bool {
    exists|j: int| 0 <= j < vs.len() && #[trigger] vs[j] == ExpV::Bool(true)
}

pub open spec fn all_bools(vs: Seq<ExpV>) -> bool {
    forall|j: int| 0 <= j < vs.len() ==> #[trigger] vs[j] matches ExpV::Bool(_)
}

/// `and` / `or` over booleans: the conjunction or disjunction of all
/// arguments; a value fault when one is not a boolean.
pub fn logical_bin_ops(args: &[Exp], op: BoolOp) -> (r: Result<Exp, Exceptions>)
    ensures
        !all_bools(views_of_seq(args@)) ==> r matches Err(Exceptions::ValueError(_)),
        all_bools(views_of_seq(args@)) ==> (r matches Ok(e) && e@ == ExpV::Bool(
            match op {
                BoolOp::And => all_true(views_of_seq(args@)),
                BoolOp::Or => any_true(views_of_seq(args@)),
            },
        )),
{
    let ghost vs = views_of_seq(args@);
    let mut i: usize = 0;
    let mut acc: bool = match op {
        BoolOp::And => true,
        BoolOp::Or => false,
    };
    while i < args.len()
        invariant
            i <= args@.len(),
            vs == views_of_seq(args@),
            forall|j: int| 0 <= j < i ==> #[trigger] vs[j] matches ExpV::Bool(_),
            op == BoolOp::And ==> acc == (forall|j: int|
                0 <= j < i ==> #[trigger] vs[j] == ExpV::Bool(true)),
            op == BoolOp::Or ==> acc == (exists|j: int|
                0 <= j < i && #[trigger] vs[j] == ExpV::Bool(true)),
        decreases args@.len() - i,
    {
        let b = match get_bool(&args[i]) {
            Ok(b) => b,
            Err(e) => {
                proof {
                    assert(vs[i as int] == args@[i as int]@);
                    assert(!(vs[i as int] matches ExpV::Bool(_)));
                }
                return Err(e);
            },
        };
        acc = match op {
            BoolOp::And => acc && b,
            BoolOp::Or => acc || b,
        };
        i = i + 1;
    }
    Ok(Exp::Atom(Atom::Bool(acc)))
}

/// `abs`: the canonical absolute value.
pub fn absolute_val(args: &[Exp]) -> (r: Result<Exp, Exceptions>)
    ensures
        args@.len() != 1 ==> r matches Err(Exceptions::ValueError(_)),
        args@.len() == 1 ==> match args@[0]@ {
            ExpV::Num(n) => if num_wf(n) {
                match canon(vstd::math::abs(mant(n)) as int, scale(n)) {
                    Some(v) => r matches Ok(e) && e@ == ExpV::Num(v),
                    None => r matches Err(Exceptions::ValueError(_)),
                }
            } else {
                r matches Err(Exceptions::ValueError(_))
            },
            _ => r matches Err(Exceptions::ValueError(_)),
        },
{
    let _ = match expect_x_args(1, "abs", args) {
        Ok(v) => v,
        Err(e) => {
            return Err(e);
        },
    };
    let n = match get_num(&args[0]) {
        Some(n) => n,
        None => {
            return Err(Exceptions::ValueError(String::from_str("Number not provided to abs")));
        },
    };
    match abs_num(&n) {
        Ok(v) => Ok(Exp::Atom(Atom::Number(v))),
        Err(e) => Err(e),
    }
}

/// `expt`: exact exponentiation with an integral exponent.  For `k >= 0`
/// the canonical iterated product `pow_canon` is owed whenever it is
/// representable; for `k < 0`, its canonical reciprocal.
pub fn power(args: &[Exp]) -> (r: Result<Exp, Exceptions>)
    ensures
        args@.len() != 2 ==> r matches Err(Exceptions::ValueError(_)),
        args@.len() == 2 ==> match (args@[0]@, args@[1]@) {
            (ExpV::Num(a), ExpV::Num(e2)) => if num_wf(a) && num_wf(e2) {
                &&& (scale(e2) != 0 ==> r matches Err(Exceptions::ValueError(_)))
                &&& ((scale(e2) == 0 && mant(e2) >= 0) ==> match pow_canon(a, mant(e2) as nat) {
                    Some(n) => r matches Ok(e) && e@ == ExpV::Num(n) && num_wf(n),
                    None => r matches Err(Exceptions::ValueError(_)),
                })
                &&& ((scale(e2) == 0 && mant(e2) < 0 && mant(a) == 0) ==> r matches Err(
                    Exceptions::ValueError(_),
                ))
                &&& ((scale(e2) == 0 && mant(e2) < 0 && mant(a) != 0) ==> match pow_canon(
                    a,
                    (-mant(e2)) as nat,
                ) {
                    Some(p) => {
                        &&& (forall|n: Number|
                            num_wf(n) && num_is_frac(n, p10(scale(p)), mant(p)) ==> (r matches Ok(
                                e,
                            ) && e@ == ExpV::Num(n)))
                        &&& (r matches Ok(e) ==> exists|n: Number|
                            e@ == ExpV::Num(n) && num_wf(n) && num_is_frac(
                                n,
                                p10(scale(p)),
                                mant(p),
                            ))
                    },
                    None => r matches Err(Exceptions::ValueError(_)),
                })
                &&& (r matches Err(v) ==> v matches Exceptions::ValueError(_))
            } else {
                r matches Err(Exceptions::ValueError(_))
            },
            _ => r matches Err(Exceptions::ValueError(_)),
        },
{
    let _ = match expect_x_args(2, "expt", args) {
        Ok(v) => v,
        Err(e) => {
            return Err(e);
        },
    };
    let a = match get_num(&args[0]) {
        Some(a) => a,
        None => {
            return Err(Exceptions::ValueError(String::from_str("Not a number")));
        },
    };
    let e2 = match get_num(&args[1]) {
        Some(e2) => e2,
        None => {
            return Err(Exceptions::ValueError(String::from_str("Not a number")));
        },
    };
    match pow_num(&a, &e2) {
        Ok(n) => Ok(Exp::Atom(Atom::Number(n))),
        Err(e) => Err(e),
    }
}

/// `begin`: the last argument.
pub fn begin(args: &[Exp]) -> (r: Result<Exp, Exceptions>)
    ensures
        args@.len() == 0 ==> r matches Err(Exceptions::ValueError(_)),
        args@.len() > 0 ==> (r matches Ok(e) && e@ == args@.last()@),
{
    if args.len() == 0 {
        return Err(
            Exceptions::ValueError(String::from_str("Expected atleast one expression after begin")),
        );
    }
    Ok(args[args.len() - 1].duplicate())
}

/// What `append` yields: list arguments are spliced, others kept whole.
pub open spec fn append_spec(vs: Seq<ExpV>) -> Seq<ExpV>
    decreases vs.len(),
{
    if vs.len() == 0 {
        Seq::empty()
    } else {
        (match vs[0] {
            ExpV::List(es) => es,
            v => seq![v],
        }) + append_spec(vs.drop_first())
    }
}

/// `append`: one list out of all the arguments.
#[verifier::loop_isolation(false)]
pub fn append(args: &[Exp]) -> (r: Result<Exp, Exceptions>)
    ensures
        r matches Ok(e) && e@ == ExpV::List(append_spec(views_of_seq(args@))),
{
    let ghost vs = views_of_seq(args@);
    let mut ret_list: Vec<Exp> = Vec::new();
    let mut i: usize = 0;
    while i < args.len()
        invariant
            i <= args@.len(),
            views_of_seq(ret_list@) =~= append_spec(vs.take(i as int)),
        decreases args@.len() - i,
    {
        proof {
            lemma_append_spec_snoc(vs, i as int);
        }
        match &args[i] {
            Exp::List(vals) => {
                let items: &Vec<Exp> = &**vals;
                proof {
                    lemma_list_view(*vals);
                }
                let mut k: usize = 0;
                let ghost before = views_of_seq(ret_list@);
                while k < items.len()
                    invariant
                        k <= items@.len(),
                        views_of_seq(ret_list@) =~= before + views_of_seq(items@).take(k as int),
                    decreases items@.len() - k,
                {
                    let ghost rl0 = ret_list@;
                    ret_list.push(items[k].duplicate());
                    proof {
                        lemma_views_of_seq_push(rl0, ret_list@.last());
                        assert(ret_list@ == rl0.push(ret_list@.last()));
                        assert(views_of_seq(items@).take(k + 1) =~= views_of_seq(items@).take(
                            k as int,
                        ).push(items@[k as int]@));
                        assert(views_of_seq(ret_list@) =~= before + views_of_seq(items@).take(
                            k + 1,
                        ));
                    }
                    k = k + 1;
                }
                proof {
                    assert(views_of_seq(items@).take(items@.len() as int) =~= views_of_seq(
                        items@,
                    ));
                    assert(args@[i as int]@->List_0 =~= views_of_seq(items@));
                }
            },
            other => {
                let ghost rl0 = ret_list@;
                ret_list.push(other.duplicate());
                proof {
                    lemma_views_of_seq_push(rl0, ret_list@.last());
                    assert(ret_list@ == rl0.push(ret_list@.last()));
                    assert(views_of_seq(ret_list@) =~= append_spec(vs.take(i as int)) + seq![
                        args@[i as int]@,
                    ]);
                }
            },
        }
        i = i + 1;
    }
    proof {
        assert(vs.take(args@.len() as int) =~= vs);
    }
    let l = Exp::List(Rc::new(ret_list));
    proof {
        lemma_list_view(l->List_0);
    }
    Ok(l)
}

/// Splitting one element off a spliced sequence.
proof fn lemma_append_spec_snoc(vs: Seq<ExpV>, i: int)
    requires
        0 <= i < vs.len(),
    ensures
        append_spec(vs.take(i + 1)) == append_spec(vs.take(i)) + (match vs[i] {
            ExpV::List(es) => es,
            v => seq![v],
        }),
    decreases i,
{
    if i == 0 {
        assert(vs.take(1)[0] == vs[0]);
        assert(vs.take(1).len() == 1);
        assert(vs.take(1).drop_first() =~= Seq::<ExpV>::empty());
        assert(append_spec(vs.take(1)) == (match vs.take(1)[0] {
            ExpV::List(es) => es,
            v => seq![v],
        }) + append_spec(vs.take(1).drop_first()));
        assert(append_spec(Seq::<ExpV>::empty()) =~= Seq::<ExpV>::empty());
        assert(append_spec(vs.take(0)) =~= Seq::<ExpV>::empty());
        assert(append_spec(vs.take(1)) =~= (match vs[0] {
            ExpV::List(es) => es,
            v => seq![v],
        }));
    } else {
        let tail = vs.drop_first();
        lemma_append_spec_snoc(tail, i - 1);
        assert(vs.take(i + 1).drop_first() =~= tail.take(i));
        assert(vs.take(i).drop_first() =~= tail.take(i - 1));
        assert(vs.take(i + 1)[0] == vs[0]);
        assert(vs.take(i)[0] == vs[0]);
        assert(tail[i - 1] == vs[i]);
        assert(append_spec(vs.take(i + 1)) =~= append_spec(vs.take(i)) + (match vs[i] {
            ExpV::List(es) => es,
            v => seq![v],
        }));
    }
}

/// `cons`: a fresh list with the first argument in front of the second.
pub fn cons(args: &[Exp]) -> (r: Result<Exp, Exceptions>)
    ensures
        args@.len() != 2 ==> r matches Err(Exceptions::ValueError(_)),
        args@.len() == 2 ==> match args@[1]@ {
            ExpV::List(es) => r matches Ok(e) && e@ == ExpV::List(seq![args@[0]@] + es),
            _ => r matches Err(Exceptions::ValueError(_)),
        },
{
    let _ = match expect_x_args(2, "cons", args) {
        Ok(v) => v,
        Err(e) => {
            return Err(e);
        },
    };
    match &args[1] {
        Exp::List(lst) => {
            let items: &Vec<Exp> = &**lst;
            proof {
                lemma_list_view(*lst);
            }
            let mut ret_list: Vec<Exp> = Vec::new();
            ret_list.push(args[0].duplicate());
            proof {
                assert(views_of_seq(ret_list@) =~= seq![args@[0]@] + views_of_seq(
                    (**lst)@,
                ).take(0));
            }
            let mut k: usize = 0;
            while k < items.len()
                invariant
                    k <= items@.len(),
                    views_of_seq(ret_list@) =~= seq![args@[0]@] + views_of_seq(items@).take(
                        k as int,
                    ),
                    items@ == (**lst)@,
                    args@.len() == 2,
                decreases items@.len() - k,
            {
                let ghost rl0 = ret_list@;
                ret_list.push(items[k].duplicate());
                proof {
                    lemma_views_of_seq_push(rl0, ret_list@.last());
                    assert(ret_list@ == rl0.push(ret_list@.last()));
                    assert(views_of_seq(items@).take(k + 1) =~= views_of_seq(items@).take(
                        k as int,
                    ).push(items@[k as int]@));
                    assert(views_of_seq(ret_list@) =~= seq![args@[0]@] + views_of_seq(items@).take(
                        k + 1,
                    ));
                }
                k = k + 1;
            }
            proof {
                assert(views_of_seq(items@).take(items@.len() as int) =~= views_of_seq(items@));
            }
            let l = Exp::List(Rc::new(ret_list));
            proof {
                lemma_list_view(l->List_0);
                assert(args@[1]@->List_0 =~= views_of_seq(items@));
            }
            Ok(l)
        },
        _ => Err(
            Exceptions::ValueError(
                String::from_str("Expected a list as second argument to cons. Got something else"),
            ),
        ),
    }
}

/// Structural equality of two arguments, as a boolean value.
pub fn equal(args: &[Exp]) -> (r: Result<Exp, Exceptions>)
    ensures
        args@.len() != 2 ==> r matches Err(Exceptions::ValueError(_)),
        args@.len() == 2 ==> (r matches Ok(e) && e@ == ExpV::Bool(args@[0]@ == args@[1]@)),
{
    let _ = match expect_x_args(2, "equal?", args) {
        Ok(v) => v,
        Err(e) => {
            return Err(e);
        },
    };
    Ok(Exp::Atom(Atom::Bool(exp_equal(&args[0], &args[1]))))
}

/// Identity: whether two list arguments are the very same object.  For two
/// lists the answer depends on where they are stored and is not pinned
/// down; any other pair compares structurally.
pub fn same_obj(args: &[Exp]) -> (r: Result<Exp, Exceptions>)
    ensures
        args@.len() != 2 ==> r matches Err(Exceptions::ValueError(_)),
        args@.len() == 2 ==> (r matches Ok(e) && (match (args@[0]@, args@[1]@) {
            (ExpV::List(_), ExpV::List(_)) => e@ matches ExpV::Bool(_),
            _ => e@ == ExpV::Bool(args@[0]@ == args@[1]@),
        })),
{
    let _ = match expect_x_args(2, "equal?", args) {
        Ok(v) => v,
        Err(e) => {
            return Err(e);
        },
    };
    match (&args[0], &args[1]) {
        (Exp::List(l1), Exp::List(l2)) => {
            let b = _is_same_object::<Vec<Exp>>(&**l1, &**l2);
            Ok(Exp::Atom(Atom::Bool(b)))
        },
        _ => Ok(Exp::Atom(Atom::Bool(exp_equal(&args[0], &args[1])))),
    }
}

/// `length` of a list argument.
pub fn length(args: &[Exp]) -> (r: Result<Exp, Exceptions>)
    ensures
        args@.len() != 1 ==> r matches Err(Exceptions::ValueError(_)),
        args@.len() == 1 ==> match args@[0]@ {
            ExpV::List(es) => if es.len() <= i64::MAX {
                r matches Ok(e) && e@ == ExpV::Num(Number::Int(es.len() as i64))
            } else {
                r matches Err(Exceptions::ValueError(_))
            },
            _ => r matches Err(Exceptions::ValueError(_)),
        },
{
    let _ = match expect_x_args(1, "length", args) {
        Ok(v) => v,
        Err(e) => {
            return Err(e);
        },
    };
    match &args[0] {
        Exp::List(lst) => {
            proof {
                lemma_list_view(*lst);
            }
            let n = (**lst).len();
            if (n as u64) <= (i64::MAX as u64) {
                Ok(Exp::Atom(Atom::Number(Number::Int(n as i64))))
            } else {
                Err(Exceptions::ValueError(String::from_str("list too long")))
            }
        },
        _ => Err(
            Exceptions::ValueError(String::from_str("non list type passed to length function")),
        ),
    }
}

/// Whether the argument is a list.
pub fn is_list(args: &[Exp]) -> (r: Result<Exp, Exceptions>)
    ensures
        args@.len() != 1 ==> r matches Err(Exceptions::ValueError(_)),
        args@.len() == 1 ==> (r matches Ok(e) && e@ == ExpV::Bool(
            (args@[0]@ matches ExpV::List(_)),
        )),
{
    let _ = match expect_x_args(1, "list?", args) {
        Ok(v) => v,
        Err(e) => {
            return Err(e);
        },
    };
    match &args[0] {
        Exp::List(_) => Ok(Exp::Atom(Atom::Bool(true))),
        _ => Ok(Exp::Atom(Atom::Bool(false))),
    }
}

/// `car`: the head of a non-empty list argument.
pub fn car(args: &[Exp]) -> (r: Result<Exp, Exceptions>)
    ensures
        args@.len() != 1 ==> r matches Err(Exceptions::ValueError(_)),
        args@.len() == 1 ==> match args@[0]@ {
            ExpV::List(es) => if es.len() > 0 {
                r matches Ok(e) && e@ == es[0]
            } else {
                r matches Err(Exceptions::ValueError(_))
            },
            _ => r matches Err(Exceptions::ValueError(_)),
        },
{
    let _ = match expect_x_args(1, "car", args) {
        Ok(v) => v,
        Err(e) => {
            return Err(e);
        },
    };
    match &args[0] {
        Exp::List(lst) => {
            proof {
                lemma_list_view(*lst);
            }
            let items: &Vec<Exp> = &**lst;
            if items.len() == 0 {
                Err(
                    Exceptions::ValueError(
                        String::from_str("The list should have length atleast 1"),
                    ),
                )
            } else {
                Ok(items[0].duplicate())
            }
        },
        _ => Err(Exceptions::ValueError(String::from_str("Expected a list after car"))),
    }
}

/// `cdr`: everything after the head of a non-empty list argument.
pub fn cdr(args: &[Exp]) -> (r: Result<Exp, Exceptions>)
    ensures
        args@.len() != 1 ==> r matches Err(Exceptions::ValueError(_)),
        args@.len() == 1 ==> match args@[0]@ {
            ExpV::List(es) => if es.len() > 0 {
                r matches Ok(e) && e@ == ExpV::List(es.drop_first())
            } else {
                r matches Err(Exceptions::ValueError(_))
            },
            _ => r matches Err(Exceptions::ValueError(_)),
        },
{
    let _ = match expect_x_args(1, "cdr", args) {
        Ok(v) => v,
        Err(e) => {
            return Err(e);
        },
    };
    match &args[0] {
        Exp::List(lst) => {
            proof {
                lemma_list_view(*lst);
            }
            let items: &Vec<Exp> = &**lst;
            if items.len() == 0 {
                Err(
                    Exceptions::ValueError(
                        String::from_str("The list should have length atleast 1"),
                    ),
                )
            } else {
                let mut tail: Vec<Exp> = Vec::new();
                let mut k: usize = 1;
                while k < items.len()
                    invariant
                        1 <= k <= items@.len(),
                        views_of_seq(tail@) =~= views_of_seq(items@).subrange(1, k as int),
                        items@ == (**lst)@,
                    decreases items@.len() - k,
                {
                    let ghost tl0 = tail@;
                    tail.push(items[k].duplicate());
                    proof {
                        lemma_views_of_seq_push(tl0, tail@.last());
                        assert(tail@ == tl0.push(tail@.last()));
                        assert(views_of_seq(items@).subrange(1, k + 1) =~= views_of_seq(
                            items@,
                        ).subrange(1, k as int).push(items@[k as int]@));
                        assert(views_of_seq(tail@) =~= views_of_seq(items@).subrange(1, k + 1));
                    }
                    k = k + 1;
                }
                let l = Exp::List(Rc::new(tail));
                proof {
                    lemma_list_view(l->List_0);
                    assert(args@[0]@->List_0 =~= views_of_seq(items@));
                    assert(views_of_seq(items@).subrange(1, items@.len() as int) =~= views_of_seq(
                        items@,
                    ).drop_first());
                }
                Ok(l)
            }
        },
        _ => Err(Exceptions::ValueError(String::from_str("Expected a list after car"))),
    }
}

/// Whether a list argument is empty; `#f` for any non-list.
pub fn is_null(args: &[Exp]) -> (r: Result<Exp, Exceptions>)
    ensures
        args@.len() != 1 ==> r matches Err(Exceptions::ValueError(_)),
        args@.len() == 1 ==> (r matches Ok(e) && e@ == ExpV::Bool(
            match args@[0]@ {
                ExpV::List(es) => es.len() == 0,
                _ => false,
            },
        )),
{
    let _ = match expect_x_args(1, "null?", args) {
        Ok(v) => v,
        Err(e) => {
            return Err(e);
        },
    };
    match &args[0] {
        Exp::List(lst) => {
            proof {
                lemma_list_view(*lst);
            }
            Ok(Exp::Atom(Atom::Bool((**lst).len() == 0)))
        },
        _ => Ok(Exp::Atom(Atom::Bool(false))),
    }
}

/// The running extremum of a fold over canonical numbers.
pub open spec fn fold_minmax(op: MinMax, acc: Number, vs: Seq<ExpV>) -> Option<Number>
    decreases vs.len(),
{
    if vs.len() == 0 {
        Some(acc)
    } else {
        match vs[0] {
            ExpV::Num(x) => if num_wf(x) {
                let keep = match op {
                    MinMax::Max => if lift2(acc, x).0 < lift2(acc, x).1 {
                        x
                    } else {
                        acc
                    },
                    MinMax::Min => if lift2(acc, x).1 < lift2(acc, x).0 {
                        x
                    } else {
                        acc
                    },
                };
                fold_minmax(op, keep, vs.drop_first())
            } else {
                None
            },
            _ => None,
        }
    }
}

/// `min` / `max` over at least one canonical number; exact.
#[verifier::loop_isolation(false)]
pub fn min_max(args: &[Exp], funcname: &str, op: MinMax) -> (r: Result<Exp, Exceptions>)
    ensures
        args@.len() == 0 ==> r matches Err(Exceptions::ValueError(_)),
        args@.len() >= 1 ==> match args@[0]@ {
            ExpV::Num(f) => if num_wf(f) {
                match fold_minmax(op, f, views_of_seq(args@)) {
                    Some(n) => r matches Ok(e) && e@ == ExpV::Num(n),
                    None => r matches Err(Exceptions::ValueError(_)),
                }
            } else {
                r matches Err(Exceptions::ValueError(_))
            },
            _ => r matches Err(Exceptions::ValueError(_)),
        },
{
    let ghost vs = views_of_seq(args@);
    let _ = match expect_atleast_x_args(1, funcname, args) {
        Ok(v) => v,
        Err(e) => {
            return Err(e);
        },
    };
    let first = match get_num(&args[0]) {
        Some(f) => f,
        None => {
            return Err(Exceptions::ValueError(String::from_str("Not a number")));
        },
    };
    if !check_wf(&first) {
        return Err(Exceptions::ValueError(String::from_str("malformed number")));
    }
    let mut acc = first;
    proof {
        assert(vs.skip(0) =~= vs);
    }
    let mut i: usize = 0;
    while i < args.len()
        invariant
            i <= args@.len(),
            num_wf(acc),
            fold_minmax(op, first, vs) == fold_minmax(op, acc, vs.skip(i as int)),
        decreases args@.len() - i,
    {
        proof {
            assert(vs.skip(i as int)[0] == args@[i as int]@);
            assert(vs.skip(i as int).drop_first() =~= vs.skip(i + 1));
        }
        let x = match get_num(&args[i]) {
            Some(x) => x,
            None => {
                return Err(Exceptions::ValueError(String::from_str("Not a number")));
            },
        };
        if !check_wf(&x) {
            return Err(Exceptions::ValueError(String::from_str("malformed number")));
        }
        let take_x = match op {
            MinMax::Max => lt_num(&acc, &x),
            MinMax::Min => lt_num(&x, &acc),
        };
        proof {
            crate::numbers::lemma_lift2_swap(acc, x);
        }
        if take_x {
            acc = x;
        }
        i = i + 1;
    }
    proof {
        assert(vs.skip(args@.len() as int) =~= Seq::<ExpV>::empty());
    }
    Ok(Exp::Atom(Atom::Number(acc)))
}

/// Whether the argument is a number.
pub fn is_number(args: &[Exp]) -> (r: Result<Exp, Exceptions>)
    ensures
        args@.len() != 1 ==> r matches Err(Exceptions::ValueError(_)),
        args@.len() == 1 ==> (r matches Ok(e) && e@ == ExpV::Bool(
            (args@[0]@ matches ExpV::Num(_)),
        )),
{
    let _ = match expect_x_args(1, "number?", args) {
        Ok(v) => v,
        Err(e) => {
            return Err(e);
        },
    };
    match &args[0] {
        Exp::Atom(Atom::Number(_)) => Ok(Exp::Atom(Atom::Bool(true))),
        _ => Ok(Exp::Atom(Atom::Bool(false))),
    }
}

/// Whether the argument is callable.
pub fn is_proc(args: &[Exp]) -> (r: Result<Exp, Exceptions>)
    ensures
        args@.len() != 1 ==> r matches Err(Exceptions::ValueError(_)),
        args@.len() == 1 ==> (r matches Ok(e) && e@ == ExpV::Bool(
            (args@[0]@ matches ExpV::Func(_)) || (args@[0]@ matches ExpV::Proc { .. }),
        )),
{
    let _ = match expect_x_args(1, "procedure?", args) {
        Ok(v) => v,
        Err(e) => {
            return Err(e);
        },
    };
    match &args[0] {
        Exp::Func(_) => Ok(Exp::Atom(Atom::Bool(true))),
        Exp::Procedure(_, _) => Ok(Exp::Atom(Atom::Bool(true))),
        _ => Ok(Exp::Atom(Atom::Bool(false))),
    }
}

/// Whether the argument is a boolean.
pub fn is_bool(args: &[Exp]) -> (r: Result<Exp, Exceptions>)
    ensures
        args@.len() != 1 ==> r matches Err(Exceptions::ValueError(_)),
        args@.len() == 1 ==> (r matches Ok(e) && e@ == ExpV::Bool(
            (args@[0]@ matches ExpV::Bool(_)),
        )),
{
    let _ = match expect_x_args(1, "bool?", args) {
        Ok(v) => v,
        Err(e) => {
            return Err(e);
        },
    };
    match &args[0] {
        Exp::Atom(Atom::Bool(_)) => Ok(Exp::Atom(Atom::Bool(true))),
        _ => Ok(Exp::Atom(Atom::Bool(false))),
    }
}

/// `map` builds the expression `(list (f x1) (f x2) ...)`; the evaluator
/// applies it by running that expression, so each per-element application
/// happens under the usual rules and its faults propagate.
pub fn map(args: &[Exp]) -> (r: Result<Exp, Exceptions>)
    ensures
        args@.len() != 2 ==> r matches Err(Exceptions::ValueError(_)),
        args@.len() == 2 ==> if args@[0]@ matches ExpV::Func(_) || args@[0]@ matches ExpV::Proc {
            ..
        } {
            match args@[1]@ {
                ExpV::List(es) => r matches Ok(e) && e@ == ExpV::List(
                    seq![ExpV::Sym(seq!['l', 'i', 's', 't'])] + Seq::new(
                        es.len(),
                        |j: int| ExpV::List(seq![args@[0]@, es[j]]),
                    ),
                ),
                _ => r matches Err(Exceptions::ValueError(_)),
            }
        } else {
            r matches Err(Exceptions::ValueError(_))
        },
{
    let _ = match expect_x_args(2, "map", args) {
        Ok(v) => v,
        Err(e) => {
            return Err(e);
        },
    };
    let callable = match &args[0] {
        Exp::Func(_) => true,
        Exp::Procedure(_, _) => true,
        _ => false,
    };
    if !callable {
        return Err(
            Exceptions::ValueError(String::from_str("Expected a callable as first argument to map")),
        );
    }
    match &args[1] {
        Exp::List(lst) => {
            proof {
                lemma_list_view(*lst);
            }
            let items: &Vec<Exp> = &**lst;
            let mut mapped: Vec<Exp> = Vec::new();
            mapped.push(Exp::Atom(Atom::Symbol(String::from_str("list"))));
            let ghost es = views_of_seq(items@);
            proof {
                reveal_strlit("list");
                assert(("list"@) =~= seq!['l', 'i', 's', 't']);
                assert(views_of_seq(mapped@) =~= seq![ExpV::Sym(seq!['l', 'i', 's', 't'])]
                    + Seq::new(0nat, |j: int| ExpV::List(seq![args@[0]@, es[j]])));
            }
            let mut k: usize = 0;
            while k < items.len()
                invariant
                    k <= items@.len(),
                    es == views_of_seq(items@),
                    items@ == (**lst)@,
                    args@.len() == 2,
                    views_of_seq(mapped@) =~= seq![ExpV::Sym(seq!['l', 'i', 's', 't'])]
                        + Seq::new(k as nat, |j: int| ExpV::List(seq![args@[0]@, es[j]])),
                decreases items@.len() - k,
            {
                let mut pair: Vec<Exp> = Vec::new();
                pair.push(args[0].duplicate());
                pair.push(items[k].duplicate());
                let cell = Exp::List(Rc::new(pair));
                proof {
                    lemma_list_view(cell->List_0);
                    assert(views_of_seq(cell->List_0@) =~= seq![args@[0]@, es[k as int]]);
                }
                let ghost mp0 = mapped@;
                mapped.push(cell);
                proof {
                    lemma_views_of_seq_push(mp0, mapped@.last());
                    assert(mapped@ == mp0.push(mapped@.last()));
                    assert(views_of_seq(mapped@) =~= seq![ExpV::Sym(seq!['l', 'i', 's', 't'])]
                        + Seq::new((k + 1) as nat, |j: int| ExpV::List(seq![args@[0]@, es[j]])));
                }
                k = k + 1;
            }
            let l = Exp::List(Rc::new(mapped));
            proof {
                reveal_strlit("list");
                assert(("list"@) =~= seq!['l', 'i', 's', 't']);
                lemma_list_view(l->List_0);
                assert(args@[1]@->List_0 =~= es);
            }
            Ok(l)
        },
        _ => Err(
            Exceptions::ValueError(String::from_str("Expected a list as second argument to map")),
        ),
    }
}

/// `list`: a fresh list of the evaluated arguments.
pub fn list_fn(args: &[Exp]) -> (r: Result<Exp, Exceptions>)
    ensures
        r matches Ok(e) && e@ == ExpV::List(views_of_seq(args@)),
{
    let mut out: Vec<Exp> = Vec::new();
    let mut k: usize = 0;
    while k < args.len()
        invariant
            k <= args@.len(),
            views_of_seq(out@) =~= views_of_seq(args@).take(k as int),
        decreases args@.len() - k,
    {
        let ghost o0 = out@;
        out.push(args[k].duplicate());
        proof {
            lemma_views_of_seq_push(o0, out@.last());
            assert(out@ == o0.push(out@.last()));
            assert(views_of_seq(args@).take(k + 1) =~= views_of_seq(args@).take(k as int).push(
                args@[k as int]@,
            ));
        }
        k = k + 1;
    }
    let l = Exp::List(Rc::new(out));
    proof {
        lemma_list_view(l->List_0);
        assert(views_of_seq(args@).take(args@.len() as int) =~= views_of_seq(args@));
    }
    Ok(l)
}

/// `apply`: call a built-in on the elements of a list, exactly as
/// `spec_apply` says.
pub fn apply(args: &[Exp], depth: u64) -> (r: Result<Exp, Exceptions>)
    ensures
        args@.len() != 2 ==> r matches Err(Exceptions::ValueError(_)),
        args@.len() == 2 && !(args@[0]@ matches ExpV::Func(_)) ==> r matches Err(
            Exceptions::ValueError(_),
        ),
        (args@.len() == 2 && (args@[0]@ matches ExpV::Func(_)) && !(args@[1]@
            matches ExpV::List(_))) ==> r matches Err(Exceptions::ValueError(_)),
        match spec_apply(views_of_seq(args@), depth as nat) {
            Some(res) => match res {
                Ok(v) => r matches Ok(e) && e@ == v,
                Err(_) => r matches Err(Exceptions::ValueError(_)),
            },
            None => true,
        },
    decreases depth, 0int,
{
    let _ = match expect_x_args(2, "apply", args) {
        Ok(v) => v,
        Err(e) => {
            return Err(e);
        },
    };
    proof {
        assert(views_of_seq(args@)[0] == args@[0]@);
        assert(views_of_seq(args@)[1] == args@[1]@);
    }
    match &args[0] {
        Exp::Func(f) => match &args[1] {
            Exp::List(params) => {
                if depth == 0 {
                    return Err(Exceptions::ValueError(String::from_str("apply nested too deep")));
                }
                let out = call_builtin(*f, (**params).as_slice(), depth - 1);
                proof {
                    lemma_list_view(*params);
                    assert(args@[1]@->List_0 =~= views_of_seq((**params)@));
                }
                out
            },
            _ => Err(
                Exceptions::ValueError(
                    String::from_str(
                        "Expected a list as second argument to apply. Got something else",
                    ),
                ),
            ),
        },
        _ => Err(
            Exceptions::ValueError(
                String::from_str("Expected the first argument for apply to be a function"),
            ),
        ),
    }
}


/// The outcome of one arithmetic fold, at specification level.
pub open spec fn spec_fold_result(op: ArithOp, init: Number, args: Seq<ExpV>) -> Result<
    ExpV,
    EvalErr,
> {
    match fold_arith(op, init, args) {
        Some(n) => Ok(ExpV::Num(n)),
        None => Err(EvalErr::Value),
    }
}

/// What `minus` yields, at specification level.
pub open spec fn spec_minus(args: Seq<ExpV>) -> Result<ExpV, EvalErr> {
    if args.len() == 0 {
        Err(EvalErr::Value)
    } else {
        match args[0] {
            ExpV::Num(a) => if num_wf(a) {
                match fold_arith(ArithOp::Add, Number::Int(0), args.drop_first()) {
                    Some(s) => match (if args.len() == 1 {
                        sub_canon(Number::Int(0), a)
                    } else {
                        sub_canon(a, s)
                    }) {
                        Some(n) => Ok(ExpV::Num(n)),
                        None => Err(EvalErr::Value),
                    },
                    None => Err(EvalErr::Value),
                }
            } else {
                Err(EvalErr::Value)
            },
            _ => Err(EvalErr::Value),
        }
    }
}

/// What `divide` yields, at specification level: the unique canonical
/// quotient, where one exists.
pub open spec fn spec_divide(args: Seq<ExpV>) -> Result<ExpV, EvalErr> {
    if args.len() == 0 {
        Err(EvalErr::Value)
    } else {
        match args[0] {
            ExpV::Num(a) => if num_wf(a) {
                match fold_arith(ArithOp::Mul, Number::Int(1), args.drop_first()) {
                    Some(p) => {
                        let hi = if args.len() == 1 {
                            Number::Int(1)
                        } else {
                            a
                        };
                        let lo = if args.len() == 1 {
                            a
                        } else {
                            p
                        };
                        if lift2(hi, lo).1 == 0 {
                            Err(EvalErr::Value)
                        } else {
                            match quot_canon(lift2(hi, lo).0, lift2(hi, lo).1) {
                                Some(n) => Ok(ExpV::Num(n)),
                                None => Err(EvalErr::Value),
                            }
                        }
                    },
                    None => Err(EvalErr::Value),
                }
            } else {
                Err(EvalErr::Value)
            },
            _ => Err(EvalErr::Value),
        }
    }
}

/// What `fmod` yields, at specification level.
pub open spec fn spec_fmod(args: Seq<ExpV>) -> Result<ExpV, EvalErr> {
    if args.len() != 2 {
        Err(EvalErr::Value)
    } else {
        match (args[0], args[1]) {
            (ExpV::Num(a), ExpV::Num(b)) => if num_wf(a) && num_wf(b) && mant(b) != 0 {
                match rem_canon(a, b) {
                    Some(n) => Ok(ExpV::Num(n)),
                    None => Err(EvalErr::Value),
                }
            } else {
                Err(EvalErr::Value)
            },
            _ => Err(EvalErr::Value),
        }
    }
}

/// What `mod` yields, at specification level.
pub open spec fn spec_mod_int(args: Seq<ExpV>) -> Result<ExpV, EvalErr> {
    if args.len() != 2 {
        Err(EvalErr::Value)
    } else {
        match (args[0], args[1]) {
            (ExpV::Num(a), ExpV::Num(b)) => if num_wf(a) && num_wf(b) && num_trunc(b) != 0 && !(
            num_trunc(a) == i64::MIN && num_trunc(b) == -1) {
                Ok(ExpV::Num(Number::Int((trunc_rem(num_trunc(a), num_trunc(b))) as i64)))
            } else {
                Err(EvalErr::Value)
            },
            _ => Err(EvalErr::Value),
        }
    }
}

/// What `abs` yields, at specification level.
pub open spec fn spec_abs(args: Seq<ExpV>) -> Result<ExpV, EvalErr> {
    if args.len() != 1 {
        Err(EvalErr::Value)
    } else {
        match args[0] {
            ExpV::Num(n) => if num_wf(n) {
                match canon(vstd::math::abs(mant(n)) as int, scale(n)) {
                    Some(v) => Ok(ExpV::Num(v)),
                    None => Err(EvalErr::Value),
                }
            } else {
                Err(EvalErr::Value)
            },
            _ => Err(EvalErr::Value),
        }
    }
}

/// What `expt` yields, at specification level: the canonical iterated
/// product, or its unique canonical reciprocal for a negative exponent.
pub open spec fn spec_power(args: Seq<ExpV>) -> Result<ExpV, EvalErr> {
    if args.len() != 2 {
        Err(EvalErr::Value)
    } else {
        match (args[0], args[1]) {
            (ExpV::Num(a), ExpV::Num(e2)) => if num_wf(a) && num_wf(e2) {
                if scale(e2) != 0 {
                    Err(EvalErr::Value)
                } else if mant(e2) >= 0 {
                    match pow_canon(a, mant(e2) as nat) {
                        Some(n) => Ok(ExpV::Num(n)),
                        None => Err(EvalErr::Value),
                    }
                } else if mant(a) == 0 {
                    Err(EvalErr::Value)
                } else {
                    match pow_canon(a, (-mant(e2)) as nat) {
                        Some(p) => match quot_canon(p10(scale(p)), mant(p)) {
                            Some(n) => Ok(ExpV::Num(n)),
                            None => Err(EvalErr::Value),
                        },
                        None => Err(EvalErr::Value),
                    }
                }
            } else {
                Err(EvalErr::Value)
            },
            _ => Err(EvalErr::Value),
        }
    }
}

/// What a two-operand comparison yields, at specification level.
pub open spec fn spec_cmp(args: Seq<ExpV>, op: CmpOp) -> Result<ExpV, EvalErr> {
    if args.len() != 2 {
        Err(EvalErr::Value)
    } else {
        match (args[0], args[1]) {
            (ExpV::Num(a), ExpV::Num(b)) => if num_wf(a) && num_wf(b) {
                Ok(
                    ExpV::Bool(
                        match op {
                            CmpOp::Gt => lift2(a, b).0 > lift2(a, b).1,
                            CmpOp::Lt => lift2(a, b).0 < lift2(a, b).1,
                            CmpOp::Eq => lift2(a, b).0 == lift2(a, b).1,
                            CmpOp::Ge => lift2(a, b).0 >= lift2(a, b).1,
                            CmpOp::Le => lift2(a, b).0 <= lift2(a, b).1,
                        },
                    ),
                )
            } else {
                Err(EvalErr::Value)
            },
            _ => Err(EvalErr::Value),
        }
    }
}

/// What `and` / `or` yield, at specification level.
pub open spec fn spec_logic(args: Seq<ExpV>, op: BoolOp) -> Result<ExpV, EvalErr> {
    if all_bools(args) {
        Ok(
            ExpV::Bool(
                match op {
                    BoolOp::And => all_true(args),
                    BoolOp::Or => any_true(args),
                },
            ),
        )
    } else {
        Err(EvalErr::Value)
    }
}

/// What `min` / `max` yield, at specification level.
pub open spec fn spec_minmax(args: Seq<ExpV>, op: MinMax) -> Result<ExpV, EvalErr> {
    if args.len() == 0 {
        Err(EvalErr::Value)
    } else {
        match args[0] {
            ExpV::Num(f) => if num_wf(f) {
                match fold_minmax(op, f, args) {
                    Some(n) => Ok(ExpV::Num(n)),
                    None => Err(EvalErr::Value),
                }
            } else {
                Err(EvalErr::Value)
            },
            _ => Err(EvalErr::Value),
        }
    }
}

/// What `map` yields, at specification level.
pub open spec fn spec_map(args: Seq<ExpV>) -> Result<ExpV, EvalErr> {
    if args.len() != 2 {
        Err(EvalErr::Value)
    } else if (args[0] matches ExpV::Func(_)) || (args[0] matches ExpV::Proc { .. }) {
        match args[1] {
            ExpV::List(es) => Ok(
                ExpV::List(
                    seq![ExpV::Sym(seq!['l', 'i', 's', 't'])] + Seq::new(
                        es.len(),
                        |j: int| ExpV::List(seq![args[0], es[j]]),
                    ),
                ),
            ),
            _ => Err(EvalErr::Value),
        }
    } else {
        Err(EvalErr::Value)
    }
}

/// What `apply` yields, at specification level.
pub open spec fn spec_apply(args: Seq<ExpV>, depth: nat) -> Option<Result<ExpV, EvalErr>>
    decreases depth, 0int,
{
    if args.len() != 2 {
        Some(Err(EvalErr::Value))
    } else {
        match args[0] {
            ExpV::Func(b2) => match args[1] {
                ExpV::List(es) => if depth == 0 {
                    Some(Err(EvalErr::Value))
                } else {
                    spec_call_builtin(b2, es, (depth - 1) as nat)
                },
                _ => Some(Err(EvalErr::Value)),
            },
            _ => Some(Err(EvalErr::Value)),
        }
    }
}

/// What one built-in call yields, at specification level: the value or a
/// value fault; `None` where the outcome is not pinned down (the identity
/// test on two lists depends on where they are stored).
pub open spec fn spec_call_builtin(b: Builtin, args: Seq<ExpV>, depth: nat) -> Option<
    Result<ExpV, EvalErr>,
>
    decreases depth, 1int,
{
    match b {
        Builtin::Add => Some(spec_fold_result(ArithOp::Add, Number::Int(0), args)),
        Builtin::Mul => Some(spec_fold_result(ArithOp::Mul, Number::Int(1), args)),
        Builtin::Minus => Some(spec_minus(args)),
        Builtin::Divide => Some(spec_divide(args)),
        Builtin::Fmod => Some(spec_fmod(args)),
        Builtin::ModInt => Some(spec_mod_int(args)),
        Builtin::Abs => Some(spec_abs(args)),
        Builtin::Expt => Some(spec_power(args)),
        Builtin::Gt => Some(spec_cmp(args, CmpOp::Gt)),
        Builtin::Lt => Some(spec_cmp(args, CmpOp::Lt)),
        Builtin::NumEq => Some(spec_cmp(args, CmpOp::Eq)),
        Builtin::Ge => Some(spec_cmp(args, CmpOp::Ge)),
        Builtin::Le => Some(spec_cmp(args, CmpOp::Le)),
        Builtin::And => Some(spec_logic(args, BoolOp::And)),
        Builtin::Or => Some(spec_logic(args, BoolOp::Or)),
        Builtin::Not => Some(
            if args.len() != 1 {
                Err(EvalErr::Value)
            } else {
                match args[0] {
                    ExpV::Bool(b2) => Ok(ExpV::Bool(!b2)),
                    _ => Err(EvalErr::Value),
                }
            },
        ),
        Builtin::Begin => Some(
            if args.len() == 0 {
                Err(EvalErr::Value)
            } else {
                Ok(args.last())
            },
        ),
        Builtin::Append => Some(Ok(ExpV::List(append_spec(args)))),
        Builtin::Car => Some(
            if args.len() != 1 {
                Err(EvalErr::Value)
            } else {
                match args[0] {
                    ExpV::List(es) => if es.len() > 0 {
                        Ok(es[0])
                    } else {
                        Err(EvalErr::Value)
                    },
                    _ => Err(EvalErr::Value),
                }
            },
        ),
        Builtin::Cdr => Some(
            if args.len() != 1 {
                Err(EvalErr::Value)
            } else {
                match args[0] {
                    ExpV::List(es) => if es.len() > 0 {
                        Ok(ExpV::List(es.drop_first()))
                    } else {
                        Err(EvalErr::Value)
                    },
                    _ => Err(EvalErr::Value),
                }
            },
        ),
        Builtin::Apply => spec_apply(args, depth),
        Builtin::Cons => Some(
            if args.len() != 2 {
                Err(EvalErr::Value)
            } else {
                match args[1] {
                    ExpV::List(es) => Ok(ExpV::List(seq![args[0]] + es)),
                    _ => Err(EvalErr::Value),
                }
            },
        ),
        Builtin::SameObj => if args.len() != 2 {
            Some(Err(EvalErr::Value))
        } else {
            match (args[0], args[1]) {
                (ExpV::List(_), ExpV::List(_)) => None,
                _ => Some(Ok(ExpV::Bool(args[0] == args[1]))),
            }
        },
        Builtin::Equal => Some(
            if args.len() != 2 {
                Err(EvalErr::Value)
            } else {
                Ok(ExpV::Bool(args[0] == args[1]))
            },
        ),
        Builtin::Length => Some(
            if args.len() != 1 {
                Err(EvalErr::Value)
            } else {
                match args[0] {
                    ExpV::List(es) => if es.len() <= i64::MAX {
                        Ok(ExpV::Num(Number::Int(es.len() as i64)))
                    } else {
                        Err(EvalErr::Value)
                    },
                    _ => Err(EvalErr::Value),
                }
            },
        ),
        Builtin::IsList => Some(
            if args.len() != 1 {
                Err(EvalErr::Value)
            } else {
                Ok(ExpV::Bool((args[0] matches ExpV::List(_))))
            },
        ),
        Builtin::Max => Some(spec_minmax(args, MinMax::Max)),
        Builtin::Min => Some(spec_minmax(args, MinMax::Min)),
        Builtin::IsNull => Some(
            if args.len() != 1 {
                Err(EvalErr::Value)
            } else {
                Ok(
                    ExpV::Bool(
                        match args[0] {
                            ExpV::List(es) => es.len() == 0,
                            _ => false,
                        },
                    ),
                )
            },
        ),
        Builtin::IsNumber => Some(
            if args.len() != 1 {
                Err(EvalErr::Value)
            } else {
                Ok(ExpV::Bool((args[0] matches ExpV::Num(_))))
            },
        ),
        Builtin::IsProc => Some(
            if args.len() != 1 {
                Err(EvalErr::Value)
            } else {
                Ok(
                    ExpV::Bool(
                        (args[0] matches ExpV::Func(_)) || (args[0] matches ExpV::Proc { .. }),
                    ),
                )
            },
        ),
        Builtin::IsBool => Some(
            if args.len() != 1 {
                Err(EvalErr::Value)
            } else {
                Ok(ExpV::Bool((args[0] matches ExpV::Bool(_))))
            },
        ),
        Builtin::MapFn => Some(spec_map(args)),
        Builtin::ListFn => Some(Ok(ExpV::List(args))),
    }
}

/// Dispatch one built-in call on fully evaluated arguments: the result is
/// exactly what `spec_call_builtin` says, wherever that pins it down.
/// `depth` only bounds nests of `apply` applied to itself.
pub fn call_builtin(b: Builtin, args: &[Exp], depth: u64) -> (r: Result<Exp, Exceptions>)
    ensures
        match spec_call_builtin(b, views_of_seq(args@), depth as nat) {
            Some(res) => match res {
                Ok(v) => r matches Ok(e) && e@ == v,
                Err(_) => r matches Err(Exceptions::ValueError(_)),
            },
            None => true,
        },
    decreases depth, 1int,
{
    proof {
        assert(forall|j: int|
            0 <= j < args@.len() ==> views_of_seq(args@)[j] == #[trigger] args@[j]@);
        if args@.len() > 0 {
            assert(views_of_seq(args@).last() == args@[args@.len() - 1]@);
        }
    }
    match b {
        Builtin::Add => binary_op_arith(args, Number::Int(0), ArithOp::Add),
        Builtin::Mul => binary_op_arith(args, Number::Int(1), ArithOp::Mul),
        Builtin::Minus => minus(args),
        Builtin::Divide => {
            let out = divide(args);
            proof {
                let vs = views_of_seq(args@);
                if vs.len() >= 1 {
                    match vs[0] {
                        ExpV::Num(a) => {
                            if num_wf(a) {
                                match fold_arith(ArithOp::Mul, Number::Int(1), vs.drop_first()) {
                                    Some(p) => {
                                        let hi = if vs.len() == 1 {
                                            Number::Int(1)
                                        } else {
                                            a
                                        };
                                        let lo = if vs.len() == 1 {
                                            a
                                        } else {
                                            p
                                        };
                                        if lift2(hi, lo).1 != 0 {
                                            let pp = lift2(hi, lo).0;
                                            let qq = lift2(hi, lo).1;
                                            if exists|n: Number|
                                                num_wf(n) && num_is_frac(n, pp, qq) {
                                                let n0 = choose|n: Number|
                                                    num_wf(n) && num_is_frac(n, pp, qq);
                                                assert(num_wf(n0) && num_is_frac(n0, pp, qq));
                                            }
                                        }
                                    },
                                    None => {},
                                }
                            }
                        },
                        _ => {},
                    }
                }
            }
            out
        },
        Builtin::Fmod => fmod(args),
        Builtin::ModInt => mod_int(args),
        Builtin::Abs => absolute_val(args),
        Builtin::Expt => {
            let out = power(args);
            proof {
                let vs = views_of_seq(args@);
                if vs.len() == 2 {
                    match (vs[0], vs[1]) {
                        (ExpV::Num(a), ExpV::Num(e2)) => {
                            if num_wf(a) && num_wf(e2) && scale(e2) == 0 && mant(e2) < 0 && mant(a)
                                != 0 {
                                match pow_canon(a, (-mant(e2)) as nat) {
                                    Some(p) => {
                                        let pp = p10(scale(p));
                                        let qq = mant(p);
                                        if exists|n: Number| num_wf(n) && num_is_frac(n, pp, qq) {
                                            let n0 = choose|n: Number|
                                                num_wf(n) && num_is_frac(n, pp, qq);
                                            assert(num_wf(n0) && num_is_frac(n0, pp, qq));
                                        }
                                    },
                                    None => {},
                                }
                            }
                        },
                        _ => {},
                    }
                }
            }
            out
        },
        Builtin::Gt => binary_cmp(args, CmpOp::Gt),
        Builtin::Lt => binary_cmp(args, CmpOp::Lt),
        Builtin::NumEq => binary_cmp(args, CmpOp::Eq),
        Builtin::Ge => binary_cmp(args, CmpOp::Ge),
        Builtin::Le => binary_cmp(args, CmpOp::Le),
        Builtin::And => logical_bin_ops(args, BoolOp::And),
        Builtin::Or => logical_bin_ops(args, BoolOp::Or),
        Builtin::Not => logical_not(args),
        Builtin::Begin => begin(args),
        Builtin::Append => append(args),
        Builtin::Car => car(args),
        Builtin::Cdr => cdr(args),
        Builtin::Apply => apply(args, depth),
        Builtin::Cons => cons(args),
        Builtin::SameObj => same_obj(args),
        Builtin::Equal => equal(args),
        Builtin::Length => length(args),
        Builtin::IsList => is_list(args),
        Builtin::Max => min_max(args, "max", MinMax::Max),
        Builtin::Min => min_max(args, "min", MinMax::Min),
        Builtin::IsNull => is_null(args),
        Builtin::IsNumber => is_number(args),
        Builtin::IsProc => is_proc(args),
        Builtin::IsBool => is_bool(args),
        Builtin::MapFn => map(args),
        Builtin::ListFn => list_fn(args),
    }
}

} // verus!
