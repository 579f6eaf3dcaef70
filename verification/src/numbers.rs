//! Exact decimal arithmetic on [`Number`]: every operation states precisely
//! which canonical number it returns, and a value has exactly one canonical
//! representation (an `Int`, or a `Dec` whose mantissa ends in a nonzero
//! digit).

use vstd::prelude::*;
use vstd::math::abs;
use crate::types::{Exceptions, Number};

verus! {

/// Ten to the `e`.
pub open spec fn p10(e: nat) -> int
    decreases e,
{
    if e == 0 {
        1
    } else {
        10 * p10((e - 1) as nat)
    }
}

/// Powers of ten multiply by adding exponents.
pub proof fn lemma_p10_adds(a: nat, b: nat)
    ensures
        p10(a + b) == p10(a) * p10(b),
    decreases a,
{
    if a == 0 {
    } else {
        lemma_p10_adds((a - 1) as nat, b);
        assert(p10(a + b) == 10 * p10((a - 1 + b) as nat));
        assert(10 * (p10((a - 1) as nat) * p10(b)) == (10 * p10((a - 1) as nat)) * p10(b))
            by (nonlinear_arith);
    }
}

pub broadcast proof fn lemma_p10_pos(e: nat)
    ensures
        #[trigger] p10(e) >= 1,
    decreases e,
{
    if e > 0 {
        lemma_p10_pos((e - 1) as nat);
    }
}

/// `p10` grows: for `a <= b`, `p10(a) <= p10(b)`.
proof fn lemma_p10_le(a: nat, b: nat)
    requires
        a <= b,
    ensures
        p10(a) <= p10(b),
    decreases b - a,
{
    broadcast use lemma_p10_pos;

    if a < b {
        lemma_p10_le(a, (b - 1) as nat);
        assert(p10((b - 1) as nat) <= 10 * p10((b - 1) as nat)) by (nonlinear_arith)
            requires
                p10((b - 1) as nat) >= 1,
        ;
    }
}

/// The mantissa of a number: the integer itself, or the decimal's `m`.
pub open spec fn mant(n: Number) -> int {
    match n {
        Number::Int(i) => i as int,
        Number::Dec { m, s } => m as int,
    }
}

/// The scale of a number: how many tenths-powers divide the mantissa.
/// The value of `n` is `mant(n) / p10(scale(n))`.
pub open spec fn scale(n: Number) -> nat {
    match n {
        Number::Int(_) => 0,
        Number::Dec { m, s } => s as nat,
    }
}

/// Canonical well-formedness: a `Dec` has a scale between 1 and 18 and a
/// mantissa that ends in a nonzero digit, so it never denotes a whole
/// number and no value has two representations.
pub open spec fn num_wf(n: Number) -> bool {
    match n {
        Number::Int(_) => true,
        Number::Dec { m, s } => 1 <= s <= 18 && (m as int) % 10 != 0,
    }
}

/// `n` denotes the fraction `p / q`.
pub open spec fn num_is_frac(n: Number, p: int, q: int) -> bool {
    mant(n) * q == p * p10(scale(n))
}

/// Divide out trailing decimal zeros: the canonical-form core.
pub open spec fn strip(m: int, s: nat) -> (int, nat)
    decreases s,
{
    if s > 0 && m % 10 == 0 {
        strip(m / 10, (s - 1) as nat)
    } else {
        (m, s)
    }
}

/// Stripping keeps the denoted value and ends canonical.
pub proof fn lemma_strip(m: int, s: nat)
    ensures
        strip(m, s).1 <= s,
        strip(m, s).0 * p10(s) == m * p10(strip(m, s).1),
        strip(m, s).1 > 0 ==> strip(m, s).0 % 10 != 0,
        abs(m) >= abs(strip(m, s).0),
        m == 0 ==> strip(m, s).0 == 0,
    decreases s,
{
    broadcast use lemma_p10_pos;

    if s > 0 && m % 10 == 0 {
        let m1 = m / 10;
        let s1 = (s - 1) as nat;
        lemma_strip(m1, s1);
        let (m2, s2) = strip(m1, s1);
        assert(m == 10 * m1) by {
            vstd::arithmetic::div_mod::lemma_fundamental_div_mod(m, 10);
        }
        assert(m2 * p10(s1) == m1 * p10(s2));
        assert(m2 * p10(s) == m * p10(s2)) by (nonlinear_arith)
            requires
                m2 * p10(s1) == m1 * p10(s2),
                m == 10 * m1,
                p10(s) == 10 * p10(s1),
        ;
        assert(abs(m1) <= abs(m)) by (nonlinear_arith)
            requires
                m == 10 * m1,
        ;
    }
}

/// The canonical number for `m / 10^s`, if its mantissa fits an `i64` and
/// its scale stays within 18.
pub open spec fn canon(m: int, s: nat) -> Option<Number> {
    let (m2, s2) = strip(m, s);
    if s2 == 0 {
        if i64::MIN <= m2 <= i64::MAX {
            Some(Number::Int(m2 as i64))
        } else {
            None
        }
    } else {
        if i64::MIN <= m2 <= i64::MAX && s2 <= 18 {
            Some(Number::Dec { m: m2 as i64, s: s2 as u32 })
        } else {
            None
        }
    }
}

/// What `canon` returns is canonical and denotes `m / 10^s`.
pub proof fn lemma_canon(m: int, s: nat)
    ensures
        canon(m, s) matches Some(n) ==> num_wf(n) && num_is_frac(n, m, p10(s)),
{
    lemma_strip(m, s);
}

/// Cancellation: from `a * c == b * c` with `c > 0` follows `a == b`.
proof fn lemma_mul_cancel(a: int, b: int, c: int)
    requires
        c > 0,
        a * c == b * c,
    ensures
        a == b,
{
    assert(a == b) by (nonlinear_arith)
        requires
            c > 0,
            a * c == b * c,
    ;
}

/// A value has at most one canonical representation.
pub proof fn lemma_canonical_unique(a: Number, b: Number)
    requires
        num_wf(a),
        num_wf(b),
        mant(a) * p10(scale(b)) == mant(b) * p10(scale(a)),
    ensures
        a == b,
{
    broadcast use lemma_p10_pos;

    let ma = mant(a);
    let mb = mant(b);
    let sa = scale(a);
    let sb = scale(b);
    if sa == sb {
        lemma_mul_cancel(ma, mb, p10(sa));
        match (a, b) {
            (Number::Int(x), Number::Int(y)) => {},
            (Number::Dec { m: x, s: u }, Number::Dec { m: y, s: v }) => {},
            _ => {
                assert(false);
            },
        }
    } else if sa < sb {
        lemma_p10_adds(sa, (sb - sa) as nat);
        assert(sa + (sb - sa) as nat == sb);
        assert(ma * (p10(sa) * p10((sb - sa) as nat)) == mb * p10(sa));
        assert((ma * p10((sb - sa) as nat)) * p10(sa) == mb * p10(sa)) by (nonlinear_arith)
            requires
                ma * (p10(sa) * p10((sb - sa) as nat)) == mb * p10(sa),
        ;
        lemma_mul_cancel(ma * p10((sb - sa) as nat), mb, p10(sa));
        let k = (sb - sa) as nat;
        assert(mb == (ma * p10((k - 1) as nat)) * 10) by (nonlinear_arith)
            requires
                mb == ma * p10(k),
                p10(k) == 10 * p10((k - 1) as nat),
        ;
        assert(mb % 10 == 0) by {
            vstd::arithmetic::div_mod::lemma_mod_multiples_basic(ma * p10((k - 1) as nat), 10);
        }
        assert(false);
    } else {
        lemma_p10_adds(sb, (sa - sb) as nat);
        assert(sb + (sa - sb) as nat == sa);
        assert((mb * p10((sa - sb) as nat)) * p10(sb) == ma * p10(sb)) by (nonlinear_arith)
            requires
                mb * (p10(sb) * p10((sa - sb) as nat)) == ma * p10(sb),
        ;
        lemma_mul_cancel(mb * p10((sa - sb) as nat), ma, p10(sb));
        let k = (sa - sb) as nat;
        assert(ma == (mb * p10((k - 1) as nat)) * 10) by (nonlinear_arith)
            requires
                ma == mb * p10(k),
                p10(k) == 10 * p10((k - 1) as nat),
        ;
        assert(ma % 10 == 0) by {
            vstd::arithmetic::div_mod::lemma_mod_multiples_basic(mb * p10((k - 1) as nat), 10);
        }
        assert(false);
    }
}

/// If `m / 10^s` equals a canonical `n`, then `canon(m, s)` finds exactly `n`.
pub proof fn lemma_canon_complete(m: int, s: nat, n: Number)
    requires
        num_wf(n),
        num_is_frac(n, m, p10(s)),
    ensures
        canon(m, s) == Some(n),
{
    broadcast use lemma_p10_pos;

    lemma_strip(m, s);
    let (m2, s2) = strip(m, s);
    let c = Number::Dec { m: 1i64, s: 1u32 };
    // The stripped pair denotes the same value as n: mant(n) * p10(s) == m * p10(scale(n))
    // and m2 * p10(s) == m * p10(s2), so mant(n) * p10(s2) == m2 * p10(scale(n)).
    assert(mant(n) * p10(s2) * p10(s) == m2 * p10(scale(n)) * p10(s)) by (nonlinear_arith)
        requires
            mant(n) * p10(s) == m * p10(scale(n)),
            m2 * p10(s) == m * p10(s2),
    ;
    lemma_mul_cancel(mant(n) * p10(s2), m2 * p10(scale(n)), p10(s));
    if s2 == 0 {
        let q = Number::Int(1i64);
        // Treat (m2, 0) as a canonical candidate in spirit: show n == Int(m2).
        if m2 < i64::MIN || m2 > i64::MAX {
            // n is canonical with the same value m2; show this cannot be.
            // mant(n) == m2 * p10(scale(n)); so |mant(n)| >= |m2|, contradiction
            // with mant(n) being an i64 unless scale(n) puts it back in range.
            assert(mant(n) * p10(s2) == m2 * p10(scale(n)));
            assert(p10(s2) == 1);
            assert(mant(n) == m2 * p10(scale(n))) by (nonlinear_arith)
                requires
                    mant(n) * p10(s2) == m2 * p10(scale(n)),
                    p10(s2) == 1,
            ;
            assert(abs(mant(n)) >= abs(m2)) by (nonlinear_arith)
                requires
                    mant(n) == m2 * p10(scale(n)),
                    p10(scale(n)) >= 1,
            ;
            assert(false);
        } else {
            let cand = Number::Int(m2 as i64);
            assert(num_wf(cand));
            assert(num_is_frac(cand, m2, p10(s2)));
            assert(mant(cand) * p10(scale(n)) == mant(n) * p10(scale(cand)));
            lemma_canonical_unique(cand, n);
        }
    } else {
        if i64::MIN <= m2 <= i64::MAX && s2 <= 18 {
            let cand = Number::Dec { m: m2 as i64, s: s2 as u32 };
            assert(num_wf(cand));
            assert(mant(cand) * p10(scale(n)) == mant(n) * p10(scale(cand)));
            lemma_canonical_unique(cand, n);
        } else {
            // The canonical n has scale(n) <= 18 and an i64 mantissa, yet the
            // stripped pair (m2, s2) denotes the same value and is itself
            // fully stripped; uniqueness of the stripped form forbids this.
            assert(mant(n) * p10(s2) == m2 * p10(scale(n)));
            if s2 == scale(n) {
                lemma_mul_cancel(mant(n), m2, p10(s2));
                assert(false);
            } else if scale(n) < s2 {
                let k = (s2 - scale(n)) as nat;
                lemma_p10_adds(scale(n), k);
                assert((mant(n) * p10(k)) * p10(scale(n)) == m2 * p10(scale(n)))
                    by (nonlinear_arith)
                    requires
                        mant(n) * (p10(scale(n)) * p10(k)) == m2 * p10(scale(n)),
                ;
                lemma_mul_cancel(mant(n) * p10(k), m2, p10(scale(n)));
                assert(m2 == (mant(n) * p10((k - 1) as nat)) * 10) by (nonlinear_arith)
                    requires
                        m2 == mant(n) * p10(k),
                        p10(k) == 10 * p10((k - 1) as nat),
                ;
                vstd::arithmetic::div_mod::lemma_mod_multiples_basic(
                    mant(n) * p10((k - 1) as nat),
                    10,
                );
                assert(false);
            } else {
                let k = (scale(n) - s2) as nat;
                lemma_p10_adds(s2, k);
                assert((m2 * p10(k)) * p10(s2) == mant(n) * p10(s2)) by (nonlinear_arith)
                    requires
                        m2 * (p10(s2) * p10(k)) == mant(n) * p10(s2),
                ;
                lemma_mul_cancel(m2 * p10(k), mant(n), p10(s2));
                assert(mant(n) == (m2 * p10((k - 1) as nat)) * 10) by (nonlinear_arith)
                    requires
                        mant(n) == m2 * p10(k),
                        p10(k) == 10 * p10((k - 1) as nat),
                ;
                vstd::arithmetic::div_mod::lemma_mod_multiples_basic(m2 * p10((k - 1) as nat), 10);
                assert(false);
            }
        }
    }
}

/// Ten to the `e`, executable.
pub fn pow10_i128(e: u32) -> (r: i128)
    requires
        e <= 38,
    ensures
        r == p10(e as nat),
        r >= 1,
{
    broadcast use lemma_p10_pos;

    let mut r: i128 = 1;
    let mut i: u32 = 0;
    while i < e
        invariant
            i <= e,
            e <= 38,
            r == p10(i as nat),
            r >= 1,
        decreases e - i,
    {
        proof {
            lemma_p10_le(i as nat, 37);
            assert(p10(37nat) == 10000000000000000000000000000000000000) by {
                reveal_with_fuel(p10, 40);
            }
            assert(p10((i + 1) as nat) == 10 * p10(i as nat));
        }
        r = r * 10;
        i = i + 1;
    }
    r
}

/// Canonicalise `m / 10^s`, or report that it leaves the supported range.
#[verifier::rlimit(50)]
pub fn norm(m: i128, s: u32) -> (r: Result<Number, Exceptions>)
    requires
        s <= 38,
    ensures
        match canon(m as int, s as nat) {
            Some(n) => r matches Ok(v) && v == n && num_wf(n),
            None => r matches Err(Exceptions::ValueError(_)),
        },
{
    let mut m: i128 = m;
    let mut s: u32 = s;
    let ghost m0 = m as int;
    let ghost s0 = s as nat;
    while s > 0 && m % 10 == 0
        invariant
            s <= 38,
            strip(m0, s0) == strip(m as int, s as nat),
            abs(m as int) <= abs(m0),
        decreases s,
    {
        m = m / 10;
        s = s - 1;
    }
    proof {
        assert(strip(m as int, s as nat) == (m as int, s as nat));
    }
    if s == 0 {
        if m >= i64::MIN as i128 && m <= i64::MAX as i128 {
            Ok(Number::Int(m as i64))
        } else {
            Err(Exceptions::ValueError(String::from_str("number out of range")))
        }
    } else {
        if m >= i64::MIN as i128 && m <= i64::MAX as i128 && s <= 18 {
            Ok(Number::Dec { m: m as i64, s })
        } else {
            Err(Exceptions::ValueError(String::from_str("number out of range")))
        }
    }
}

/// Whether a number is in canonical form, executable.
pub fn check_wf(n: &Number) -> (r: bool)
    ensures
        r == num_wf(*n),
{
    match n {
        Number::Int(_) => true,
        Number::Dec { m, s } => 1 <= *s && *s <= 18 && *m % 10 != 0,
    }
}

/// Bring two numbers over their common denominator `10^d`:
/// the value of `a` is `lift2(a, b).0 / p10(d)`, that of `b` is
/// `lift2(a, b).1 / p10(d)`, with `d = lift2(a, b).2`.
pub open spec fn lift2(a: Number, b: Number) -> (int, int, nat) {
    let d = if scale(a) >= scale(b) {
        scale(a)
    } else {
        scale(b)
    };
    (
        mant(a) * p10((d - scale(a)) as nat),
        mant(b) * p10((d - scale(b)) as nat),
        d,
    )
}

/// The canonical sum, if it is representable.
pub open spec fn add_canon(a: Number, b: Number) -> Option<Number> {
    canon(lift2(a, b).0 + lift2(a, b).1, lift2(a, b).2)
}

/// The canonical difference `a - b`, if it is representable.
pub open spec fn sub_canon(a: Number, b: Number) -> Option<Number> {
    canon(lift2(a, b).0 - lift2(a, b).1, lift2(a, b).2)
}

/// The canonical product, if it is representable.
pub open spec fn mul_canon(a: Number, b: Number) -> Option<Number> {
    canon(mant(a) * mant(b), scale(a) + scale(b))
}

/// Division truncated towards zero, as machine division does it
/// (for a non-negative dividend this is Euclidean division).
pub open spec fn trunc_div(p: int, q: int) -> int {
    if p >= 0 {
        p / q
    } else {
        -((-p) / q)
    }
}

/// The remainder of truncated division: its sign follows the dividend.
pub open spec fn trunc_rem(p: int, q: int) -> int {
    if p >= 0 {
        p % q
    } else {
        -((-p) % q)
    }
}

/// The canonical remainder of `a` modulo `b` over the common denominator.
pub open spec fn rem_canon(a: Number, b: Number) -> Option<Number> {
    canon(trunc_rem(lift2(a, b).0, lift2(a, b).1), lift2(a, b).2)
}

/// `|x * y| <= bx * by` when `|x| <= bx` and `|y| <= by`.
proof fn lemma_mul_abs_bound(x: int, y: int, bx: int, by: int)
    requires
        abs(x) <= bx,
        abs(y) <= by,
    ensures
        abs(x * y) <= bx * by,
{
    assert(abs(x * y) <= bx * by) by (nonlinear_arith)
        requires
            abs(x) <= bx,
            abs(y) <= by,
    ;
}

/// The common-denominator mantissas, executable.  Requires canonical
/// operands so the exponents stay within the supported range.
fn lift2_exec(a: &Number, b: &Number) -> (r: (i128, i128, u32))
    requires
        num_wf(*a),
        num_wf(*b),
    ensures
        (r.0 as int, r.1 as int, r.2 as nat) == lift2(*a, *b),
        abs(r.0 as int) <= 0x8000_0000_0000_0000 * p10(18),
        abs(r.1 as int) <= 0x8000_0000_0000_0000 * p10(18),
        r.2 <= 18,
{
    let (ma, sa) = match a {
        Number::Int(i) => (*i, 0u32),
        Number::Dec { m, s } => (*m, *s),
    };
    let (mb, sb) = match b {
        Number::Int(i) => (*i, 0u32),
        Number::Dec { m, s } => (*m, *s),
    };
    let d = if sa >= sb {
        sa
    } else {
        sb
    };
    let fa = pow10_i128(d - sa);
    let fb = pow10_i128(d - sb);
    proof {
        lemma_p10_le((d - sa) as nat, 18);
        lemma_p10_le((d - sb) as nat, 18);
        lemma_mul_abs_bound(ma as int, fa as int, 0x8000_0000_0000_0000, p10(18));
        lemma_mul_abs_bound(mb as int, fb as int, 0x8000_0000_0000_0000, p10(18));
        assert(p10(18nat) == 1000000000000000000) by {
            reveal_with_fuel(p10, 20);
        }
    }
    let pa = (ma as i128) * fa;
    let pb = (mb as i128) * fb;
    (pa, pb, d)
}

/// Exact addition or subtraction: returns exactly the canonical sum or
/// difference, or a value fault when none is representable (and on
/// operands that are not canonical).
pub fn add_sub_num(a: &Number, b: &Number, subtract: bool) -> (r: Result<Number, Exceptions>)
    ensures
        num_wf(*a) && num_wf(*b) && !subtract ==> match add_canon(*a, *b) {
            Some(n) => r matches Ok(v) && v == n && num_wf(n),
            None => r matches Err(Exceptions::ValueError(_)),
        },
        num_wf(*a) && num_wf(*b) && subtract ==> match sub_canon(*a, *b) {
            Some(n) => r matches Ok(v) && v == n && num_wf(n),
            None => r matches Err(Exceptions::ValueError(_)),
        },
        !(num_wf(*a) && num_wf(*b)) ==> r matches Err(Exceptions::ValueError(_)),
{
    if !check_wf(a) || !check_wf(b) {
        return Err(Exceptions::ValueError(String::from_str("malformed number")));
    }
    let (pa, pb, d) = lift2_exec(a, b);
    proof {
        assert(p10(18nat) == 1000000000000000000) by {
            reveal_with_fuel(p10, 20);
        }
    }
    if subtract {
        norm(pa - pb, d)
    } else {
        norm(pa + pb, d)
    }
}

/// Exact multiplication: returns exactly the canonical product, or a value
/// fault when none is representable.
pub fn mul_num(a: &Number, b: &Number) -> (r: Result<Number, Exceptions>)
    ensures
        num_wf(*a) && num_wf(*b) ==> match mul_canon(*a, *b) {
            Some(n) => r matches Ok(v) && v == n && num_wf(n),
            None => r matches Err(Exceptions::ValueError(_)),
        },
        !(num_wf(*a) && num_wf(*b)) ==> r matches Err(Exceptions::ValueError(_)),
{
    if !check_wf(a) || !check_wf(b) {
        return Err(Exceptions::ValueError(String::from_str("malformed number")));
    }
    let (ma, sa) = match a {
        Number::Int(i) => (*i, 0u32),
        Number::Dec { m, s } => (*m, *s),
    };
    let (mb, sb) = match b {
        Number::Int(i) => (*i, 0u32),
        Number::Dec { m, s } => (*m, *s),
    };
    proof {
        lemma_mul_abs_bound(ma as int, mb as int, 0x8000_0000_0000_0000, 0x8000_0000_0000_0000);
    }
    let p = (ma as i128) * (mb as i128);
    norm(p, sa + sb)
}

/// Exact remainder (`fmod`): `a - b * t` with `t` the quotient truncated
/// towards zero; a value fault on zero `b` or malformed operands.
pub fn rem_num(a: &Number, b: &Number) -> (r: Result<Number, Exceptions>)
    ensures
        num_wf(*a) && num_wf(*b) && mant(*b) != 0 ==> match rem_canon(*a, *b) {
            Some(n) => r matches Ok(v) && v == n && num_wf(n),
            None => r matches Err(Exceptions::ValueError(_)),
        },
        !(num_wf(*a) && num_wf(*b) && mant(*b) != 0) ==> r matches Err(Exceptions::ValueError(_)),
{
    if !check_wf(a) || !check_wf(b) {
        return Err(Exceptions::ValueError(String::from_str("malformed number")));
    }
    let (pa, pb, d) = lift2_exec(a, b);
    if pb == 0 {
        proof {
            broadcast use lemma_p10_pos;

            if mant(*b) != 0 {
                assert(pb as int == mant(*b) * p10((lift2(*a, *b).2 - scale(*b)) as nat));
                assert(mant(*b) * p10((lift2(*a, *b).2 - scale(*b)) as nat) != 0)
                    by (nonlinear_arith)
                    requires
                        mant(*b) != 0,
                        p10((lift2(*a, *b).2 - scale(*b)) as nat) >= 1,
                ;
            }
        }
        return Err(Exceptions::ValueError(String::from_str("division by zero")));
    }
    proof {
        assert(p10(18nat) == 1000000000000000000) by {
            reveal_with_fuel(p10, 20);
        }
    }
    let rem = pa % pb;
    proof {
        assert(rem as int == trunc_rem(pa as int, pb as int));
    }
    norm(rem, d)
}

/// Exact comparison: `a < b` on the denoted values.
pub fn lt_num(a: &Number, b: &Number) -> (r: bool)
    requires
        num_wf(*a),
        num_wf(*b),
    ensures
        r == (lift2(*a, *b).0 < lift2(*a, *b).1),
{
    let (pa, pb, _d) = lift2_exec(a, b);
    pa < pb
}

/// Exact comparison: `a <= b` on the denoted values.
pub fn le_num(a: &Number, b: &Number) -> (r: bool)
    requires
        num_wf(*a),
        num_wf(*b),
    ensures
        r == (lift2(*a, *b).0 <= lift2(*a, *b).1),
{
    let (pa, pb, _d) = lift2_exec(a, b);
    pa <= pb
}

/// Exact comparison: `a == b` on the denoted values.
pub fn eq_num(a: &Number, b: &Number) -> (r: bool)
    requires
        num_wf(*a),
        num_wf(*b),
    ensures
        r == (lift2(*a, *b).0 == lift2(*a, *b).1),
{
    let (pa, pb, _d) = lift2_exec(a, b);
    pa == pb
}

/// From `mant(n) * pb == pa * 10^s` follows the same equation on absolute
/// values.
proof fn lemma_abs_frac(n: Number, pa: int, pb: int)
    requires
        pb != 0,
        num_is_frac(n, pa, pb),
    ensures
        abs(mant(n)) * abs(pb) == abs(pa) * p10(scale(n)),
{
    broadcast use lemma_p10_pos;

    let mn = mant(n);
    let s = scale(n);
    assert(abs(mn) * abs(pb) == abs(pa) * p10(s)) by (nonlinear_arith)
        requires
            mn * pb == pa * p10(s),
            p10(s) >= 1,
            abs(mn) == if mn >= 0 { mn } else { -mn },
            abs(pa) == if pa >= 0 { pa } else { -pa },
            abs(pb) == if pb >= 0 { pb } else { -pb },
    ;
}

/// Exact division.  When `a / b` has a canonical representation the result
/// is exactly that number; division by zero, and quotients with no finite
/// decimal representation within the supported range, are value faults.
pub fn div_num(a: &Number, b: &Number) -> (r: Result<Number, Exceptions>)
    ensures
        num_wf(*a) && num_wf(*b) ==> {
            let pa = lift2(*a, *b).0;
            let pb = lift2(*a, *b).1;
            &&& (pb == 0 ==> r matches Err(Exceptions::ValueError(_)))
            &&& (pb != 0 ==> (r matches Ok(n) ==> num_wf(n) && num_is_frac(n, pa, pb)))
            &&& (pb != 0 ==> (forall|n: Number|
                num_wf(n) && num_is_frac(n, pa, pb) ==> r == Ok::<Number, Exceptions>(n)))
            &&& (r matches Err(e) ==> e matches Exceptions::ValueError(_))
        },
        !(num_wf(*a) && num_wf(*b)) ==> r matches Err(Exceptions::ValueError(_)),
{
    if !check_wf(a) || !check_wf(b) {
        return Err(Exceptions::ValueError(String::from_str("malformed number")));
    }
    let (pa, pb, _d) = lift2_exec(a, b);
    if pb == 0 {
        return Err(Exceptions::ValueError(String::from_str("division by zero")));
    }
    proof {
        assert(p10(18nat) == 1000000000000000000) by {
            reveal_with_fuel(p10, 20);
        }
    }
    let neg: bool = (pa < 0) != (pb < 0);
    let na: i128 = if pa >= 0 {
        pa
    } else {
        -pa
    };
    let nb: i128 = if pb >= 0 {
        pb
    } else {
        -pb
    };
    let mut m: i128 = na / nb;
    let mut rem: i128 = na % nb;
    let mut k: u32 = 0;
    proof {
        broadcast use lemma_p10_pos;

        assert(p10(0nat) == 1);
        vstd::arithmetic::div_mod::lemma_div_pos_is_pos(na as int, nb as int);
        vstd::arithmetic::div_mod::lemma_div_nonincreasing(na as int, nb as int);
        assert(m as int == na as int / nb as int);
        assert(rem as int == na as int % nb as int);
        vstd::arithmetic::div_mod::lemma_fundamental_div_mod(na as int, nb as int);
        assert(m * nb + rem == na * p10(0nat));
    }
    while rem != 0 && k < 18 && m <= 9223372036854775808i128
        invariant
            nb >= 1,
            na >= 0,
            na <= 0x8000_0000_0000_0000 * p10(18),
            nb <= 0x8000_0000_0000_0000 * p10(18),
            na as int == abs(pa as int),
            nb as int == abs(pb as int),
            m >= 0,
            0 <= rem < nb,
            k <= 18,
            m * nb + rem == na * p10(k as nat),
            forall|j: nat| j < k ==> #[trigger] ((na * p10(j)) % (nb as int)) != 0,
            p10(18nat) == 1000000000000000000,
        decreases 19 - k,
    {
        proof {
            broadcast use lemma_p10_pos;

            // The current remainder is the one of `na * 10^k` by `nb`, so a
            // nonzero remainder records that `nb` does not divide it.
            vstd::arithmetic::div_mod::lemma_fundamental_div_mod_converse(
                na * p10(k as nat),
                nb as int,
                m as int,
                rem as int,
            );
            assert((na * p10(k as nat)) % (nb as int) == rem);
            assert(m <= m * nb) by (nonlinear_arith)
                requires
                    nb >= 1,
                    m >= 0,
            ;
        }
        let rem10 = rem * 10;
        let dg = rem10 / nb;
        let rem2 = rem10 % nb;
        proof {
            vstd::arithmetic::div_mod::lemma_fundamental_div_mod(rem10 as int, nb as int);
            assert((m * 10 + dg) * nb + rem2 == na * p10((k + 1) as nat)) by (nonlinear_arith)
                requires
                    m * nb + rem == na * p10(k as nat),
                    rem10 == rem * 10,
                    rem10 == nb * dg + rem2,
                    p10((k + 1) as nat) == 10 * p10(k as nat),
            ;
            assert(dg >= 0 && dg <= rem10) by (nonlinear_arith)
                requires
                    nb >= 1,
                    rem10 >= 0,
                    dg == rem10 / nb,
            ;
        }
        m = m * 10 + dg;
        rem = rem2;
        k = k + 1;
    }
    let ghost s_pa = pa as int;
    let ghost s_pb = pb as int;
    let ghost s_na = na as int;
    let ghost s_nb = nb as int;
    let ghost s_m = m as int;
    let ghost s_k = k as nat;
    if rem == 0 {
        let sm: i128 = if neg {
            -m
        } else {
            m
        };
        proof {
            broadcast use lemma_p10_pos;

            assert(sm as int * s_pb == s_pa * p10(s_k)) by (nonlinear_arith)
                requires
                    s_m * s_nb == s_na * p10(s_k),
                    s_na == abs(s_pa),
                    s_nb == abs(s_pb),
                    abs(s_pa) == if s_pa >= 0 { s_pa } else { -s_pa },
                    abs(s_pb) == if s_pb >= 0 { s_pb } else { -s_pb },
                    s_pb != 0,
                    (sm as int) == if (s_pa < 0) != (s_pb < 0) { -s_m } else { s_m },
            ;
        }
        let out = norm(sm, k);
        proof {
            match canon(sm as int, s_k) {
                Some(n) => {
                    lemma_canon(sm as int, s_k);
                    // n == sm / 10^k == pa / pb.
                    assert(mant(n) * p10(s_k) * s_pb == sm as int * p10(scale(n)) * s_pb)
                        by (nonlinear_arith)
                        requires
                            mant(n) * p10(s_k) == sm as int * p10(scale(n)),
                    ;
                    assert(mant(n) * s_pb * p10(s_k) == s_pa * p10(scale(n)) * p10(s_k))
                        by (nonlinear_arith)
                        requires
                            mant(n) * p10(s_k) * s_pb == sm as int * p10(scale(n)) * s_pb,
                            sm as int * s_pb == s_pa * p10(s_k),
                    ;
                    broadcast use lemma_p10_pos;

                    lemma_mul_cancel(mant(n) * s_pb, s_pa * p10(scale(n)), p10(s_k));
                    assert(num_is_frac(n, s_pa, s_pb));
                    // And any canonical nn with the same value is n itself.
                    assert forall|nn: Number|
                        num_wf(nn) && num_is_frac(nn, s_pa, s_pb) implies nn == n by {
                        lemma_canonical_unique_frac(n, nn, s_pa, s_pb);
                    }
                },
                None => {
                    // No canonical number denotes sm / 10^k, hence none
                    // denotes pa / pb either.
                    assert forall|n: Number|
                        num_wf(n) && num_is_frac(n, s_pa, s_pb) implies false by {
                        broadcast use lemma_p10_pos;

                        assert(mant(n) * s_pb * p10(s_k) == s_pa * p10(s_k) * p10(scale(n)))
                            by (nonlinear_arith)
                            requires
                                mant(n) * s_pb == s_pa * p10(scale(n)),
                        ;
                        assert(mant(n) * p10(s_k) * s_pb == sm as int * p10(scale(n)) * s_pb)
                            by (nonlinear_arith)
                            requires
                                mant(n) * s_pb * p10(s_k) == s_pa * p10(s_k) * p10(scale(n)),
                                sm as int * s_pb == s_pa * p10(s_k),
                        ;
                        lemma_mul_cancel_nonzero(
                            mant(n) * p10(s_k),
                            sm as int * p10(scale(n)),
                            s_pb,
                        );
                        lemma_canon_complete(sm as int, s_k, n);
                    }
                },
            }
        }
        out
    } else {
        proof {
            broadcast use lemma_p10_pos;

            vstd::arithmetic::div_mod::lemma_fundamental_div_mod_converse(
                s_na * p10(s_k),
                s_nb,
                s_m,
                rem as int,
            );
            assert((s_na * p10(s_k)) % s_nb != 0);
            assert forall|n: Number|
                num_wf(n) && num_is_frac(n, s_pa, s_pb) implies false by {
                lemma_abs_frac(n, s_pa, s_pb);
                let mn_abs = abs(mant(n)) as int;
                let s = scale(n);
                assert((s_na * p10(s)) % s_nb == 0) by {
                    vstd::arithmetic::div_mod::lemma_mod_multiples_basic(mn_abs, s_nb);
                }
                if s < s_k {
                    assert((s_na * p10(s)) % s_nb != 0);
                } else if s == s_k {
                    assert((s_na * p10(s)) % s_nb != 0);
                } else {
                    // s > k, so |mant(n)| is at least m, which exceeds i64.
                    assert(m > 9223372036854775808i128 || k >= 18);
                    if k >= 18 {
                        assert(s <= 18);
                        assert(false);
                    } else {
                        lemma_p10_adds(s_k, (s - s_k) as nat);
                        assert(s_k + (s - s_k) as nat == s);
                        assert(p10(s) == p10(s_k) * p10((s - s_k) as nat));
                        assert(mn_abs * s_nb == s_na * p10(s));
                        assert(s_na * p10(s) == (s_m * s_nb + rem as int) * p10((s - s_k) as nat))
                            by (nonlinear_arith)
                            requires
                                p10(s) == p10(s_k) * p10((s - s_k) as nat),
                                s_na * p10(s_k) == s_m * s_nb + rem as int,
                        ;
                        assert(mn_abs * s_nb >= s_m * s_nb) by (nonlinear_arith)
                            requires
                                mn_abs * s_nb == (s_m * s_nb + rem as int) * p10(
                                    (s - s_k) as nat,
                                ),
                                rem as int >= 0,
                                s_nb >= 1,
                                s_m >= 0,
                                p10((s - s_k) as nat) >= 1,
                        ;
                        lemma_mul_cancel_le(s_m, mn_abs, s_nb);
                        assert(mn_abs > 9223372036854775808);
                        assert(false);
                    }
                }
            }
        }
        Err(Exceptions::ValueError(
            String::from_str("quotient has no finite decimal representation in range"),
        ))
    }
}

/// Cancellation with a nonzero (possibly negative) common factor.
proof fn lemma_mul_cancel_nonzero(a: int, b: int, c: int)
    requires
        c != 0,
        a * c == b * c,
    ensures
        a == b,
{
    assert(a == b) by (nonlinear_arith)
        requires
            c != 0,
            a * c == b * c,
    ;
}

/// Order cancellation: from `a * c <= b * c` with `c >= 1` follows `a <= b`.
proof fn lemma_mul_cancel_le(a: int, b: int, c: int)
    requires
        c >= 1,
        a * c <= b * c,
    ensures
        a <= b,
{
    assert(a <= b) by (nonlinear_arith)
        requires
            c >= 1,
            a * c <= b * c,
    ;
}

/// Two canonical numbers denoting the same fraction are equal.
proof fn lemma_canonical_unique_frac(a: Number, b: Number, p: int, q: int)
    requires
        q != 0,
        num_wf(a),
        num_wf(b),
        num_is_frac(a, p, q),
        num_is_frac(b, p, q),
    ensures
        a == b,
{
    broadcast use lemma_p10_pos;

    assert(mant(a) * p10(scale(b)) * q == mant(b) * p10(scale(a)) * q) by (nonlinear_arith)
        requires
            mant(a) * q == p * p10(scale(a)),
            mant(b) * q == p * p10(scale(b)),
    ;
    lemma_mul_cancel_nonzero(mant(a) * p10(scale(b)), mant(b) * p10(scale(a)), q);
    lemma_canonical_unique(a, b);
}

/// Integer exponentiation.
pub open spec fn pow_int(b: int, e: nat) -> int
    decreases e,
{
    if e == 0 {
        1
    } else {
        b * pow_int(b, (e - 1) as nat)
    }
}

/// The canonical `j`-th power of `a`: the `mul_canon` fold from one, or
/// nothing once a step leaves the representable range.
pub open spec fn pow_canon(a: Number, j: nat) -> Option<Number>
    decreases j,
{
    if j == 0 {
        Some(Number::Int(1))
    } else {
        match pow_canon(a, (j - 1) as nat) {
            Some(acc) => mul_canon(acc, a),
            None => None,
        }
    }
}

/// Once a power leaves the range it never comes back.
proof fn lemma_pow_canon_none(a: Number, i: nat, j: nat)
    requires
        i <= j,
        pow_canon(a, i) is None,
    ensures
        pow_canon(a, j) is None,
    decreases j - i,
{
    if i < j {
        lemma_pow_canon_none(a, i, (j - 1) as nat);
    }
}

/// Powers of a nonzero number are nonzero.
proof fn lemma_pow_canon_nonzero(a: Number, j: nat)
    requires
        mant(a) != 0,
    ensures
        pow_canon(a, j) matches Some(p) ==> mant(p) != 0,
    decreases j,
{
    broadcast use lemma_p10_pos;

    if j > 0 {
        lemma_pow_canon_nonzero(a, (j - 1) as nat);
        match pow_canon(a, (j - 1) as nat) {
            Some(acc) => {
                match mul_canon(acc, a) {
                    Some(p) => {
                        lemma_canon(mant(acc) * mant(a), scale(acc) + scale(a));
                        lemma_p10_adds(scale(acc), scale(a));
                        // p denotes acc * a; a zero mantissa would make the
                        // nonzero product vanish.
                        if mant(p) == 0 {
                            assert(mant(p) * p10(scale(acc) + scale(a)) == 0) by (nonlinear_arith)
                                requires
                                    mant(p) == 0,
                            ;
                            assert((mant(acc) * mant(a)) * p10(scale(p)) != 0) by (nonlinear_arith)
                                requires
                                    mant(acc) != 0,
                                    mant(a) != 0,
                                    p10(scale(p)) >= 1,
                            ;
                            assert(false);
                        }
                    },
                    None => {},
                }
            },
            None => {},
        }
    }
}

/// Fractions multiply: if `z` denotes the product of the values of `x` and
/// `y`, it denotes the product of any fractions they denote.
proof fn lemma_frac_mul(z: Number, x: Number, y: Number, px: int, qx: int, py: int, qy: int)
    requires
        num_is_frac(x, px, qx),
        num_is_frac(y, py, qy),
        num_is_frac(z, mant(x) * mant(y), p10(scale(x) + scale(y))),
    ensures
        num_is_frac(z, px * py, qx * qy),
{
    broadcast use lemma_p10_pos;

    lemma_p10_adds(scale(x), scale(y));
    let u = mant(z);
    let mx = mant(x);
    let my = mant(y);
    let big = p10(scale(x)) * p10(scale(y));
    assert(u * big == (mx * my) * p10(scale(z)));
    assert((u * (qx * qy)) * big == ((mx * qx) * (my * qy)) * p10(scale(z))) by (nonlinear_arith)
        requires
            u * big == (mx * my) * p10(scale(z)),
    ;
    assert(((mx * qx) * (my * qy)) * p10(scale(z)) == ((px * py) * p10(scale(z))) * big)
        by (nonlinear_arith)
        requires
            mx * qx == px * p10(scale(x)),
            my * qy == py * p10(scale(y)),
            big == p10(scale(x)) * p10(scale(y)),
    ;
    assert(big >= 1) by (nonlinear_arith)
        requires
            big == p10(scale(x)) * p10(scale(y)),
            p10(scale(x)) >= 1,
            p10(scale(y)) >= 1,
    ;
    lemma_mul_cancel(u * (qx * qy), (px * py) * p10(scale(z)), big);
}

/// Lifting `1` against `b` gives the pair `(10^scale(b), mant(b))`.
proof fn lemma_lift2_one(b: Number)
    ensures
        lift2(Number::Int(1), b).0 == p10(scale(b)),
        lift2(Number::Int(1), b).1 == mant(b),
        lift2(Number::Int(1), b).2 == scale(b),
{
    let one = Number::Int(1);
    assert(p10(0nat) == 1);
    assert(scale(one) == 0);
    assert(mant(one) == 1);
    if scale(b) == 0 {
        assert(lift2(one, b).2 == 0);
        assert(lift2(one, b).0 == 1 * p10(0nat));
        assert(lift2(one, b).1 == mant(b) * p10(0nat));
    } else {
        assert(lift2(one, b).2 == scale(b));
        assert(lift2(one, b).0 == 1 * p10((scale(b) - 0) as nat));
        assert((scale(b) - 0) as nat == scale(b));
        assert(lift2(one, b).1 == mant(b) * p10((scale(b) - scale(b)) as nat));
        assert((scale(b) - scale(b)) as nat == 0nat);
        assert(mant(b) * 1 == mant(b)) by (nonlinear_arith);
        assert(1 * p10(scale(b)) == p10(scale(b))) by (nonlinear_arith);
    }
}

/// Exact exponentiation with an integral exponent: for `k >= 0` the
/// result is exactly the canonical iterated product `pow_canon(a, k)`,
/// owed whenever that is representable; for `k < 0` it is exactly the
/// canonical reciprocal of `pow_canon(a, -k)`, owed whenever both exist.
/// A fractional exponent, a negative exponent on zero, and values out of
/// range are value faults.
pub fn pow_num(a: &Number, e: &Number) -> (r: Result<Number, Exceptions>)
    ensures
        num_wf(*a) && num_wf(*e) ==> {
            &&& (scale(*e) != 0 ==> r matches Err(Exceptions::ValueError(_)))
            &&& ((scale(*e) == 0 && mant(*e) >= 0) ==> match pow_canon(*a, mant(*e) as nat) {
                Some(n) => r matches Ok(v) && v == n && num_wf(n),
                None => r matches Err(Exceptions::ValueError(_)),
            })
            &&& ((scale(*e) == 0 && mant(*e) < 0 && mant(*a) == 0) ==> r matches Err(
                Exceptions::ValueError(_),
            ))
            &&& ((scale(*e) == 0 && mant(*e) < 0 && mant(*a) != 0) ==> match pow_canon(
                *a,
                (-mant(*e)) as nat,
            ) {
                Some(p) => {
                    &&& (forall|n: Number|
                        num_wf(n) && num_is_frac(n, p10(scale(p)), mant(p)) ==> r == Ok::<
                            Number,
                            Exceptions,
                        >(n))
                    &&& (r matches Ok(n) ==> num_wf(n) && num_is_frac(n, p10(scale(p)), mant(p)))
                },
                None => r matches Err(Exceptions::ValueError(_)),
            })
            &&& (r matches Err(v) ==> v matches Exceptions::ValueError(_))
        },
        !(num_wf(*a) && num_wf(*e)) ==> r matches Err(Exceptions::ValueError(_)),
{
    if !check_wf(a) || !check_wf(e) {
        return Err(Exceptions::ValueError(String::from_str("malformed number")));
    }
    let k: i64 = match e {
        Number::Int(i) => *i,
        Number::Dec { .. } => {
            return Err(
                Exceptions::ValueError(String::from_str("expt expects an integral exponent")),
            );
        },
    };
    if k < 0 {
        let base_zero = match a {
            Number::Int(v) => *v == 0,
            _ => false,
        };
        if base_zero {
            return Err(Exceptions::ValueError(String::from_str("division by zero")));
        }
    }
    let j: i128 = if k >= 0 {
        k as i128
    } else {
        -(k as i128)
    };
    let ghost jn = j as nat;
    let mut acc = Number::Int(1);
    let mut i: i128 = 0;
    proof {
        assert(p10(0nat) == 1);
        assert(pow_int(mant(*a), 0) == 1);
        assert(pow_int(p10(scale(*a)), 0) == 1);
    }
    let mut failed = false;
    while i < j && !failed
        invariant
            0 <= i <= j,
            jn == j as nat,
            !failed ==> num_wf(acc),
            !failed ==> pow_canon(*a, i as nat) == Some(acc),
            !failed ==> num_is_frac(acc, pow_int(mant(*a), i as nat), pow_int(
                p10(scale(*a)),
                i as nat,
            )),
            failed ==> pow_canon(*a, jn) is None,
            num_wf(*a),
        decreases j - i, (if failed { 0int } else { 1int }),
    {
        match mul_num(&acc, a) {
            Ok(next) => {
                proof {
                    match mul_canon(acc, *a) {
                        Some(n2) => {
                            lemma_canon(mant(acc) * mant(*a), scale(acc) + scale(*a));
                            lemma_frac_mul(
                                n2,
                                acc,
                                *a,
                                pow_int(mant(*a), i as nat),
                                pow_int(p10(scale(*a)), i as nat),
                                mant(*a),
                                p10(scale(*a)),
                            );
                            assert(pow_int(mant(*a), (i + 1) as nat) == mant(*a) * pow_int(
                                mant(*a),
                                i as nat,
                            ));
                            assert(pow_int(mant(*a), i as nat) * mant(*a) == mant(*a) * pow_int(
                                mant(*a),
                                i as nat,
                            )) by (nonlinear_arith);
                            assert(pow_int(p10(scale(*a)), i as nat) * p10(scale(*a)) == p10(
                                scale(*a),
                            ) * pow_int(p10(scale(*a)), i as nat)) by (nonlinear_arith);
                        },
                        None => {
                            assert(false);
                        },
                    }
                }
                acc = next;
                i = i + 1;
            },
            Err(_) => {
                proof {
                    assert(pow_canon(*a, (i + 1) as nat) is None);
                    lemma_pow_canon_none(*a, (i + 1) as nat, jn);
                }
                failed = true;
            },
        }
    }
    if failed {
        return Err(Exceptions::ValueError(String::from_str("number out of range")));
    }
    if k >= 0 {
        Ok(acc)
    } else {
        proof {
            lemma_pow_canon_nonzero(*a, jn);
        }
        match acc {
            Number::Int(0) => Err(Exceptions::ValueError(String::from_str("division by zero"))),
            _ => {
                let one = Number::Int(1);
                let out = div_num(&one, &acc);
                proof {
                    if mant(acc) != 0 {
                        broadcast use lemma_p10_pos;

                        let pa = lift2(one, acc).0;
                        let pb = lift2(one, acc).1;
                        lemma_lift2_one(acc);
                        assert(pa == p10(scale(acc)) && pb == mant(acc));
                        match out {
                            Ok(n) => {
                                // n denotes 10^s(acc) / mant(acc); turn that into
                                // the stated reciprocal fraction of a^|k|.
                                let pj = pow_int(mant(*a), jn);
                                let qj = pow_int(p10(scale(*a)), jn);
                                assert(mant(acc) * qj == pj * p10(scale(acc)));
                                assert(mant(n) * pj == qj * p10(scale(n))) by (nonlinear_arith)
                                    requires
                                        mant(n) * mant(acc) == p10(scale(acc)) * p10(scale(n)),
                                        mant(acc) * qj == pj * p10(scale(acc)),
                                        mant(acc) != 0,
                                        p10(scale(acc)) >= 1,
                                ;
                            },
                            Err(_) => {},
                        }
                    } else {
                        assert(acc matches Number::Int(0));
                    }
                }
                out
            },
        }
    }
}

/// What the canonical sum denotes: `add_canon(a, b)` is the canonical
/// number with value `a + b`, read as the fraction
/// `(mant(a)·10^sb + mant(b)·10^sa) / (10^sa·10^sb)`.
pub proof fn lemma_add_canon_value(a: Number, b: Number, n: Number)
    requires
        add_canon(a, b) == Some(n),
    ensures
        num_wf(n),
        mant(n) * (p10(scale(a)) * p10(scale(b))) == (mant(a) * p10(scale(b)) + mant(b) * p10(
            scale(a),
        )) * p10(scale(n)),
{
    lemma_lift2_value(a, b, n, lift2(a, b).0 + lift2(a, b).1);
}

/// What the canonical difference denotes, in the same fraction form.
pub proof fn lemma_sub_canon_value(a: Number, b: Number, n: Number)
    requires
        sub_canon(a, b) == Some(n),
    ensures
        num_wf(n),
        mant(n) * (p10(scale(a)) * p10(scale(b))) == (mant(a) * p10(scale(b)) - mant(b) * p10(
            scale(a),
        )) * p10(scale(n)),
{
    lemma_lift2_value(a, b, n, lift2(a, b).0 - lift2(a, b).1);
}

/// What the canonical product denotes: the fraction
/// `(mant(a)·mant(b)) / (10^sa·10^sb)`.
pub proof fn lemma_mul_canon_value(a: Number, b: Number, n: Number)
    requires
        mul_canon(a, b) == Some(n),
    ensures
        num_wf(n),
        mant(n) * (p10(scale(a)) * p10(scale(b))) == (mant(a) * mant(b)) * p10(scale(n)),
{
    lemma_canon(mant(a) * mant(b), scale(a) + scale(b));
    lemma_p10_adds(scale(a), scale(b));
}

/// A value over the common denominator `10^d` re-reads over the product
/// denominator `10^sa · 10^sb`.
proof fn lemma_lift2_value(a: Number, b: Number, n: Number, p: int)
    requires
        canon(p, lift2(a, b).2) == Some(n),
        p == lift2(a, b).0 + lift2(a, b).1 || p == lift2(a, b).0 - lift2(a, b).1,
    ensures
        num_wf(n),
        p == lift2(a, b).0 + lift2(a, b).1 ==> mant(n) * (p10(scale(a)) * p10(scale(b))) == (mant(
            a,
        ) * p10(scale(b)) + mant(b) * p10(scale(a))) * p10(scale(n)),
        p == lift2(a, b).0 - lift2(a, b).1 ==> mant(n) * (p10(scale(a)) * p10(scale(b))) == (mant(
            a,
        ) * p10(scale(b)) - mant(b) * p10(scale(a))) * p10(scale(n)),
{
    broadcast use lemma_p10_pos;

    let sa = scale(a);
    let sb = scale(b);
    let d = lift2(a, b).2;
    let pa = lift2(a, b).0;
    let pb = lift2(a, b).1;
    lemma_canon(p, d);
    // pa * 10^sa == mant(a) * 10^d, and symmetrically for b.
    if sa >= sb {
        lemma_p10_adds((d - sa) as nat, sa);
        lemma_p10_adds((d - sb) as nat, sb);
        assert((d - sa) as nat + sa == d && (d - sb) as nat + sb == d);
    } else {
        lemma_p10_adds((d - sa) as nat, sa);
        lemma_p10_adds((d - sb) as nat, sb);
        assert((d - sa) as nat + sa == d && (d - sb) as nat + sb == d);
    }
    assert(pa * p10(sa) == mant(a) * p10(d)) by (nonlinear_arith)
        requires
            pa == mant(a) * p10((d - sa) as nat),
            p10((d - sa) as nat) * p10(sa) == p10(d),
    ;
    assert(pb * p10(sb) == mant(b) * p10(d)) by (nonlinear_arith)
        requires
            pb == mant(b) * p10((d - sb) as nat),
            p10((d - sb) as nat) * p10(sb) == p10(d),
    ;
    // Scale the canonical equation by 10^sa · 10^sb and cancel 10^d.
    let kk = p10(sa) * p10(sb);
    assert(pa * kk == (mant(a) * p10(sb)) * p10(d)) by (nonlinear_arith)
        requires
            pa * p10(sa) == mant(a) * p10(d),
            kk == p10(sa) * p10(sb),
    ;
    assert(pb * kk == (mant(b) * p10(sa)) * p10(d)) by (nonlinear_arith)
        requires
            pb * p10(sb) == mant(b) * p10(d),
            kk == p10(sa) * p10(sb),
    ;
    assert((mant(n) * kk) * p10(d) == (p * kk) * p10(scale(n))) by (nonlinear_arith)
        requires
            mant(n) * p10(d) == p * p10(scale(n)),
    ;
    if p == pa + pb {
        assert((p * kk) == (mant(a) * p10(sb) + mant(b) * p10(sa)) * p10(d)) by (nonlinear_arith)
            requires
                p == pa + pb,
                pa * kk == (mant(a) * p10(sb)) * p10(d),
                pb * kk == (mant(b) * p10(sa)) * p10(d),
        ;
        assert((mant(n) * kk) * p10(d) == ((mant(a) * p10(sb) + mant(b) * p10(sa)) * p10(scale(n)))
            * p10(d)) by (nonlinear_arith)
            requires
                (mant(n) * kk) * p10(d) == (p * kk) * p10(scale(n)),
                p * kk == (mant(a) * p10(sb) + mant(b) * p10(sa)) * p10(d),
        ;
        lemma_mul_cancel(
            mant(n) * kk,
            (mant(a) * p10(sb) + mant(b) * p10(sa)) * p10(scale(n)),
            p10(d),
        );
    }
    if p == pa - pb {
        assert((p * kk) == (mant(a) * p10(sb) - mant(b) * p10(sa)) * p10(d)) by (nonlinear_arith)
            requires
                p == pa - pb,
                pa * kk == (mant(a) * p10(sb)) * p10(d),
                pb * kk == (mant(b) * p10(sa)) * p10(d),
        ;
        assert((mant(n) * kk) * p10(d) == ((mant(a) * p10(sb) - mant(b) * p10(sa)) * p10(scale(n)))
            * p10(d)) by (nonlinear_arith)
            requires
                (mant(n) * kk) * p10(d) == (p * kk) * p10(scale(n)),
                p * kk == (mant(a) * p10(sb) - mant(b) * p10(sa)) * p10(d),
        ;
        lemma_mul_cancel(
            mant(n) * kk,
            (mant(a) * p10(sb) - mant(b) * p10(sa)) * p10(scale(n)),
            p10(d),
        );
    }
}

/// The canonical number denoting the fraction `p / q`, if any: by
/// uniqueness of canonical representations there is at most one.
pub open spec fn quot_canon(p: int, q: int) -> Option<Number> {
    if exists|n: Number| num_wf(n) && num_is_frac(n, p, q) {
        Some(choose|n: Number| num_wf(n) && num_is_frac(n, p, q))
    } else {
        None
    }
}

/// Lifting to the common denominator is symmetric.
pub proof fn lemma_lift2_swap(a: Number, b: Number)
    ensures
        lift2(b, a).0 == lift2(a, b).1,
        lift2(b, a).1 == lift2(a, b).0,
        lift2(b, a).2 == lift2(a, b).2,
{
}

/// A canonical number is an `Int` exactly when its value is whole.
pub proof fn lemma_canonical_int_iff(n: Number)
    requires
        num_wf(n),
    ensures
        (n matches Number::Int(_)) <==> mant(n) % p10(scale(n)) == 0,
{
    broadcast use lemma_p10_pos;

    match n {
        Number::Int(i) => {
            assert(p10(0nat) == 1);
            assert((i as int) % 1 == 0);
        },
        Number::Dec { m, s } => {
            if (m as int) % p10(s as nat) == 0 {
                let t = (m as int) / p10(s as nat);
                vstd::arithmetic::div_mod::lemma_fundamental_div_mod(m as int, p10(s as nat));
                assert(m as int == p10(s as nat) * t);
                assert(p10(s as nat) == 10 * p10((s - 1) as nat));
                assert(m as int == (p10((s - 1) as nat) * t) * 10) by (nonlinear_arith)
                    requires
                        m as int == (10 * p10((s - 1) as nat)) * t,
                ;
                vstd::arithmetic::div_mod::lemma_mod_multiples_basic(p10((s - 1) as nat) * t, 10);
                assert(false);
            }
        },
    }
}

/// The value truncated towards zero.
pub open spec fn num_trunc(n: Number) -> int {
    trunc_div(mant(n), p10(scale(n)))
}

/// Truncate a canonical number to an integer, towards zero.
pub fn trunc_num(n: &Number) -> (r: i64)
    requires
        num_wf(*n),
    ensures
        r as int == num_trunc(*n),
{
    match n {
        Number::Int(i) => *i,
        Number::Dec { m, s } => {
            let f = pow10_i128(*s);
            proof {
                lemma_p10_le(*s as nat, 18);
                assert(p10(18nat) == 1000000000000000000) by {
                    reveal_with_fuel(p10, 20);
                }
            }
            let q = (*m as i128) / f;
            proof {
                assert(q as int == trunc_div(*m as int, f as int));
                assert(abs(trunc_div(*m as int, f as int)) <= abs(*m as int)) by (nonlinear_arith)
                    requires
                        f >= 1,
                ;
            }
            q as i64
        },
    }
}

/// The canonical absolute value, if representable (`|i64::MIN|` is not).
pub fn abs_num(n: &Number) -> (r: Result<Number, Exceptions>)
    ensures
        num_wf(*n) ==> match canon(abs(mant(*n)) as int, scale(*n)) {
            Some(v) => r matches Ok(w) && w == v && num_wf(v),
            None => r matches Err(Exceptions::ValueError(_)),
        },
        !num_wf(*n) ==> r matches Err(Exceptions::ValueError(_)),
{
    if !check_wf(n) {
        return Err(Exceptions::ValueError(String::from_str("malformed number")));
    }
    match n {
        Number::Int(i) => {
            let v = *i as i128;
            norm(if v >= 0 { v } else { -v }, 0)
        },
        Number::Dec { m, s } => {
            let v = *m as i128;
            norm(if v >= 0 { v } else { -v }, *s)
        },
    }
}

} // verus!
