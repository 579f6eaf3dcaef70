//! The printed representation of expressions: integers without a decimal
//! point, decimals with one, booleans as `#t`/`#f`, lists space-joined in
//! parentheses, callables as opaque placeholder tokens.

use vstd::prelude::*;
use vstd::math::abs;
use crate::types::{push_char, Atom, Exp, ExpV, Number};

verus! {

broadcast use
    vstd::std_specs::vec::axiom_vec_index_decreases,
    vstd::seq::axiom_seq_index_decreases,
    vstd::seq::axiom_seq_subrange_decreases;

/// The character for one decimal digit.
pub open spec fn digit_char(d: int) -> char {
    if d == 0 {
        '0'
    } else if d == 1 {
        '1'
    } else if d == 2 {
        '2'
    } else if d == 3 {
        '3'
    } else if d == 4 {
        '4'
    } else if d == 5 {
        '5'
    } else if d == 6 {
        '6'
    } else if d == 7 {
        '7'
    } else if d == 8 {
        '8'
    } else {
        '9'
    }
}

/// The decimal digits of a non-negative integer, most significant first.
pub open spec fn dec_digits(n: int) -> Seq<char>
    decreases n,
{
    if n < 10 {
        seq![digit_char(n)]
    } else {
        dec_digits(n / 10).push(digit_char(n % 10))
    }
}

/// An integer as printed: a minus sign for negatives, then the digits.
pub open spec fn int_chars(i: int) -> Seq<char> {
    if i < 0 {
        seq!['-'] + dec_digits(-i)
    } else {
        dec_digits(i)
    }
}

/// A decimal `m * 10^-s` as printed: the digits of `|m|`, left-padded with
/// zeros to more than `s` places, with the point `s` places from the right.
pub open spec fn dec_chars(m: int, s: nat) -> Seq<char> {
    let ds = dec_digits(abs(m) as int);
    let padded = if ds.len() <= s {
        seq!['0'].add(Seq::new((s - ds.len()) as nat, |i: int| '0')) + ds
    } else {
        ds
    };
    let point = padded.len() - s;
    let body = padded.subrange(0, point as int) + seq!['.'] + padded.subrange(
        point as int,
        padded.len() as int,
    );
    if m < 0 {
        seq!['-'] + body
    } else {
        body
    }
}

/// A number as printed.
pub open spec fn num_chars(n: Number) -> Seq<char> {
    match n {
        Number::Int(i) => int_chars(i as int),
        Number::Dec { m, s } => dec_chars(m as int, s as nat),
    }
}

/// An expression as printed.
pub open spec fn printed(v: ExpV) -> Seq<char>
    decreases v,
{
    match v {
        ExpV::Num(n) => num_chars(n),
        ExpV::Bool(b) => if b {
            seq!['#', 't']
        } else {
            seq!['#', 'f']
        },
        ExpV::Sym(s) => s,
        ExpV::Str(s) => s,
        ExpV::List(es) => seq!['('] + printed_items(es) + seq![')'],
        ExpV::Func(_) => seq!['F', 'u', 'n', 'c'],
        ExpV::Proc { .. } => seq!['P', 'r', 'o', 'c'],
    }
}

/// A sequence of expressions as printed, joined by single spaces.
pub open spec fn printed_items(es: Seq<ExpV>) -> Seq<char>
    decreases es,
{
    if es.len() == 0 {
        Seq::empty()
    } else if es.len() == 1 {
        printed(es[0])
    } else {
        printed(es[0]) + seq![' '] + printed_items(es.subrange(1, es.len() as int))
    }
}

/// Append the decimal digits of `n` to `out`.
pub fn push_digits(n: u64, out: &mut Vec<char>)
    ensures
        final(out)@ == old(out)@ + dec_digits(n as int),
    decreases n,
{
    if n < 10 {
        let c: char = match n {
            0 => '0',
            1 => '1',
            2 => '2',
            3 => '3',
            4 => '4',
            5 => '5',
            6 => '6',
            7 => '7',
            8 => '8',
            _ => '9',
        };
        out.push(c);
        proof {
            assert(final(out)@ =~= old(out)@ + dec_digits(n as int));
        }
    } else {
        push_digits(n / 10, out);
        let d = n % 10;
        let c: char = match d {
            0 => '0',
            1 => '1',
            2 => '2',
            3 => '3',
            4 => '4',
            5 => '5',
            6 => '6',
            7 => '7',
            8 => '8',
            _ => '9',
        };
        out.push(c);
        proof {
            assert(final(out)@ =~= old(out)@ + dec_digits(n as int));
        }
    }
}

/// Append a printed number to `out`.
#[verifier::rlimit(100)]
fn push_number(n: &Number, out: &mut Vec<char>)
    ensures
        final(out)@ == old(out)@ + num_chars(*n),
{
    match n {
        Number::Int(i) => {
            let neg = *i < 0;
            let mag: u64 = if *i < 0 {
                (-(*i as i128)) as u64
            } else {
                *i as u64
            };
            if neg {
                out.push('-');
            }
            push_digits(mag, out);
            proof {
                assert(final(out)@ =~= old(out)@ + num_chars(*n));
            }
        },
        Number::Dec { m, s } => {
            let neg = *m < 0;
            let mag: u64 = if *m < 0 {
                (-(*m as i128)) as u64
            } else {
                *m as u64
            };
            let mut ds: Vec<char> = Vec::new();
            push_digits(mag, &mut ds);
            let mut padded: Vec<char> = Vec::new();
            if ds.len() <= *s as usize {
                padded.push('0');
                let mut i: usize = 0;
                let pad = *s as usize - ds.len();
                while i < pad
                    invariant
                        i <= pad,
                        padded@ == seq!['0'] + Seq::new(i as nat, |j: int| '0'),
                    decreases pad - i,
                {
                    padded.push('0');
                    proof {
                        assert(padded@ =~= seq!['0'] + Seq::new((i + 1) as nat, |j: int| '0'));
                    }
                    i = i + 1;
                }
                let mut k: usize = 0;
                while k < ds.len()
                    invariant
                        k <= ds@.len(),
                        padded@ == seq!['0'] + Seq::new(((*s as usize) - ds@.len()) as nat, |j: int| '0')
                            + ds@.subrange(0, k as int),
                        ds@.len() <= *s as usize,
                    decreases ds.len() - k,
                {
                    padded.push(ds[k]);
                    proof {
                        assert(ds@.subrange(0, (k + 1) as int) =~= ds@.subrange(0, k as int)
                            + seq![ds@[k as int]]);
                        assert(padded@ =~= seq!['0'] + Seq::new(
                            ((*s as usize) - ds@.len()) as nat,
                            |j: int| '0',
                        ) + ds@.subrange(0, (k + 1) as int));
                    }
                    k = k + 1;
                }
                proof {
                    assert(ds@.subrange(0, ds@.len() as int) =~= ds@);
                }
            } else {
                let mut k: usize = 0;
                while k < ds.len()
                    invariant
                        k <= ds@.len(),
                        padded@ == ds@.subrange(0, k as int),
                    decreases ds.len() - k,
                {
                    padded.push(ds[k]);
                    proof {
                        assert(ds@.subrange(0, (k + 1) as int) =~= ds@.subrange(0, k as int)
                            + seq![ds@[k as int]]);
                    }
                    k = k + 1;
                }
                proof {
                    assert(ds@.subrange(0, ds@.len() as int) =~= ds@);
                }
            }
            if neg {
                out.push('-');
            }
            let point = padded.len() - *s as usize;
            let mut k: usize = 0;
            let ghost mid = out@;
            while k < padded.len()
                invariant
                    k <= padded@.len(),
                    *s as usize <= padded@.len(),
                    point == padded@.len() - *s as usize,
                    k <= point ==> out@ == mid + padded@.subrange(0, k as int),
                    k > point ==> out@ == mid + padded@.subrange(0, point as int) + seq!['.']
                        + padded@.subrange(point as int, k as int),
                decreases padded.len() - k,
            {
                if k == point {
                    out.push('.');
                }
                out.push(padded[k]);
                proof {
                    if k < point {
                        assert(padded@.subrange(0, (k + 1) as int) =~= padded@.subrange(0, k as int)
                            + seq![padded@[k as int]]);
                        assert(out@ =~= mid + padded@.subrange(0, (k + 1) as int));
                    } else {
                        assert(padded@.subrange(point as int, (k + 1) as int) =~= padded@.subrange(
                            point as int,
                            k as int,
                        ) + seq![padded@[k as int]]);
                        assert(out@ =~= mid + padded@.subrange(0, point as int) + seq!['.']
                            + padded@.subrange(point as int, (k + 1) as int));
                    }
                }
                k = k + 1;
            }
            if padded.len() == point {
                out.push('.');
            }
            proof {
                lemma_dec_digit_bounds(mag as int);
                assert(abs(*m as int) == mag as int);
                assert(padded@.subrange(0, padded@.len() as int) =~= padded@);
                assert(final(out)@ =~= old(out)@ + num_chars(*n));
            }
        },
    }
}

/// The digits of a number are at least one character.
proof fn lemma_dec_digit_bounds(n: int)
    ensures
        dec_digits(n).len() >= 1,
    decreases n,
{
    if n >= 10 {
        lemma_dec_digit_bounds(n / 10);
    }
}

impl Exp {
    /// The printed form of this expression.
    pub fn to_display_string(&self) -> (r: String)
        ensures
            r@ == printed(self@),
    {
        let mut out: Vec<char> = Vec::new();
        push_exp(self, &mut out);
        chars_to_string(&out)
    }
}

/// Append the printed form of `e` to `out`.
#[verifier::loop_isolation(false)]
fn push_exp(e: &Exp, out: &mut Vec<char>)
    ensures
        final(out)@ == old(out)@ + printed(e@),
    decreases e,
{
    match e {
        Exp::Atom(a) => match a {
            Atom::Bool(b) => {
                out.push('#');
                out.push(if *b {
                    't'
                } else {
                    'f'
                });
                proof {
                    assert(final(out)@ =~= old(out)@ + printed(e@));
                }
            },
            Atom::Symbol(s) => {
                push_str_chars(s.as_str(), out);
            },
            Atom::Number(n) => {
                push_number(n, out);
            },
        },
        Exp::Str(s) => {
            push_str_chars(s.as_str(), out);
        },
        Exp::Func(_) => {
            out.push('F');
            out.push('u');
            out.push('n');
            out.push('c');
            proof {
                assert(final(out)@ =~= old(out)@ + printed(e@));
            }
        },
        Exp::Procedure(_, _) => {
            out.push('P');
            out.push('r');
            out.push('o');
            out.push('c');
            proof {
                assert(final(out)@ =~= old(out)@ + printed(e@));
            }
        },
        Exp::List(l) => {
            out.push('(');
            let items: &Vec<Exp> = &**l;
            let ghost es = e@->List_0;
            proof {
                crate::types::lemma_list_view(*l);
            }
            let mut i: usize = 0;
            let ghost mid = out@;
            while i < items.len()
                invariant
                    i <= items@.len(),
                    es == crate::types::views_of_seq(items@),
                    es.len() == items@.len(),
                    forall|j: int| 0 <= j < items@.len() ==> es[j] == items@[j]@,
                    i == 0 ==> out@ == mid,
                    i > 0 ==> out@ == mid + printed_items(es.subrange(0, i as int)),
                decreases items.len() - i,
            {
                if i > 0 {
                    out.push(' ');
                }
                proof {
                    broadcast use vstd::std_specs::vec::axiom_vec_index_decreases;

                    assert(decreases_to!(*e => *l));
                    assert(decreases_to!(*l => items@[i as int]));
                }
                push_exp(&items[i], out);
                proof {
                    lemma_printed_items_snoc(es, i as int);
                }
                i = i + 1;
            }
            out.push(')');
            proof {
                assert(es.subrange(0, es.len() as int) =~= es);
                if items@.len() == 0 {
                    assert(printed_items(es) =~= Seq::<char>::empty());
                }
                assert(final(out)@ =~= old(out)@ + printed(e@));
            }
        },
    }
}

/// Splitting one element off the end of a printed sequence.
pub proof fn lemma_printed_items_snoc(es: Seq<ExpV>, i: int)
    requires
        0 <= i < es.len(),
    ensures
        i == 0 ==> printed_items(es.subrange(0, 1)) == printed(es[0]),
        i > 0 ==> printed_items(es.subrange(0, i + 1)) == printed_items(es.subrange(0, i))
            + seq![' '] + printed(es[i]),
    decreases i,
{
    if i == 0 {
        assert(es.subrange(0, 1).len() == 1);
        assert(es.subrange(0, 1)[0] == es[0]);
    } else {
        let a = es.subrange(0, i + 1);
        let b = es.subrange(0, i);
        assert(a.len() >= 2);
        assert(a.subrange(1, a.len() as int) =~= es.subrange(1, i + 1));
        assert(b.subrange(1, b.len() as int) =~= es.subrange(1, i));
        let tail = es.subrange(1, es.len() as int);
        assert(es.subrange(1, i + 1) =~= tail.subrange(0, i));
        assert(es.subrange(1, i) =~= tail.subrange(0, i - 1));
        lemma_printed_items_snoc(tail, i - 1);
        assert(a[0] == es[0]);
        assert(b[0] == es[0]);
        assert(tail[i - 1] == es[i]);
    }
}

/// Append the characters of a string slice to `out`.
pub fn push_str_chars(s: &str, out: &mut Vec<char>)
    ensures
        final(out)@ == old(out)@ + s@,
{
    let n = s.unicode_len();
    let mut i: usize = 0;
    while i < n
        invariant
            i <= n,
            n == s@.len(),
            out@ == old(out)@ + s@.subrange(0, i as int),
        decreases n - i,
    {
        let c = s.get_char(i);
        out.push(c);
        proof {
            assert(s@.subrange(0, (i + 1) as int) =~= s@.subrange(0, i as int) + seq![s@[i as int]]);
            assert(out@ =~= old(out)@ + s@.subrange(0, (i + 1) as int));
        }
        i = i + 1;
    }
    proof {
        assert(s@.subrange(0, s@.len() as int) =~= s@);
        assert(out@ =~= old(out)@ + s@);
    }
}

/// A message of the form `{a}{n1}{b}{n2}`, with the counts in decimal.
pub fn count_message(a: &str, n1: u64, b: &str, n2: u64) -> (r: String)
    ensures
        r@ == a@ + dec_digits(n1 as int) + b@ + dec_digits(n2 as int),
{
    let mut out: Vec<char> = Vec::new();
    push_str_chars(a, &mut out);
    push_digits(n1, &mut out);
    push_str_chars(b, &mut out);
    push_digits(n2, &mut out);
    chars_to_string(&out)
}

/// A message of the form `{a}{n}`, with the count in decimal.
pub fn count_message1(a: &str, n: u64) -> (r: String)
    ensures
        r@ == a@ + dec_digits(n as int),
{
    let mut out: Vec<char> = Vec::new();
    push_str_chars(a, &mut out);
    push_digits(n, &mut out);
    chars_to_string(&out)
}

/// A `String` from a vector of characters, built one push at a time.
pub fn chars_to_string(v: &Vec<char>) -> (r: String)
    ensures
        r@ == v@,
{
    let mut r = String::new();
    let mut i: usize = 0;
    while i < v.len()
        invariant
            i <= v@.len(),
            r@ == v@.subrange(0, i as int),
        decreases v.len() - i,
    {
        push_char(&mut r, v[i]);
        proof {
            assert(v@.subrange(0, (i + 1) as int) =~= v@.subrange(0, i as int) + seq![v@[i as int]]);
        }
        i = i + 1;
    }
    proof {
        assert(v@.subrange(0, v@.len() as int) =~= v@);
    }
    r
}

} // verus!
