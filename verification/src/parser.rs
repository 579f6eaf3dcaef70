//! The reader: a tokenizer for S-expression text and a recursive-descent
//! parser from tokens to expression trees.  Both are specified exactly:
//! `tok_spec` says which tokens a text denotes (or that it has an invalid
//! escape), `read_spec` which tree a token list denotes.

use vstd::prelude::*;
use std::rc::Rc;
use crate::types::{str_eq, Atom, Exceptions, Exp, ExpV, Number, views_of_seq};
use crate::numbers::{canon, p10, strip};
use crate::printer::chars_to_string;

verus! {

broadcast use
    vstd::std_specs::vec::axiom_vec_index_decreases,
    vstd::seq::axiom_seq_index_decreases,
    vstd::seq::axiom_seq_subrange_decreases;

/// The whitespace characters the tokenizer recognises.
pub open spec fn is_ws(c: char) -> bool {
    c == ' ' || c == '\t' || c == '\n' || c == '\r'
}

/// A character that ends an atom token.
pub open spec fn is_delim(c: char) -> bool {
    is_ws(c) || c == '(' || c == ')'
}

/// Whitespace characters, executable.
pub fn is_ws_char(c: char) -> (r: bool)
    ensures
        r == is_ws(c),
{
    c == ' ' || c == '\t' || c == '\n' || c == '\r'
}

/// The first position at or after `i` holding a non-whitespace character.
pub open spec fn ws_end(s: Seq<char>, i: int) -> int
    decreases s.len() - i,
    when 0 <= i <= s.len()
{
    if i < s.len() && is_ws(s[i]) {
        ws_end(s, i + 1)
    } else {
        i
    }
}

/// The first position at or after `i` holding a delimiter.
pub open spec fn atom_end(s: Seq<char>, i: int) -> int
    decreases s.len() - i,
    when 0 <= i <= s.len()
{
    if i < s.len() && !is_delim(s[i]) {
        atom_end(s, i + 1)
    } else {
        i
    }
}

/// Bounds of the scan helpers.
proof fn lemma_scan_bounds(s: Seq<char>, i: int)
    requires
        0 <= i <= s.len(),
    ensures
        i <= ws_end(s, i) <= s.len(),
        i <= atom_end(s, i) <= s.len(),
    decreases s.len() - i,
{
    if i < s.len() {
        lemma_scan_bounds(s, i + 1);
    }
}

/// Scan a string literal's body from `i` (just after the opening quote):
/// the contents with escapes absorbed, and the position after the closing
/// quote.  `None` marks a backslash at the very end of the text: an
/// invalid escape.  A literal that is never closed extends to the end.
pub open spec fn str_scan(s: Seq<char>, i: int) -> Option<(Seq<char>, int)>
    decreases s.len() - i,
    when 0 <= i <= s.len()
{
    if i >= s.len() {
        Some((Seq::empty(), i))
    } else if s[i] == '"' {
        Some((Seq::empty(), i + 1))
    } else if s[i] == '\\' {
        if i + 1 < s.len() {
            match str_scan(s, i + 2) {
                Some(p) => Some((seq![s[i + 1]] + p.0, p.1)),
                None => None,
            }
        } else {
            None
        }
    } else {
        match str_scan(s, i + 1) {
            Some(p) => Some((seq![s[i]] + p.0, p.1)),
            None => None,
        }
    }
}

/// Bounds of the string scan.
proof fn lemma_str_scan_bounds(s: Seq<char>, i: int)
    requires
        0 <= i <= s.len(),
    ensures
        str_scan(s, i) matches Some(p) ==> i <= p.1 <= s.len(),
    decreases s.len() - i,
{
    if i < s.len() {
        if s[i] == '\\' {
            if i + 1 < s.len() {
                lemma_str_scan_bounds(s, i + 2);
            }
        } else if s[i] != '"' {
            lemma_str_scan_bounds(s, i + 1);
        }
    }
}

/// The tokens of a text, or `None` on an invalid escape.  A string literal
/// becomes two tokens: a lone `"` marker, then its contents.
pub open spec fn tok_spec(s: Seq<char>, i: int) -> Option<Seq<Seq<char>>>
    decreases s.len() - i,
    when 0 <= i <= s.len()
    via tok_spec_decreases
{
    if i >= s.len() {
        Some(Seq::empty())
    } else if s[i] == '(' {
        match tok_spec(s, i + 1) {
            Some(r) => Some(seq![seq!['(']] + r),
            None => None,
        }
    } else if s[i] == ')' {
        match tok_spec(s, i + 1) {
            Some(r) => Some(seq![seq![')']] + r),
            None => None,
        }
    } else if s[i] == '\'' {
        match tok_spec(s, i + 1) {
            Some(r) => Some(seq![seq!['\'']] + r),
            None => None,
        }
    } else if s[i] == '"' {
        match str_scan(s, i + 1) {
            Some(p) => match tok_spec(s, p.1) {
                Some(r) => Some(seq![seq!['"'], p.0] + r),
                None => None,
            },
            None => None,
        }
    } else if is_ws(s[i]) {
        tok_spec(s, ws_end(s, i))
    } else {
        match tok_spec(s, atom_end(s, i)) {
            Some(r) => Some(seq![s.subrange(i, atom_end(s, i))] + r),
            None => None,
        }
    }
}

#[via_fn]
proof fn tok_spec_decreases(s: Seq<char>, i: int) {
    if 0 <= i <= s.len() && i < s.len() {
        if s[i] == '"' {
            lemma_str_scan_bounds(s, i + 1);
        } else if is_ws(s[i]) {
            lemma_scan_bounds(s, i + 1);
            assert(ws_end(s, i) == ws_end(s, i + 1));
        } else {
            lemma_scan_bounds(s, i + 1);
            if !is_delim(s[i]) {
                assert(atom_end(s, i) == atom_end(s, i + 1));
            }
        }
    }
}

/// Turn a string slice into its characters.
pub fn str_to_chars(s: &str) -> (r: Vec<char>)
    ensures
        r@ == s@,
{
    let mut out: Vec<char> = Vec::new();
    crate::printer::push_str_chars(s, &mut out);
    out
}

/// Tokenize source text.  Returns exactly the tokens of `tok_spec`, or a
/// syntax fault exactly when the text ends in an unfinished escape.
pub fn tokenize(chars: &str) -> (r: Result<Vec<String>, Exceptions>)
    ensures
        match tok_spec(chars@, 0) {
            Some(toks) => r matches Ok(v) && views_of_strings(v@) == toks,
            None => r matches Err(Exceptions::SyntaxError(_)),
        },
{
    let cs = str_to_chars(chars);
    let ghost s = chars@;
    let n = cs.len();
    let mut toks: Vec<String> = Vec::new();
    let mut i: usize = 0;
    proof {
        lemma_scan_bounds(s, 0);
    }
    while i < n
        invariant
            0 <= i <= n,
            n == s.len(),
            cs@ == s,
            s == chars@,
            match tok_spec(s, i as int) {
                Some(rest) => tok_spec(s, 0) == Some(views_of_strings(toks@) + rest),
                None => tok_spec(s, 0) is None,
            },
        decreases n - i,
    {
        let ghost i0 = i as int;
        let ghost toks0 = toks@;
        let c = cs[i];
        if c == '(' || c == ')' || c == '\'' {
            let mut t: Vec<char> = Vec::new();
            t.push(c);
            toks.push(chars_to_string(&t));
            i = i + 1;
            proof {
                assert(t@ =~= seq![c]);
                lemma_views_push(toks@, seq![c]);
                match tok_spec(s, i as int) {
                    Some(r) => {
                        assert(tok_spec(s, i0) == Some(seq![seq![c]] + r));
                        assert(views_of_strings(toks0) + (seq![seq![c]] + r) =~= views_of_strings(
                            toks@,
                        ) + r);
                    },
                    None => {},
                }
            }
        } else if c == '"' {
            let mut t: Vec<char> = Vec::new();
            t.push('"');
            toks.push(chars_to_string(&t));
            i = i + 1;
            let mut content: Vec<char> = Vec::new();
            let ghost start = i as int;
            let mut bad = false;
            while i < n && !bad && cs[i] != '"'
                invariant
                    0 <= start <= i <= n,
                    n == s.len(),
                    cs@ == s,
                    !bad ==> match str_scan(s, i as int) {
                        Some(p) => str_scan(s, start) == Some((content@ + p.0, p.1)),
                        None => str_scan(s, start) is None,
                    },
                    bad ==> str_scan(s, start) is None,
                decreases n - i, (if bad { 0int } else { 1int }),
            {
                if cs[i] == '\\' {
                    if i + 1 < n {
                        content.push(cs[i + 1]);
                        proof {
                            match str_scan(s, i + 2) {
                                Some(p) => {
                                    assert(content@ + p.0 =~= content@.drop_last() + (seq![
                                        s[i as int + 1],
                                    ] + p.0));
                                },
                                None => {},
                            }
                        }
                        i = i + 2;
                    } else {
                        bad = true;
                    }
                } else {
                    content.push(cs[i]);
                    proof {
                        match str_scan(s, i + 1) {
                            Some(p) => {
                                assert(content@ + p.0 =~= content@.drop_last() + (seq![s[i as int]]
                                    + p.0));
                            },
                            None => {},
                        }
                    }
                    i = i + 1;
                }
            }
            if bad {
                proof {
                    assert(bad);
                    assert(str_scan(s, start) is None);
                    assert(start == i0 + 1);
                    assert(s[i0] == '"');
                    assert(tok_spec(s, i0) is None);
                    assert(tok_spec(s, 0) is None);
                }
                return Err(
                    Exceptions::SyntaxError(String::from_str("invalid escape at end of input")),
                );
            }
            proof {
                if i < n {
                    assert(str_scan(s, i as int) == Some((Seq::<char>::empty(), i + 1)));
                } else {
                    assert(str_scan(s, i as int) == Some((Seq::<char>::empty(), i as int)));
                }
                assert(content@ + Seq::<char>::empty() =~= content@);
            }
            if i < n {
                i = i + 1;
            }
            toks.push(chars_to_string(&content));
            proof {
                assert(toks@.drop_last().last()@ == seq!['"']);
                lemma_views_push(toks@.drop_last(), seq!['"']);
                lemma_views_push(toks@, content@);
                assert(toks@.drop_last().drop_last() == toks0);
                assert(views_of_strings(toks@) =~= views_of_strings(toks0) + seq![
                    seq!['"'],
                    content@,
                ]);
                assert(str_scan(s, i0 + 1) == Some((content@, i as int)));
                match tok_spec(s, i as int) {
                    Some(r) => {
                        assert(tok_spec(s, i0) == Some(seq![seq!['"'], content@] + r));
                        assert(views_of_strings(toks0) + (seq![seq!['"'], content@] + r)
                            =~= views_of_strings(toks@) + r);
                    },
                    None => {},
                }
            }
        } else if is_ws_char(c) {
            let ghost old_ws = i as int;
            while i < n && is_ws_char(cs[i])
                invariant
                    0 <= i <= n,
                    n == s.len(),
                    cs@ == s,
                    ws_end(s, old_ws) == ws_end(s, i as int),
                decreases n - i,
            {
                i = i + 1;
            }
            proof {
                assert(ws_end(s, i as int) == i as int);
                assert(ws_end(s, i0) == ws_end(s, i0 + 1));
                lemma_scan_bounds(s, i0 + 1);
                assert(i as int >= i0 + 1);
                assert(tok_spec(s, i0) == tok_spec(s, i as int));
            }
        } else {
            let ghost start = i as int;
            let mut t: Vec<char> = Vec::new();
            while i < n && !(is_ws_char(cs[i]) || cs[i] == '(' || cs[i] == ')')
                invariant
                    0 <= start <= i <= n,
                    n == s.len(),
                    cs@ == s,
                    atom_end(s, start) == atom_end(s, i as int),
                    t@ == s.subrange(start, i as int),
                decreases n - i,
            {
                t.push(cs[i]);
                proof {
                    assert(s.subrange(start, i + 1) =~= s.subrange(start, i as int) + seq![
                        s[i as int],
                    ]);
                }
                i = i + 1;
            }
            proof {
                assert(atom_end(s, i as int) == i as int);
                assert(atom_end(s, i0) == atom_end(s, i0 + 1));
                lemma_scan_bounds(s, i0 + 1);
                assert(i as int >= i0 + 1);
            }
            toks.push(chars_to_string(&t));
            proof {
                lemma_views_push(toks@, t@);
                assert(t@ == s.subrange(i0, atom_end(s, i0)));
                match tok_spec(s, i as int) {
                    Some(r) => {
                        assert(tok_spec(s, i0) == Some(seq![t@] + r));
                        assert(views_of_strings(toks0) + (seq![t@] + r) =~= views_of_strings(toks@)
                            + r);
                    },
                    None => {},
                }
            }
        }
    }
    proof {
        assert(tok_spec(s, n as int) == Some(Seq::<Seq<char>>::empty()));
        assert(views_of_strings(toks@) + Seq::<Seq<char>>::empty() =~= views_of_strings(toks@));
    }
    Ok(toks)
}

/// The views of a sequence of strings.
pub open spec fn views_of_strings(v: Seq<String>) -> Seq<Seq<char>> {
    Seq::new(v.len(), |i: int| v[i]@)
}

/// A decimal digit.
pub open spec fn is_digit(c: char) -> bool {
    '0' <= c && c <= '9'
}

/// The numeric value of a digit character.
pub open spec fn digit_val(c: char) -> int {
    c as int - '0' as int
}

pub open spec fn all_digits(t: Seq<char>) -> bool {
    forall|j: int| 0 <= j < t.len() ==> is_digit(#[trigger] t[j])
}

/// The value of a digit string, most significant digit first.
pub open spec fn digits_val(t: Seq<char>) -> int
    decreases t.len(),
{
    if t.len() == 0 {
        0
    } else {
        digits_val(t.drop_last()) * 10 + digit_val(t.last())
    }
}

/// The token body after an optional sign.
pub open spec fn signed_body(t: Seq<char>) -> Seq<char> {
    if t.len() > 0 && (t[0] == '+' || t[0] == '-') {
        t.drop_first()
    } else {
        t
    }
}

/// The sign a token carries: -1 under a minus, else 1.
pub open spec fn sign_of(t: Seq<char>) -> int {
    if t.len() > 0 && t[0] == '-' {
        -1
    } else {
        1
    }
}

/// An integer literal: an optional sign, then at least one digit.
pub open spec fn int_lit_shape(t: Seq<char>) -> bool {
    signed_body(t).len() > 0 && all_digits(signed_body(t))
}

pub open spec fn int_lit_val(t: Seq<char>) -> int {
    sign_of(t) * digits_val(signed_body(t))
}

/// The position of the first `.` in `b`, or `b.len()` if there is none.
pub open spec fn dot_pos(b: Seq<char>, i: int) -> int
    decreases b.len() - i,
    when 0 <= i <= b.len()
{
    if i < b.len() && b[i] != '.' {
        dot_pos(b, i + 1)
    } else {
        i
    }
}

/// A decimal literal: an optional sign, digits with exactly one `.` among
/// them, and at least one digit.
pub open spec fn dec_lit_shape(t: Seq<char>) -> bool {
    let b = signed_body(t);
    let k = dot_pos(b, 0);
    &&& b.len() >= 2
    &&& k < b.len()
    &&& all_digits(b.subrange(0, k))
    &&& all_digits(b.subrange(k + 1, b.len() as int))
}

/// The digit string of a decimal literal, point removed.
pub open spec fn dec_lit_digits(t: Seq<char>) -> Seq<char> {
    let b = signed_body(t);
    let k = dot_pos(b, 0);
    b.subrange(0, k) + b.subrange(k + 1, b.len() as int)
}

/// How many digits follow the point.
pub open spec fn dec_lit_scale(t: Seq<char>) -> nat {
    let b = signed_body(t);
    (b.len() - 1 - dot_pos(b, 0)) as nat
}

/// How a lone token is classified: an integer literal that fits `i64`,
/// else a decimal literal whose canonical value is representable, else a
/// boolean literal, else a symbol.  The numeric grammar is deliberately
/// plain decimal, so that every literal denotes its exact written value:
/// exponent forms (`1e5`), infinities and not-a-number tokens are no
/// literals here and read as symbols, and an integer literal beyond the
/// `i64` range reads as a symbol too.
pub open spec fn classify(t: Seq<char>) -> ExpV {
    if int_lit_shape(t) && i64::MIN <= int_lit_val(t) <= i64::MAX {
        ExpV::Num(Number::Int(int_lit_val(t) as i64))
    } else if dec_lit_shape(t) && canon(
        sign_of(t) * digits_val(dec_lit_digits(t)),
        dec_lit_scale(t),
    ) is Some {
        ExpV::Num(canon(sign_of(t) * digits_val(dec_lit_digits(t)), dec_lit_scale(t))->Some_0)
    } else if t =~= seq!['#', 't'] {
        ExpV::Bool(true)
    } else if t =~= seq!['#', 'f'] {
        ExpV::Bool(false)
    } else {
        ExpV::Sym(t)
    }
}

/// The value of a digit string is never negative.
proof fn lemma_digits_val_nonneg(t: Seq<char>)
    requires
        all_digits(t),
    ensures
        digits_val(t) >= 0,
    decreases t.len(),
{
    if t.len() > 0 {
        assert(all_digits(t.drop_last())) by {
            assert(forall|j: int|
                0 <= j < t.len() - 1 ==> t.drop_last()[j] == #[trigger] t[j]);
        }
        lemma_digits_val_nonneg(t.drop_last());
    }
}

/// A prefix of a digit string is worth no more than the whole.
proof fn lemma_digits_val_prefix_le(t: Seq<char>, i: int)
    requires
        all_digits(t),
        0 <= i <= t.len(),
    ensures
        digits_val(t.subrange(0, i)) <= digits_val(t),
    decreases t.len() - i,
{
    if i < t.len() {
        lemma_digits_val_prefix_le(t, i + 1);
        assert(t.subrange(0, i + 1).drop_last() =~= t.subrange(0, i));
        assert(all_digits(t.subrange(0, i))) by {
            assert(forall|j: int|
                0 <= j < i ==> t.subrange(0, i)[j] == #[trigger] t[j]);
        }
        lemma_digits_val_nonneg(t.subrange(0, i));
        assert(digits_val(t.subrange(0, i)) <= digits_val(t.subrange(0, i + 1))) by (nonlinear_arith)
            requires
                digits_val(t.subrange(0, i + 1)) == digits_val(t.subrange(0, i)) * 10 + digit_val(
                    t.subrange(0, i + 1).last(),
                ),
                digits_val(t.subrange(0, i)) >= 0,
                digit_val(t.subrange(0, i + 1).last()) >= 0,
        ;
    } else {
        assert(t.subrange(0, t.len() as int) =~= t);
    }
}

/// Evaluate a digit string, reporting only whether it tops 2^63.
fn accum_digits(ds: &Vec<char>) -> (r: Option<u64>)
    requires
        all_digits(ds@),
    ensures
        match r {
            Some(m) => m as int == digits_val(ds@) && m <= 0x8000_0000_0000_0000u64,
            None => digits_val(ds@) > 0x8000_0000_0000_0000,
        },
{
    let mut acc: u64 = 0;
    let mut i: usize = 0;
    while i < ds.len()
        invariant
            i <= ds@.len(),
            all_digits(ds@),
            acc as int == digits_val(ds@.subrange(0, i as int)),
            acc <= 0x8000_0000_0000_0000u64,
        decreases ds.len() - i,
    {
        let c = ds[i];
        let d: u64 = (c as u32 as u64) - ('0' as u32 as u64);
        proof {
            assert(is_digit(ds@[i as int]));
            assert(d as int == digit_val(ds@[i as int]));
            assert(ds@.subrange(0, i + 1).drop_last() =~= ds@.subrange(0, i as int));
            assert(ds@.subrange(0, i + 1).last() == ds@[i as int]);
        }
        if acc > 922337203685477580u64 || (acc == 922337203685477580u64 && d > 8) {
            proof {
                lemma_digits_val_prefix_le(ds@, i + 1);
                assert(digits_val(ds@.subrange(0, i + 1)) == acc * 10 + d);
            }
            return None;
        }
        acc = acc * 10 + d;
        i = i + 1;
    }
    proof {
        assert(ds@.subrange(0, ds@.len() as int) =~= ds@);
    }
    Some(acc)
}

/// Whether every character of `v` is a digit.
fn check_all_digits(v: &Vec<char>) -> (r: bool)
    ensures
        r == all_digits(v@),
{
    let mut i: usize = 0;
    while i < v.len()
        invariant
            i <= v@.len(),
            forall|j: int| 0 <= j < i ==> is_digit(#[trigger] v@[j]),
        decreases v.len() - i,
    {
        let c = v[i];
        if !('0' <= c && c <= '9') {
            return false;
        }
        i = i + 1;
    }
    true
}

/// Copy `v[lo..hi]` into a fresh vector.
fn copy_range(v: &Vec<char>, lo: usize, hi: usize) -> (r: Vec<char>)
    requires
        lo <= hi <= v@.len(),
    ensures
        r@ == v@.subrange(lo as int, hi as int),
{
    let mut out: Vec<char> = Vec::new();
    let mut i: usize = lo;
    while i < hi
        invariant
            lo <= i <= hi <= v@.len(),
            out@ == v@.subrange(lo as int, i as int),
        decreases hi - i,
    {
        out.push(v[i]);
        proof {
            assert(v@.subrange(lo as int, i + 1) =~= v@.subrange(lo as int, i as int) + seq![
                v@[i as int],
            ]);
        }
        i = i + 1;
    }
    out
}

/// The last digit of a digit string is its value's last decimal digit.
proof fn lemma_digits_val_last(t: Seq<char>)
    requires
        all_digits(t),
        t.len() > 0,
    ensures
        digits_val(t) % 10 == digit_val(t.last()),
        digits_val(t) / 10 == digits_val(t.drop_last()),
{
    assert(all_digits(t.drop_last())) by {
        assert(forall|j: int| 0 <= j < t.len() - 1 ==> t.drop_last()[j] == #[trigger] t[j]);
    }
    lemma_digits_val_nonneg(t.drop_last());
    let a = digits_val(t.drop_last());
    let d = digit_val(t.last());
    assert(digits_val(t) == 10 * a + d) by (nonlinear_arith)
        requires
            digits_val(t) == a * 10 + d,
    ;
    vstd::arithmetic::div_mod::lemma_fundamental_div_mod_converse(10 * a + d, 10, a, d);
}

/// Classify one token, exactly as `classify` says.
pub fn atom(token: String) -> (r: Atom)
    ensures
        crate::types::exp_view(Exp::Atom(r)) == classify(token@),
{
    let cs = str_to_chars(token.as_str());
    let ghost t = token@;
    let n = cs.len();
    let neg = n > 0 && cs[0] == '-';
    let signed = n > 0 && (cs[0] == '+' || cs[0] == '-');
    let start: usize = if signed {
        1
    } else {
        0
    };
    let body = copy_range(&cs, start, n);
    proof {
        assert(body@ =~= signed_body(t));
    }
    if body.len() > 0 && check_all_digits(&body) {
        // An integer literal; it stands only if the value fits an i64.
        match accum_digits(&body) {
            Some(m) => {
                if neg && m <= 0x8000_0000_0000_0000u64 {
                    let v: i64 = (-(m as i128)) as i64;
                    proof {
                        assert(t.len() > 0 && t[0] == '-');
                        assert(sign_of(t) == -1);
                        assert(digits_val(signed_body(t)) == m as int);
                        assert(int_lit_val(t) == (-1) * (m as int));
                        assert((-1) * (m as int) == -(m as int)) by (nonlinear_arith);
                        assert(int_lit_shape(t));
                    }
                    return Atom::Number(Number::Int(v));
                } else if !neg && m < 0x8000_0000_0000_0000u64 {
                    proof {
                        assert(sign_of(t) == 1);
                        assert(digits_val(signed_body(t)) == m as int);
                        assert(int_lit_val(t) == 1 * (m as int));
                        assert(1 * (m as int) == m as int) by (nonlinear_arith);
                        assert(int_lit_shape(t));
                    }
                    return Atom::Number(Number::Int(m as i64));
                }
            },
            None => {},
        }
        // Out of range; a digits-only token is no decimal literal either,
        // and cannot be a boolean literal, so it is a symbol.
        proof {
            lemma_digits_val_nonneg(signed_body(t));
            assert(!(i64::MIN <= int_lit_val(t) <= i64::MAX)) by (nonlinear_arith)
                requires
                    int_lit_val(t) == sign_of(t) * digits_val(signed_body(t)),
                    sign_of(t) == (if t.len() > 0 && t[0] == '-' { -1int } else { 1int }),
                    digits_val(signed_body(t)) >= 0,
                    (t.len() > 0 && t[0] == '-' && digits_val(signed_body(t))
                        > 0x8000_0000_0000_0000) || (!(t.len() > 0 && t[0] == '-')
                        && digits_val(signed_body(t)) > 0x7fff_ffff_ffff_ffff),
            ;
            assert(dot_pos(signed_body(t), 0) == signed_body(t).len()) by {
                lemma_dot_pos_all_digits(signed_body(t), 0);
            }
            assert(!dec_lit_shape(t));
            assert(!(t =~= seq!['#', 't']));
            assert(!(t =~= seq!['#', 'f']));
        }
        return Atom::Symbol(token);
    }
    // Look for a decimal literal: digits around exactly one point.
    let mut k: usize = 0;
    while k < body.len() && body[k] != '.'
        invariant
            0 <= k <= body@.len(),
            dot_pos(body@, 0) == dot_pos(body@, k as int),
        decreases body.len() - k,
    {
        k = k + 1;
    }
    proof {
        assert(dot_pos(body@, k as int) == k as int);
    }
    if k < body.len() && body.len() >= 2 {
        let before = copy_range(&body, 0, k);
        let after = copy_range(&body, k + 1, body.len());
        if check_all_digits(&before) && check_all_digits(&after) {
            proof {
                assert(dec_lit_shape(t));
            }
            let mut digits = before;
            let mut j: usize = 0;
            while j < after.len()
                invariant
                    j <= after@.len(),
                    digits@ == body@.subrange(0, k as int) + after@.subrange(0, j as int),
                    k as int == dot_pos(body@, 0),
                    k < body@.len(),
                decreases after.len() - j,
            {
                digits.push(after[j]);
                proof {
                    assert(after@.subrange(0, j + 1) =~= after@.subrange(0, j as int) + seq![
                        after@[j as int],
                    ]);
                }
                j = j + 1;
            }
            proof {
                assert(after@.subrange(0, after@.len() as int) =~= after@);
                assert(digits@ =~= dec_lit_digits(t));
                assert(all_digits(digits@)) by {
                    assert(forall|x: int|
                        0 <= x < k ==> dec_lit_digits(t)[x] == #[trigger] body@.subrange(
                            0,
                            k as int,
                        )[x]);
                }
            }
            let ghost m0 = digits_val(digits@);
            let ghost s0 = dec_lit_scale(t);
            proof {
                lemma_digits_val_nonneg(digits@);
                assert(m0 >= 0);
            }
            let mut s_eff: usize = after.len();
            proof {
                assert(s_eff as nat == s0);
            }
            while s_eff > 0 && digits.len() > 0 && digits[digits.len() - 1] == '0'
                invariant
                    s_eff <= digits@.len(),
                    all_digits(digits@),
                    strip(m0, s0) == strip(digits_val(digits@), s_eff as nat),
                decreases s_eff,
            {
                proof {
                    lemma_digits_val_last(digits@);
                }
                let _ = digits.pop();
                s_eff = s_eff - 1;
            }
            proof {
                if s_eff > 0 {
                    if digits@.len() == 0 {
                        assert(digits_val(digits@) == 0);
                        assert(false) by {
                            assert(s_eff <= digits@.len());
                        }
                    }
                    lemma_digits_val_last(digits@);
                    assert(digits_val(digits@) % 10 != 0);
                }
                assert(strip(digits_val(digits@), s_eff as nat) == (
                    digits_val(digits@),
                    s_eff as nat,
                ));
                lemma_digits_val_nonneg(digits@);
            }
            match accum_digits(&digits) {
                Some(m) => {
                    let ghost sm = sign_of(t) * m0;
                    proof {
                        assert(sign_of(t) * digits_val(digits@) == (if neg {
                            -(m as int)
                        } else {
                            m as int
                        })) by (nonlinear_arith)
                            requires
                                digits_val(digits@) == m as int,
                                sign_of(t) == (if neg { -1int } else { 1int }),
                        ;
                        lemma_strip_sign(m0, s0, digits_val(digits@), s_eff as nat, sign_of(t));
                    }
                    if s_eff == 0 {
                        if neg && m <= 0x8000_0000_0000_0000u64 {
                            return Atom::Number(Number::Int((-(m as i128)) as i64));
                        } else if !neg && m < 0x8000_0000_0000_0000u64 {
                            return Atom::Number(Number::Int(m as i64));
                        }
                    } else if s_eff <= 18 {
                        if neg && m <= 0x8000_0000_0000_0000u64 {
                            return Atom::Number(
                                Number::Dec { m: (-(m as i128)) as i64, s: s_eff as u32 },
                            );
                        } else if !neg && m < 0x8000_0000_0000_0000u64 {
                            return Atom::Number(Number::Dec { m: m as i64, s: s_eff as u32 });
                        }
                    }
                    proof {
                        lemma_abs_sign_mul(sign_of(t), m0);
                        lemma_canon_out_of_range(sign_of(t) * m0, s0, digits_val(digits@),
                            s_eff as nat);
                    }
                },
                None => {
                    proof {
                        lemma_digits_val_nonneg(digits@);
                        lemma_abs_sign_mul(sign_of(t), m0);
                        lemma_canon_out_of_range(sign_of(t) * m0, s0, digits_val(digits@),
                            s_eff as nat);
                    }
                },
            }
            proof {
                assert(!(t =~= seq!['#', 't']));
                assert(!(t =~= seq!['#', 'f']));
            }
            return Atom::Symbol(token);
        }
    }
    proof {
        assert(!int_lit_shape(t));
        assert(!dec_lit_shape(t));
    }
    if str_eq(token.as_str(), "#t") {
        proof {
            reveal_strlit("#t");
            assert(t =~= seq!['#', 't']);
        }
        return Atom::Bool(true);
    }
    if str_eq(token.as_str(), "#f") {
        proof {
            reveal_strlit("#f");
            assert(t =~= seq!['#', 'f']);
        }
        return Atom::Bool(false);
    }
    proof {
        reveal_strlit("#t");
        reveal_strlit("#f");
        assert(("#t"@) =~= seq!['#', 't']);
        assert(("#f"@) =~= seq!['#', 'f']);
        assert(!(t =~= seq!['#', 't']));
        assert(!(t =~= seq!['#', 'f']));
    }
    Atom::Symbol(token)
}

/// Over an all-digit string the dot scan runs to the end.
proof fn lemma_dot_pos_all_digits(b: Seq<char>, i: int)
    requires
        all_digits(b),
        0 <= i <= b.len(),
    ensures
        dot_pos(b, i) == b.len(),
    decreases b.len() - i,
{
    if i < b.len() {
        lemma_dot_pos_all_digits(b, i + 1);
    }
}

/// The absolute value of a signed magnitude is the magnitude.
proof fn lemma_abs_sign_mul(sg: int, m: int)
    requires
        sg == 1 || sg == -1,
        m >= 0,
    ensures
        vstd::math::abs(sg * m) == m,
{
    assert(sg * m == (if sg == 1 { m } else { -m })) by (nonlinear_arith)
        requires
            sg == 1 || sg == -1,
    ;
}

/// Stripping commutes with applying a sign to the mantissa.
proof fn lemma_strip_sign(m0: int, s0: nat, m1: int, s1: nat, sg: int)
    requires
        strip(m0, s0) == (m1, s1),
        sg == 1 || sg == -1,
    ensures
        strip(sg * m0, s0) == (sg * m1, s1),
    decreases s0,
{
    if s0 > 0 && m0 % 10 == 0 {
        vstd::arithmetic::div_mod::lemma_fundamental_div_mod(m0, 10);
        assert((sg * m0) % 10 == 0 && (sg * m0) / 10 == sg * (m0 / 10)) by (nonlinear_arith)
            requires
                m0 == 10 * (m0 / 10) + m0 % 10,
                m0 % 10 == 0,
                sg == 1 || sg == -1,
        ;
        lemma_strip_sign(m0 / 10, (s0 - 1) as nat, m1, s1, sg);
    } else {
        if sg == 1 {
        } else {
            if m0 % 10 != 0 {
                assert((sg * m0) % 10 != 0) by (nonlinear_arith)
                    requires
                        m0 % 10 != 0,
                        sg == -1,
                ;
            }
        }
    }
}

/// When the stripped magnitude leaves the `i64` range (or the scale stays
/// above 18), the literal has no canonical value.
proof fn lemma_canon_out_of_range(sm: int, s0: nat, mag: int, s1: nat)
    requires
        strip(vstd::math::abs(sm) as int, s0) == (mag, s1),
        mag >= 0,
        (s1 == 0 && !(mag <= 0x7fff_ffff_ffff_ffff || (sm < 0 && mag <= 0x8000_0000_0000_0000)))
            || (s1 > 0 && !(s1 <= 18 && (mag <= 0x7fff_ffff_ffff_ffff || (sm < 0 && mag
            <= 0x8000_0000_0000_0000)))),
    ensures
        canon(sm, s0) is None,
{
    let sg: int = if sm < 0 {
        -1
    } else {
        1
    };
    lemma_strip_sign(vstd::math::abs(sm) as int, s0, mag, s1, sg);
    assert(sg * (vstd::math::abs(sm) as int) == sm) by (nonlinear_arith)
        requires
            sg == (if sm < 0 { -1int } else { 1int }),
            vstd::math::abs(sm) == (if sm >= 0 { sm } else { -sm }),
    ;
    assert(strip(sm, s0) == (sg * mag, s1));
    assert(sg * mag == (if sm < 0 { -mag } else { mag })) by (nonlinear_arith)
        requires
            sg == (if sm < 0 { -1int } else { 1int }),
    ;
    if sm < 0 {
        if mag > 0x8000_0000_0000_0000 {
            assert(sg * mag < i64::MIN as int);
        }
    } else {
        if mag > 0x7fff_ffff_ffff_ffff {
            assert(sg * mag > i64::MAX as int);
        }
    }
}

/// Read one form starting at `pos`: its tree and the position after it.
/// `None` is a syntax fault: a bare `)`, tokens running out, or a string
/// marker with nothing after it.
pub open spec fn read_spec(toks: Seq<Seq<char>>, pos: int) -> Option<(ExpV, int)>
    decreases toks.len() - pos, 0int,
    when 0 <= pos <= toks.len()
{
    if pos >= toks.len() {
        None
    } else if toks[pos] == seq!['('] {
        match read_list_spec(toks, pos + 1) {
            Some(p) => Some((ExpV::List(p.0), p.1)),
            None => None,
        }
    } else if toks[pos] == seq![')'] {
        None
    } else if toks[pos] == seq!['\''] {
        match read_spec(toks, pos + 1) {
            Some(p) => Some(
                (ExpV::List(seq![ExpV::Sym(seq!['q', 'u', 'o', 't', 'e']), p.0]), p.1),
            ),
            None => None,
        }
    } else if toks[pos] == seq!['"'] {
        if pos + 1 < toks.len() {
            Some((ExpV::Str(toks[pos + 1]), pos + 2))
        } else {
            None
        }
    } else {
        Some((classify(toks[pos]), pos + 1))
    }
}

/// Read list elements until the matching `)`: the elements and the
/// position after the closing parenthesis.
pub open spec fn read_list_spec(toks: Seq<Seq<char>>, pos: int) -> Option<(Seq<ExpV>, int)>
    decreases toks.len() - pos, 1int,
    when 0 <= pos <= toks.len()
{
    if pos >= toks.len() {
        None
    } else if toks[pos] == seq![')'] {
        Some((Seq::empty(), pos + 1))
    } else {
        match read_spec(toks, pos) {
            Some(p) => {
                // A successful read always lands in (pos, toks.len()];
                // the fallback only keeps the recursion well-founded.
                let nxt = if pos < p.1 <= toks.len() {
                    p.1
                } else {
                    toks.len() as int
                };
                match read_list_spec(toks, nxt) {
                    Some(q) => Some((seq![p.0] + q.0, q.1)),
                    None => None,
                }
            },
            None => None,
        }
    }
}

/// A successful read always advances and stays within the tokens.
pub proof fn lemma_read_spec_bounds(toks: Seq<Seq<char>>, pos: int)
    requires
        0 <= pos <= toks.len(),
    ensures
        read_spec(toks, pos) matches Some(p) ==> pos < p.1 <= toks.len(),
    decreases toks.len() - pos, 0int,
{
    if pos < toks.len() {
        if toks[pos] == seq!['('] {
            lemma_read_list_spec_bounds(toks, pos + 1);
        } else if toks[pos] == seq![')'] {
        } else if toks[pos] == seq!['\''] {
            lemma_read_spec_bounds(toks, pos + 1);
        }
    }
}

/// A successful list read always advances and stays within the tokens.
pub proof fn lemma_read_list_spec_bounds(toks: Seq<Seq<char>>, pos: int)
    requires
        0 <= pos <= toks.len(),
    ensures
        read_list_spec(toks, pos) matches Some(p) ==> pos < p.1 <= toks.len(),
    decreases toks.len() - pos, 1int,
{
    if pos < toks.len() && !(toks[pos] == seq![')']) {
        lemma_read_spec_bounds(toks, pos);
        match read_spec(toks, pos) {
            Some(p) => {
                lemma_read_list_spec_bounds(toks, p.1);
            },
            None => {},
        }
    }
}

/// Read one complete form from `tokens`, starting at `pos`; returns the
/// tree and the position after it, exactly as `read_spec` says.
fn read_from_tokens(tokens: &Vec<String>, pos: usize) -> (r: Result<(Exp, usize), Exceptions>)
    requires
        pos <= tokens@.len(),
    ensures
        match read_spec(views_of_strings(tokens@), pos as int) {
            Some(p) => r matches Ok(q) && q.0@ == p.0 && q.1 as int == p.1 && q.1
                <= tokens@.len(),
            None => r matches Err(Exceptions::SyntaxError(_)),
        },
    decreases tokens@.len() - pos,
{
    let ghost toks = views_of_strings(tokens@);
    if pos >= tokens.len() {
        return Err(Exceptions::SyntaxError(String::from_str("unexpected end of input")));
    }
    proof {
        lemma_read_spec_bounds(toks, pos as int);
        reveal_strlit("(");
        reveal_strlit(")");
        reveal_strlit("'");
        reveal_strlit("\"");
        reveal_strlit("quote");
        assert(("("@) =~= seq!['(']);
        assert((")"@) =~= seq![')']);
        assert(("'"@) =~= seq!['\'']);
        assert(("\""@) =~= seq!['"']);
        assert(("quote"@) =~= seq!['q', 'u', 'o', 't', 'e']);
    }
    let tok = &tokens[pos];
    if str_eq(tok.as_str(), "(") {
        let mut elements: Vec<Exp> = Vec::new();
        let mut cur: usize = pos + 1;
        loop
            invariant
                pos + 1 <= cur <= tokens@.len(),
                pos < tokens@.len(),
                toks == views_of_strings(tokens@),
                toks[pos as int] == seq!['('],
                match read_list_spec(toks, cur as int) {
                    Some(q) => read_list_spec(toks, pos + 1) matches Some(w) && w.0
                        == views_of_seq(elements@) + q.0 && w.1 == q.1,
                    None => read_list_spec(toks, pos + 1) is None,
                },
            decreases tokens@.len() - cur,
        {
            proof {
                lemma_read_spec_bounds(toks, cur as int);
                lemma_read_list_spec_bounds(toks, cur as int);
                reveal_strlit(")");
            }
            if cur >= tokens.len() {
                return Err(Exceptions::SyntaxError(String::from_str("non matching parens")));
            }
            if str_eq(tokens[cur].as_str(), ")") {
                proof {
                    assert(toks[cur as int] == seq![')']);
                    assert(read_list_spec(toks, cur as int) == Some(
                        (Seq::<ExpV>::empty(), cur + 1),
                    ));
                    assert(views_of_seq(elements@) + Seq::<ExpV>::empty() =~= views_of_seq(
                        elements@,
                    ));
                }
                let l = Exp::List(Rc::new(elements));
                proof {
                    crate::types::lemma_list_view(l->List_0);
                }
                return Ok((l, cur + 1));
            }
            let (e, next) = match read_from_tokens(tokens, cur) {
                Ok(p) => p,
                Err(err) => {
                    proof {
                        reveal_strlit(")");
                        assert((")"@) =~= seq![')']);
                        assert(toks[cur as int] == tokens@[cur as int]@);
                        assert(read_spec(toks, cur as int) is None);
                        assert(toks[cur as int] != seq![')']);
                        assert(read_list_spec(toks, cur as int) is None);
                    }
                    return Err(err);
                },
            };
            let ghost els0 = elements@;
            elements.push(e);
            proof {
                assert(views_of_seq(elements@) =~= views_of_seq(els0) + seq![elements@.last()@]);
                match read_list_spec(toks, next as int) {
                    Some(q) => {
                        assert(views_of_seq(els0) + (seq![elements@.last()@] + q.0)
                            =~= views_of_seq(elements@) + q.0);
                    },
                    None => {},
                }
            }
            cur = next;
        }
    } else if str_eq(tok.as_str(), ")") {
        Err(Exceptions::SyntaxError(String::from_str("unexpected )")))
    } else if str_eq(tok.as_str(), "'") {
        let (inner, next) = match read_from_tokens(tokens, pos + 1) {
            Ok(p) => p,
            Err(err) => {
                return Err(err);
            },
        };
        let mut lst: Vec<Exp> = Vec::new();
        lst.push(Exp::Atom(Atom::Symbol(String::from_str("quote"))));
        lst.push(inner);
        let l = Exp::List(Rc::new(lst));
        proof {
            crate::types::lemma_list_view(l->List_0);
            match read_spec(toks, pos + 1) {
                Some(p) => {
                    assert(views_of_seq(l->List_0@) =~= seq![
                        ExpV::Sym(seq!['q', 'u', 'o', 't', 'e']),
                        p.0,
                    ]);
                },
                None => {},
            }
        }
        Ok((l, next))
    } else if str_eq(tok.as_str(), "\"") {
        if pos + 1 < tokens.len() {
            let s = tokens[pos + 1].clone();
            Ok((Exp::Str(s), pos + 2))
        } else {
            Err(Exceptions::SyntaxError(String::from_str("expected a string after a quote mark")))
        }
    } else {
        let a = atom(tok.clone());
        Ok((Exp::Atom(a), pos + 1))
    }
}

/// Parse one complete form.  Succeeds exactly when the text tokenizes, one
/// form can be read, and no tokens remain after it; the tree is exactly
/// the one the token stream denotes.
pub fn parse(program: String) -> (r: Result<Exp, Exceptions>)
    ensures
        match tok_spec(program@, 0) {
            Some(toks) => match read_spec(toks, 0) {
                Some(p) => if p.1 == toks.len() {
                    r matches Ok(e) && e@ == p.0
                } else {
                    r matches Err(Exceptions::SyntaxError(_))
                },
                None => r matches Err(Exceptions::SyntaxError(_)),
            },
            None => r matches Err(Exceptions::SyntaxError(_)),
        },
{
    let tokenized = match tokenize(program.as_str()) {
        Ok(v) => v,
        Err(err) => {
            return Err(err);
        },
    };
    match read_from_tokens(&tokenized, 0) {
        Ok((e, next)) => {
            if next == tokenized.len() {
                Ok(e)
            } else {
                Err(
                    Exceptions::SyntaxError(
                        String::from_str("non matching parens or invalid expression"),
                    ),
                )
            }
        },
        Err(err) => Err(err),
    }
}

/// Where the parenthesis opened at position 0 closes: scan with a depth
/// counter, stop one past the character that brings it to zero, or at the
/// end of the text.
pub open spec fn match_end(s: Seq<char>, i: int, depth: int) -> int
    decreases s.len() - i,
    when 0 <= i <= s.len()
{
    if i >= s.len() {
        i
    } else {
        let d2 = if s[i] == '(' {
            depth + 1
        } else if s[i] == ')' && depth > 0 {
            depth - 1
        } else {
            depth
        };
        if d2 == 0 {
            i + 1
        } else {
            match_end(s, i + 1, d2)
        }
    }
}

/// Split text that starts with `(` into the prefix up to the matching
/// closing parenthesis and the remainder; `None` when it starts otherwise.
pub fn _get_matching_parens_and_remaining(program: &str) -> (r: Option<(String, String)>)
    ensures
        (program@.len() == 0 || program@[0] != '(') <==> r is None,
        r matches Some(p) ==> {
            let e = match_end(program@, 0, 0);
            p.0@ == program@.subrange(0, e) && p.1@ == program@.subrange(e, program@.len() as int)
        },
{
    let cs = str_to_chars(program);
    let n = cs.len();
    if n == 0 {
        return None;
    }
    if cs[0] != '(' {
        return None;
    }
    let mut i: usize = 0;
    let mut depth: usize = 0;
    let mut ends: usize = n;
    let mut found = false;
    while i < n && !found
        invariant
            0 <= i <= n,
            depth <= i,
            n == program@.len(),
            cs@ == program@,
            !found ==> match_end(program@, 0, 0) == match_end(program@, i as int, depth as int),
            found ==> ends == match_end(program@, 0, 0),
            ends <= n,
        decreases n - i, (if found { 0int } else { 1int }),
    {
        let c = cs[i];
        let d2: usize = if c == '(' {
            depth + 1
        } else if c == ')' && depth > 0 {
            depth - 1
        } else {
            depth
        };
        i = i + 1;
        if d2 == 0 {
            ends = i;
            found = true;
        } else {
            depth = d2;
        }
    }
    proof {
        if !found {
            assert(match_end(program@, i as int, depth as int) == i as int);
        }
    }
    let e = if found {
        ends
    } else {
        n
    };
    let head = copy_range(&cs, 0, e);
    let tail = copy_range(&cs, e, n);
    Some((chars_to_string(&head), chars_to_string(&tail)))
}

/// Digits printed from a non-negative integer denote that integer.
proof fn lemma_dec_digits_inverse(m: int)
    requires
        m >= 0,
    ensures
        all_digits(crate::printer::dec_digits(m)),
        digits_val(crate::printer::dec_digits(m)) == m,
        crate::printer::dec_digits(m).len() >= 1,
    decreases m,
{
    let ds = crate::printer::dec_digits(m);
    if m < 10 {
        assert(is_digit(crate::printer::digit_char(m)));
        assert(digits_val(ds) == digits_val(ds.drop_last()) * 10 + digit_val(ds.last()));
        assert(ds.drop_last() =~= Seq::<char>::empty());
    } else {
        lemma_dec_digits_inverse(m / 10);
        let pre = crate::printer::dec_digits(m / 10);
        assert(ds == pre.push(crate::printer::digit_char(m % 10)));
        assert(ds.drop_last() =~= pre);
        assert(ds.last() == crate::printer::digit_char(m % 10));
        assert(is_digit(ds.last()));
        assert(all_digits(ds)) by {
            assert(forall|j: int| 0 <= j < ds.len() - 1 ==> ds[j] == #[trigger] pre[j]);
        }
        assert(digit_val(crate::printer::digit_char(m % 10)) == m % 10);
        assert(digits_val(ds) == (m / 10) * 10 + m % 10);
        assert(m == 10 * (m / 10) + m % 10) by {
            vstd::arithmetic::div_mod::lemma_fundamental_div_mod(m, 10);
        }
    }
}

/// A run of zero characters is worth zero.
proof fn lemma_digits_val_zeros(z: Seq<char>)
    requires
        forall|j: int| 0 <= j < z.len() ==> #[trigger] z[j] == '0',
    ensures
        digits_val(z) == 0,
        all_digits(z),
    decreases z.len(),
{
    if z.len() > 0 {
        assert(forall|j: int|
            0 <= j < z.len() - 1 ==> #[trigger] z.drop_last()[j] == z[j]);
        lemma_digits_val_zeros(z.drop_last());
    }
}

/// Leading zeros do not change a digit string's value.
proof fn lemma_digits_val_lead_zeros(z: Seq<char>, t: Seq<char>)
    requires
        forall|j: int| 0 <= j < z.len() ==> #[trigger] z[j] == '0',
        all_digits(t),
    ensures
        digits_val(z + t) == digits_val(t),
        all_digits(z + t),
    decreases t.len(),
{
    if t.len() == 0 {
        assert(z + t =~= z);
        lemma_digits_val_zeros(z);
    } else {
        assert(forall|j: int|
            0 <= j < t.len() - 1 ==> #[trigger] t.drop_last()[j] == t[j]);
        lemma_digits_val_lead_zeros(z, t.drop_last());
        assert((z + t).drop_last() =~= z + t.drop_last());
        assert((z + t).last() == t.last());
        assert(all_digits(z + t)) by {
            assert(forall|j: int|
                0 <= j < z.len() ==> is_digit(#[trigger] (z + t)[j]));
            assert(forall|j: int|
                z.len() <= j < z.len() + t.len() ==> is_digit(#[trigger] (z + t)[j]));
        }
    }
}

/// The dot scan stops at the first `.` after a digit prefix.
proof fn lemma_dot_pos_finds(b: Seq<char>, j: int, k: int)
    requires
        0 <= j <= k < b.len(),
        b[k] == '.',
        forall|x: int| 0 <= x < k ==> is_digit(#[trigger] b[x]),
    ensures
        dot_pos(b, j) == k,
    decreases k - j,
{
    if j < k {
        lemma_dot_pos_finds(b, j + 1, k);
    }
}

/// Printing a parsed boolean or canonical number atom and classifying the
/// text again yields the very same atom: the printed form of `#t`, `#f`,
/// an integer or a canonical decimal is a token that reads back as itself.
pub proof fn lemma_printed_atom_reads_back(v: ExpV)
    requires
        (v matches ExpV::Num(n) && crate::numbers::num_wf(n)) || v matches ExpV::Bool(_),
    ensures
        classify(crate::printer::printed(v)) == v,
{
    match v {
        ExpV::Bool(b) => {
            let t = crate::printer::printed(v);
            assert(t.len() == 2 && t[0] == '#');
            assert(signed_body(t) == t);
            assert(!is_digit(t[0]));
            assert(!all_digits(t)) by {
                assert(!is_digit(signed_body(t)[0]));
            }
            assert(!int_lit_shape(t));
            assert(dot_pos(t, 0) == dot_pos(t, 1));
            assert(dot_pos(t, 1) == dot_pos(t, 2));
            assert(dot_pos(t, 2) == 2);
            assert(!dec_lit_shape(t));
            if b {
                assert(t =~= seq!['#', 't']);
            } else {
                assert(!(t =~= seq!['#', 't']));
                assert(t =~= seq!['#', 'f']);
            }
        },
        ExpV::Num(Number::Int(iv)) => {
            let i = iv as int;
            let t = crate::printer::printed(v);
            assert(t == crate::printer::int_chars(i));
            if i >= 0 {
                let ds = crate::printer::dec_digits(i);
                lemma_dec_digits_inverse(i);
                assert(t == ds);
                assert(is_digit(t[0]));
                assert(t[0] != '+' && t[0] != '-');
                assert(signed_body(t) == t);
                assert(int_lit_shape(t));
                assert(sign_of(t) == 1);
                assert(int_lit_val(t) == 1 * i);
                assert(1 * i == i) by (nonlinear_arith);
            } else {
                let ds = crate::printer::dec_digits(-i);
                lemma_dec_digits_inverse(-i);
                assert(t == seq!['-'] + ds);
                assert(t[0] == '-');
                assert(signed_body(t) =~= ds);
                assert(int_lit_shape(t));
                assert(sign_of(t) == -1);
                assert(int_lit_val(t) == (-1) * (-i));
                assert((-1) * (-i) == i) by (nonlinear_arith);
            }
        },
        ExpV::Num(Number::Dec { m, s }) => {
            let mi = m as int;
            let sn = s as nat;
            let t = crate::printer::printed(v);
            let mag = vstd::math::abs(mi) as int;
            let ds = crate::printer::dec_digits(mag);
            lemma_dec_digits_inverse(mag);
            let padded = if ds.len() <= sn {
                seq!['0'].add(Seq::new((sn - ds.len()) as nat, |j: int| '0')) + ds
            } else {
                ds
            };
            // The padded digit string still denotes |m|.
            if ds.len() <= sn {
                let z = seq!['0'].add(Seq::new((sn - ds.len()) as nat, |j: int| '0'));
                assert(forall|j: int| 0 <= j < z.len() ==> #[trigger] z[j] == '0');
                lemma_digits_val_lead_zeros(z, ds);
                assert(padded =~= z + ds);
            }
            assert(all_digits(padded) && digits_val(padded) == mag);
            let point = padded.len() - sn;
            assert(point >= 1);
            let body = padded.subrange(0, point as int) + seq!['.'] + padded.subrange(
                point as int,
                padded.len() as int,
            );
            assert(t == crate::printer::dec_chars(mi, sn));
            assert(t == if mi < 0 {
                seq!['-'] + body
            } else {
                body
            });
            assert(body[point as int] == '.');
            assert(forall|x: int| 0 <= x < point ==> #[trigger] body[x] == padded[x]);
            assert(forall|x: int|
                point < x < body.len() ==> #[trigger] body[x] == padded[x - 1]);
            let b = signed_body(t);
            if mi < 0 {
                assert(t[0] == '-');
                assert(b =~= body);
            } else {
                assert(body[0] == padded[0]);
                assert(is_digit(body[0]));
                assert(t == body);
                assert(b =~= body);
            }
            // Not an integer literal: the point is no digit.
            assert(!is_digit(b[point as int]));
            assert(!all_digits(b));
            assert(!int_lit_shape(t));
            // A decimal literal whose digits are exactly the padded string.
            lemma_dot_pos_finds(b, 0, point as int);
            assert(b.subrange(0, point as int) =~= padded.subrange(0, point as int));
            assert(b.subrange(point as int + 1, b.len() as int) =~= padded.subrange(
                point as int,
                padded.len() as int,
            ));
            assert(all_digits(b.subrange(0, point as int))) by {
                assert(forall|x: int|
                    0 <= x < point ==> is_digit(#[trigger] padded.subrange(0, point as int)[x]));
            }
            assert(all_digits(b.subrange(point as int + 1, b.len() as int))) by {
                assert(forall|x: int|
                    0 <= x < padded.len() - point ==> is_digit(#[trigger] padded.subrange(
                        point as int,
                        padded.len() as int,
                    )[x]));
            }
            assert(dec_lit_shape(t));
            assert(dec_lit_digits(t) =~= padded);
            assert(dec_lit_scale(t) == sn);
            // The denoted value is m / 10^s, whose canonical form is n itself.
            assert(sign_of(t) == (if mi < 0 { -1int } else { 1int }));
            assert(sign_of(t) * digits_val(dec_lit_digits(t)) == mi) by (nonlinear_arith)
                requires
                    digits_val(dec_lit_digits(t)) == vstd::math::abs(mi) as int,
                    sign_of(t) == (if mi < 0 { -1int } else { 1int }),
            ;
            assert(strip(mi, sn) == (mi, sn));
            assert(canon(mi, sn) == Some(Number::Dec { m, s }));
        },
        _ => {},
    }
}

/// The tokens that printing a tree produces: an atom is one token, a
/// string its marker and contents, a list its elements between
/// parentheses.
pub open spec fn print_tokens(v: ExpV) -> Seq<Seq<char>>
    decreases v,
{
    match v {
        ExpV::List(es) => seq![seq!['(']] + print_tokens_items(es) + seq![seq![')']],
        ExpV::Str(s) => seq![seq!['"'], s],
        _ => seq![crate::printer::printed(v)],
    }
}

pub open spec fn print_tokens_items(es: Seq<ExpV>) -> Seq<Seq<char>>
    decreases es,
{
    if es.len() == 0 {
        Seq::empty()
    } else {
        print_tokens(es[0]) + print_tokens_items(es.drop_first())
    }
}

/// The trees whose printed form reads back: booleans, canonical numbers,
/// symbols whose text classifies as that symbol and is no reader
/// punctuation, and lists of such trees.  Strings are out (printing drops
/// their quotes, so they read back as symbols), and so are callables.
pub open spec fn reads_back(v: ExpV) -> bool
    decreases v,
{
    match v {
        ExpV::Num(n) => crate::numbers::num_wf(n),
        ExpV::Bool(_) => true,
        ExpV::Sym(s) => classify(s) == ExpV::Sym(s) && s != seq!['('] && s != seq![')'] && s
            != seq!['\''] && s != seq!['"'],
        ExpV::Str(_) => false,
        ExpV::Func(_) => false,
        ExpV::Proc { .. } => false,
        ExpV::List(es) => forall|j: int| 0 <= j < es.len() ==> reads_back(#[trigger] es[j]),
    }
}

/// An atom that reads back prints as a single token that the reader does
/// not mistake for punctuation.
proof fn lemma_atom_token_shape(v: ExpV)
    requires
        reads_back(v),
        !(v matches ExpV::List(_)),
    ensures
        print_tokens(v).len() == 1,
        print_tokens(v)[0] != seq!['('],
        print_tokens(v)[0] != seq![')'],
        print_tokens(v)[0] != seq!['\''],
        print_tokens(v)[0] != seq!['"'],
        classify(print_tokens(v)[0]) == v,
{
    match v {
        ExpV::Bool(b) => {
            lemma_printed_atom_reads_back(v);
            let t = crate::printer::printed(v);
            assert(t.len() == 2);
        },
        ExpV::Num(n) => {
            lemma_printed_atom_reads_back(v);
            let t = crate::printer::printed(v);
            match n {
                Number::Int(iv) => {
                    if iv >= 0 {
                        lemma_dec_digits_inverse(iv as int);
                        assert(is_digit(t[0]));
                    } else {
                        assert(t[0] == '-');
                    }
                },
                Number::Dec { m, s } => {
                    let mag = vstd::math::abs(m as int) as int;
                    lemma_dec_digits_inverse(mag);
                    let ds = crate::printer::dec_digits(mag);
                    let padded = if ds.len() <= s as nat {
                        seq!['0'].add(Seq::new((s as nat - ds.len()) as nat, |j: int| '0')) + ds
                    } else {
                        ds
                    };
                    if ds.len() <= s as nat {
                        let z = seq!['0'].add(Seq::new((s as nat - ds.len()) as nat, |j: int| '0'));
                        assert(forall|j: int| 0 <= j < z.len() ==> #[trigger] z[j] == '0');
                        lemma_digits_val_lead_zeros(z, ds);
                        assert(padded =~= z + ds);
                    }
                    assert(is_digit(padded[0]));
                    if m < 0 {
                        assert(t[0] == '-');
                    } else {
                        assert(t[0] == padded[0]);
                    }
                },
            }
        },
        ExpV::Sym(s) => {
        },
        _ => {},
    }
}

/// Reading from a token stream that carries a printed tree at `pos` gives
/// back exactly that tree and stops right after it.
proof fn lemma_read_print(v: ExpV, toks: Seq<Seq<char>>, pos: int)
    requires
        reads_back(v),
        0 <= pos,
        pos + print_tokens(v).len() <= toks.len(),
        toks.subrange(pos, pos + print_tokens(v).len() as int) == print_tokens(v),
    ensures
        read_spec(toks, pos) == Some((v, pos + print_tokens(v).len() as int)),
    decreases v, 0int,
{
    let pt = print_tokens(v);
    assert(forall|j: int| 0 <= j < pt.len() ==> #[trigger] toks[pos + j] == pt[j]) by {
        assert(forall|j: int|
            0 <= j < pt.len() ==> toks.subrange(pos, pos + pt.len() as int)[j] == #[trigger]
                toks[pos + j]);
    }
    match v {
        ExpV::List(es) => {
            assert(toks[pos] == seq!['(']);
            let items = print_tokens_items(es);
            assert(toks.subrange(pos + 1, pos + 1 + items.len() as int) =~= items) by {
                assert(forall|j: int|
                    0 <= j < items.len() ==> (seq![seq!['(']] + items + seq![seq![')']])[1 + j]
                        == #[trigger] items[j]);
                assert(forall|j: int|
                    0 <= j < items.len() ==> toks.subrange(pos + 1, pos + 1 + items.len() as int)[j]
                        == #[trigger] toks[pos + 1 + j]);
            }
            assert(toks[pos + 1 + items.len() as int] == seq![')']) by {
                assert(pt[1 + items.len() as int] == seq![')']);
            }
            lemma_read_print_items(es, toks, pos + 1, pos + 1 + print_tokens_items(es).len());
            assert(read_list_spec(toks, pos + 1) == Some(
                (es, pos + print_tokens(v).len() as int),
            ));
        },
        _ => {
            lemma_atom_token_shape(v);
            assert(toks[pos] == pt[0]);
            assert(read_spec(toks, pos) == Some((classify(toks[pos]), pos + 1)));
        },
    }
}

/// Reading list elements from a token stream that carries the printed
/// elements and then a closing parenthesis consumes them all.
proof fn lemma_read_print_items(es: Seq<ExpV>, toks: Seq<Seq<char>>, pos: int, close: int)
    requires
        forall|j: int| 0 <= j < es.len() ==> reads_back(#[trigger] es[j]),
        0 <= pos,
        close == pos + print_tokens_items(es).len(),
        close < toks.len(),
        toks.subrange(pos, close) == print_tokens_items(es),
        toks[close] == seq![')'],
    ensures
        read_list_spec(toks, pos) == Some((es, close + 1)),
    decreases es, 1int,
{
    if es.len() == 0 {
        assert(read_list_spec(toks, pos) == Some((Seq::<ExpV>::empty(), pos + 1)));
        assert(es =~= Seq::<ExpV>::empty());
    } else {
        let head = es[0];
        let pt0 = print_tokens(head);
        let rest = print_tokens_items(es.drop_first());
        assert(print_tokens_items(es) == pt0 + rest);
        assert(toks.subrange(pos, pos + pt0.len() as int) =~= pt0) by {
            assert(forall|j: int|
                0 <= j < pt0.len() ==> toks.subrange(pos, close)[j] == #[trigger] toks[pos + j]);
            assert(forall|j: int| 0 <= j < pt0.len() ==> (pt0 + rest)[j] == #[trigger] pt0[j]);
        }
        lemma_read_print(head, toks, pos);
        let mid = pos + pt0.len() as int;
        assert(toks.subrange(mid, close) =~= rest) by {
            assert(forall|j: int|
                0 <= j < rest.len() ==> toks.subrange(pos, close)[pt0.len() + j] == #[trigger]
                    toks[mid + j]);
            assert(forall|j: int|
                0 <= j < rest.len() ==> (pt0 + rest)[pt0.len() + j] == #[trigger] rest[j]);
        }
        lemma_read_print_items(es.drop_first(), toks, mid, close);
        // The head token is no closing parenthesis, so the list keeps going.
        assert(toks[pos] == pt0[0]) by {
            assert(toks.subrange(pos, pos + pt0.len() as int)[0] == toks[pos]);
        }
        assert(toks[pos] != seq![')']) by {
            match head {
                ExpV::List(_) => {
                    assert(pt0[0] == seq!['(']);
                },
                ExpV::Str(_) => {
                    assert(pt0[0] == seq!['"']);
                },
                _ => {
                    lemma_atom_token_shape(head);
                },
            }
        }
        assert(read_list_spec(toks, pos) == Some((seq![head] + es.drop_first(), close + 1)));
        assert(seq![head] + es.drop_first() =~= es);
    }
}

/// Round trip, token level: the token stream a tree prints to reads back
/// as exactly that tree, consuming every token.  This holds for every
/// tree of booleans, canonical numbers, ordinary symbols and lists of
/// such; strings and callables print without enough structure to come
/// back.  `lemma_print_tokenize_round_trip` closes the remaining text
/// level: the printed characters tokenize to exactly these tokens.
pub proof fn lemma_print_read_round_trip(v: ExpV)
    requires
        reads_back(v),
    ensures
        read_spec(print_tokens(v), 0) == Some((v, print_tokens(v).len() as int)),
{
    let toks = print_tokens(v);
    assert(toks.subrange(0, toks.len() as int) =~= toks);
    lemma_read_print(v, toks, 0);
}


/// The trees whose printed text tokenizes back into their print tokens:
/// like `reads_back`, with the symbol side conditions the tokenizer needs
/// (no delimiter characters inside, no quote mark in front).
pub open spec fn token_clean(v: ExpV) -> bool
    decreases v,
{
    match v {
        ExpV::Num(n) => crate::numbers::num_wf(n),
        ExpV::Bool(_) => true,
        ExpV::Sym(s) => classify(s) == ExpV::Sym(s) && s.len() > 0 && (forall|j: int|
            0 <= j < s.len() ==> !is_delim(#[trigger] s[j])) && s[0] != '\'' && s[0] != '"',
        ExpV::Str(_) => false,
        ExpV::Func(_) => false,
        ExpV::Proc { .. } => false,
        ExpV::List(es) => forall|j: int| 0 <= j < es.len() ==> token_clean(#[trigger] es[j]),
    }
}

/// Clean trees read back.
pub proof fn lemma_token_clean_reads_back(v: ExpV)
    requires
        token_clean(v),
    ensures
        reads_back(v),
    decreases v,
{
    match v {
        ExpV::Sym(s) => {
            assert(!is_delim(s[0]));
            if s == seq!['('] {
                assert(is_delim(s[0]));
            }
            if s == seq![')'] {
                assert(is_delim(s[0]));
            }
        },
        ExpV::List(es) => {
            assert forall|j: int| 0 <= j < es.len() implies reads_back(#[trigger] es[j]) by {
                lemma_token_clean_reads_back(es[j]);
            }
        },
        _ => {},
    }
}

/// A clean atom prints as one non-empty run of token characters: no
/// delimiter anywhere, and a head that opens no other token form.
proof fn lemma_atom_chars_clean(v: ExpV)
    requires
        token_clean(v),
        !(v matches ExpV::List(_)),
    ensures
        crate::printer::printed(v).len() > 0,
        forall|j: int|
            0 <= j < crate::printer::printed(v).len() ==> !is_delim(
                #[trigger] crate::printer::printed(v)[j],
            ),
        crate::printer::printed(v)[0] != '\'',
        crate::printer::printed(v)[0] != '"',
{
    let t = crate::printer::printed(v);
    match v {
        ExpV::Bool(b) => {
            assert(t.len() == 2 && t[0] == '#');
            assert(forall|j: int| 0 <= j < t.len() ==> !is_delim(#[trigger] t[j]));
        },
        ExpV::Num(n) => {
            match n {
                Number::Int(iv) => {
                    if iv >= 0 {
                        lemma_dec_digits_inverse(iv as int);
                        assert(t == crate::printer::dec_digits(iv as int));
                        assert(forall|j: int| 0 <= j < t.len() ==> is_digit(#[trigger] t[j]));
                        assert(forall|j: int|
                            0 <= j < t.len() ==> !is_delim(#[trigger] t[j]) && t[j] != '\''
                                && t[j] != '"');
                    } else {
                        let ds = crate::printer::dec_digits(-(iv as int));
                        lemma_dec_digits_inverse(-(iv as int));
                        assert(t == seq!['-'] + ds);
                        assert(forall|j: int| 0 <= j < ds.len() ==> is_digit(#[trigger] ds[j]));
                        assert(forall|j: int|
                            1 <= j < t.len() ==> is_digit(#[trigger] t[j])) by {
                            assert(forall|j: int|
                                1 <= j < t.len() ==> #[trigger] t[j] == ds[j - 1]);
                        }
                        assert(forall|j: int| 0 <= j < t.len() ==> !is_delim(#[trigger] t[j]));
                    }
                },
                Number::Dec { m, s } => {
                    let mag = vstd::math::abs(m as int) as int;
                    let ds = crate::printer::dec_digits(mag);
                    lemma_dec_digits_inverse(mag);
                    let padded = if ds.len() <= s as nat {
                        seq!['0'].add(Seq::new((s as nat - ds.len()) as nat, |j: int| '0')) + ds
                    } else {
                        ds
                    };
                    if ds.len() <= s as nat {
                        let z = seq!['0'].add(Seq::new((s as nat - ds.len()) as nat, |j: int| '0'));
                        assert(forall|j: int| 0 <= j < z.len() ==> #[trigger] z[j] == '0');
                        lemma_digits_val_lead_zeros(z, ds);
                        assert(padded =~= z + ds);
                    }
                    assert(forall|j: int| 0 <= j < padded.len() ==> is_digit(#[trigger] padded[j]));
                    let point = padded.len() - s as nat;
                    let body = padded.subrange(0, point as int) + seq!['.'] + padded.subrange(
                        point as int,
                        padded.len() as int,
                    );
                    assert(forall|j: int|
                        0 <= j < body.len() ==> (is_digit(#[trigger] body[j]) || body[j] == '.'))
                        by {
                        assert(forall|x: int|
                            0 <= x < point ==> #[trigger] body[x] == padded[x]);
                        assert(forall|x: int|
                            point < x < body.len() ==> #[trigger] body[x] == padded[x - 1]);
                    }
                    assert(t == crate::printer::dec_chars(m as int, s as nat));
                    if m < 0 {
                        assert(t == seq!['-'] + body);
                        assert(forall|j: int|
                            1 <= j < t.len() ==> (is_digit(#[trigger] t[j]) || t[j] == '.')) by {
                            assert(forall|j: int|
                                1 <= j < t.len() ==> #[trigger] t[j] == body[j - 1]);
                        }
                        assert(forall|j: int| 0 <= j < t.len() ==> !is_delim(#[trigger] t[j]));
                    } else {
                        assert(t == body);
                        assert(forall|j: int| 0 <= j < t.len() ==> !is_delim(#[trigger] t[j]));
                    }
                    assert(is_digit(padded[0]));
                    assert(t[0] == '-' || t[0] == padded[0]);
                },
            }
        },
        ExpV::Sym(_) => {},
        _ => {},
    }
}

/// Over a clean run ending at a delimiter (or the end), the atom scan
/// stops exactly there.
proof fn lemma_atom_end_exact(s: Seq<char>, i: int, j: int)
    requires
        0 <= i <= j <= s.len(),
        forall|k: int| i <= k < j ==> !is_delim(#[trigger] s[k]),
        j == s.len() || is_delim(s[j]),
    ensures
        atom_end(s, i) == j,
    decreases j - i,
{
    if i < j {
        lemma_atom_end_exact(s, i + 1, j);
    }
}


/// A clean tree prints as non-empty text whose head character neither is
/// whitespace nor opens a quote or string token.
proof fn lemma_printed_head(v: ExpV)
    requires
        token_clean(v),
    ensures
        crate::printer::printed(v).len() > 0,
        !is_ws(crate::printer::printed(v)[0]),
        crate::printer::printed(v)[0] != '\'',
        crate::printer::printed(v)[0] != '"',
{
    match v {
        ExpV::List(es) => {
            assert(crate::printer::printed(v)[0] == '(');
        },
        _ => {
            lemma_atom_chars_clean(v);
            assert(!is_delim(crate::printer::printed(v)[0]));
        },
    }
}

/// Tokenizing text that carries a printed clean tree at `i` yields its
/// print tokens and goes on behind it; the character after the tree (if
/// the text goes on) must be a delimiter.
proof fn lemma_tok_print(v: ExpV, s: Seq<char>, i: int)
    requires
        token_clean(v),
        0 <= i,
        i + crate::printer::printed(v).len() <= s.len(),
        forall|k: int|
            0 <= k < crate::printer::printed(v).len() ==> s[i + k] == #[trigger]
                crate::printer::printed(v)[k],
        i + crate::printer::printed(v).len() == s.len() || is_delim(
            s[i + crate::printer::printed(v).len()],
        ),
    ensures
        match tok_spec(s, i + crate::printer::printed(v).len() as int) {
            Some(rest) => tok_spec(s, i) == Some(print_tokens(v) + rest),
            None => tok_spec(s, i) is None,
        },
    decreases v, 0int,
{
    let t = crate::printer::printed(v);
    let ln = t.len() as int;
    match v {
        ExpV::List(es) => {
            let items = crate::printer::printed_items(es);
            assert(t == seq!['('] + items + seq![')']);
            assert(s[i] == t[0] && t[0] == '(');
            assert(tok_spec(s, i) == (match tok_spec(s, i + 1) {
                Some(r) => Some(seq![seq!['(']] + r),
                None => None,
            }));
            // The item region sits at i + 1, closed by the ')'.
            assert(forall|k: int|
                0 <= k < items.len() ==> s[i + 1 + k] == #[trigger] items[k]) by {
                assert(forall|k: int|
                    0 <= k < items.len() ==> #[trigger] items[k] == t[1 + k]);
            }
            assert(s[i + 1 + items.len()] == ')') by {
                assert(t[ln - 1] == ')');
            }
            lemma_tok_print_items(es, s, i + 1);
            let after = i + 1 + items.len() as int;
            assert(tok_spec(s, after) == (match tok_spec(s, after + 1) {
                Some(r) => Some(seq![seq![')']] + r),
                None => None,
            }));
            assert(after + 1 == i + ln);
            match tok_spec(s, i + ln) {
                Some(rest) => {
                    assert(tok_spec(s, after) == Some(seq![seq![')']] + rest));
                    assert(tok_spec(s, i + 1) == Some(
                        print_tokens_items(es) + (seq![seq![')']] + rest),
                    ));
                    assert(seq![seq!['(']] + (print_tokens_items(es) + (seq![seq![')']] + rest))
                        =~= (seq![seq!['(']] + print_tokens_items(es) + seq![seq![')']]) + rest);
                },
                None => {},
            }
        },
        _ => {
            lemma_atom_chars_clean(v);
            assert forall|k: int| i <= k < i + ln implies !is_delim(s[k]) by {
                let k2 = k - i;
                assert(s[i + k2] == t[k2]);
                assert(!is_delim(t[k2]));
            }
            lemma_atom_end_exact(s, i, i + ln);
            assert(s[i] == t[0]);
            assert(!is_delim(s[i]) && s[i] != '\'' && s[i] != '"');
            assert(tok_spec(s, i) == (match tok_spec(s, atom_end(s, i)) {
                Some(r) => Some(seq![s.subrange(i, atom_end(s, i))] + r),
                None => None,
            }));
            assert(s.subrange(i, i + ln) =~= t);
            assert(print_tokens(v) == seq![t]);
        },
    }
}

/// Tokenizing the printed items of a list, sitting at `i` and closed by a
/// `)`, yields their print tokens and goes on at the `)`.
proof fn lemma_tok_print_items(es: Seq<ExpV>, s: Seq<char>, i: int)
    requires
        forall|j: int| 0 <= j < es.len() ==> token_clean(#[trigger] es[j]),
        0 <= i,
        i + crate::printer::printed_items(es).len() < s.len(),
        forall|k: int|
            0 <= k < crate::printer::printed_items(es).len() ==> s[i + k] == #[trigger]
                crate::printer::printed_items(es)[k],
        s[i + crate::printer::printed_items(es).len()] == ')',
    ensures
        match tok_spec(s, i + crate::printer::printed_items(es).len() as int) {
            Some(rest) => tok_spec(s, i) == Some(print_tokens_items(es) + rest),
            None => tok_spec(s, i) is None,
        },
    decreases es, 1int,
{
    let pi = crate::printer::printed_items(es);
    if es.len() == 0 {
        assert(pi.len() == 0);
        match tok_spec(s, i) {
            Some(rest) => {
                assert(print_tokens_items(es) + rest =~= rest);
            },
            None => {},
        }
    } else if es.len() == 1 {
        assert(pi == crate::printer::printed(es[0]));
        lemma_tok_print(es[0], s, i);
        match tok_spec(s, i + pi.len() as int) {
            Some(rest) => {
                assert(es.drop_first() =~= Seq::<ExpV>::empty());
                assert(print_tokens_items(es) == print_tokens(es[0]) + print_tokens_items(
                    es.drop_first(),
                ));
                assert(print_tokens(es[0]) + Seq::<Seq<char>>::empty() =~= print_tokens(es[0]));
            },
            None => {},
        }
    } else {
        let head = es[0];
        let tail = es.subrange(1, es.len() as int);
        let t0 = crate::printer::printed(head);
        let pt = crate::printer::printed_items(tail);
        assert(pi == t0 + seq![' '] + pt);
        // The head is followed by the separating space.
        assert(forall|k: int|
            0 <= k < t0.len() ==> s[i + k] == #[trigger] t0[k]) by {
            assert(forall|k: int| 0 <= k < t0.len() ==> #[trigger] t0[k] == pi[k]);
        }
        let p1 = i + t0.len() as int;
        assert(s[p1] == ' ') by {
            assert(pi[t0.len() as int] == ' ');
        }
        lemma_tok_print(head, s, i);
        // The space is skipped, landing on the next item's head.
        assert(forall|k: int|
            0 <= k < pt.len() ==> s[p1 + 1 + k] == #[trigger] pt[k]) by {
            assert(forall|k: int|
                0 <= k < pt.len() ==> #[trigger] pt[k] == pi[t0.len() + 1 + k]);
        }
        assert(s[p1 + 1 + pt.len()] == ')') by {
            assert(i + pi.len() == p1 + 1 + pt.len());
        }
        assert(tail.len() > 0);
        assert(forall|j: int| 0 <= j < tail.len() ==> token_clean(#[trigger] tail[j]));
        lemma_printed_head(tail[0]);
        assert(s[p1 + 1] == crate::printer::printed(tail[0])[0]) by {
            assert(crate::printer::printed_items(tail)[0] == crate::printer::printed(tail[0])[0]);
        }
        assert(!is_ws(s[p1 + 1]));
        assert(ws_end(s, p1) == ws_end(s, p1 + 1));
        assert(ws_end(s, p1 + 1) == p1 + 1);
        assert(tok_spec(s, p1) == tok_spec(s, p1 + 1));
        lemma_tok_print_items(tail, s, p1 + 1);
        match tok_spec(s, i + pi.len() as int) {
            Some(rest) => {
                assert(tok_spec(s, p1 + 1) == Some(print_tokens_items(tail) + rest));
                assert(tok_spec(s, i) == Some(
                    print_tokens(head) + (print_tokens_items(tail) + rest),
                ));
                assert(print_tokens(head) + (print_tokens_items(tail) + rest)
                    =~= (print_tokens(head) + print_tokens_items(tail)) + rest);
                assert(print_tokens_items(es) == print_tokens(head) + print_tokens_items(
                    es.drop_first(),
                ));
                assert(es.drop_first() =~= tail);
            },
            None => {},
        }
    }
}

/// Round trip, text level: the printed text of a clean tree tokenizes to
/// exactly its print tokens, which (by the token-level round trip) read
/// back as exactly that tree.
pub proof fn lemma_print_tokenize_round_trip(v: ExpV)
    requires
        token_clean(v),
    ensures
        tok_spec(crate::printer::printed(v), 0) == Some(print_tokens(v)),
        read_spec(print_tokens(v), 0) == Some((v, print_tokens(v).len() as int)),
{
    let t = crate::printer::printed(v);
    lemma_tok_print(v, t, 0);
    assert(tok_spec(t, t.len() as int) == Some(Seq::<Seq<char>>::empty()));
    assert(print_tokens(v) + Seq::<Seq<char>>::empty() =~= print_tokens(v));
    lemma_token_clean_reads_back(v);
    lemma_print_read_round_trip(v);
}

/// Pushing a string pushes its view.
proof fn lemma_views_push(v: Seq<String>, t: Seq<char>)
    requires
        v.len() > 0,
        v.last()@ == t,
    ensures
        views_of_strings(v) == views_of_strings(v.drop_last()) + seq![t],
{
    assert(views_of_strings(v) =~= views_of_strings(v.drop_last()) + seq![t]);
}

} // verus!
