//! Driving complete forms through the evaluator: the parenthesis-balance
//! scan that decides whether a line of input still continues, and the
//! batch runner that folds a whole program's lines into balanced units and
//! evaluates them against one shared environment.

use vstd::prelude::*;
use crate::types::{views_of_seq, Environment, EvalErr, Exceptions, Exp, ExpV};
use crate::default_env::default_env;
use crate::eval::{parse_and_eval, spec_eval, MAX_CALL_DEPTH};
use crate::parser::{str_to_chars, views_of_strings};
use crate::printer::chars_to_string;

verus! {

broadcast use vstd::std_specs::vec::axiom_vec_index_decreases;

/// What a parenthesis scan of a line concludes.
pub enum ParensStatus {
    MATCHING,
    LeftParensMore,
    RightParensMore,
}

/// What becomes of one line of input.
pub enum LineStatus {
    EXIT,
    GoNextLine(String),
    InvalidSExpr(String),
    ValidSExpr(String),
}

/// Fold a parenthesis scan over `s` starting with `depth` open
/// parentheses: the open count afterwards, or `None` when a `)` arrives
/// with none open.
pub open spec fn paren_fold(s: Seq<char>, i: int, depth: int) -> Option<int>
    decreases s.len() - i,
    when 0 <= i <= s.len()
{
    if i >= s.len() {
        Some(depth)
    } else if s[i] == '(' {
        paren_fold(s, i + 1, depth + 1)
    } else if s[i] == ')' {
        if depth == 0 {
            None
        } else {
            paren_fold(s, i + 1, depth - 1)
        }
    } else {
        paren_fold(s, i + 1, depth)
    }
}

/// Scan one line against the continuation stack.  The stack records how
/// many parentheses earlier lines left open; afterwards it records the
/// count the fold ends with, and the result says whether the line closed
/// everything, leaves some open, or closed one too many.
pub fn line_status(s: &str, stack: &mut Vec<char>) -> (r: ParensStatus)
    ensures
        match paren_fold(s@, 0, old(stack)@.len() as int) {
            Some(d) => final(stack)@.len() == d && (r matches ParensStatus::MATCHING <==> d == 0)
                && (r matches ParensStatus::LeftParensMore <==> d > 0),
            None => r matches ParensStatus::RightParensMore,
        },
{
    let cs = str_to_chars(s);
    let n = cs.len();
    let mut i: usize = 0;
    while i < n
        invariant
            0 <= i <= n,
            n == s@.len(),
            cs@ == s@,
            paren_fold(s@, 0, old(stack)@.len() as int) == paren_fold(
                s@,
                i as int,
                stack@.len() as int,
            ),
        decreases n - i,
    {
        let c = cs[i];
        if c == '(' {
            stack.push('(');
        } else if c == ')' {
            if stack.len() == 0 {
                return ParensStatus::RightParensMore;
            } else {
                let _ = stack.pop();
            }
        }
        i = i + 1;
    }
    if stack.len() == 0 {
        ParensStatus::MATCHING
    } else {
        ParensStatus::LeftParensMore
    }
}

/// Scan one line on its own: like `line_status` with nothing carried over.
pub fn first_line_status(s: &str) -> (r: ParensStatus)
    ensures
        match paren_fold(s@, 0, 0) {
            Some(d) => (r matches ParensStatus::MATCHING <==> d == 0) && (
            r matches ParensStatus::LeftParensMore <==> d > 0),
            None => r matches ParensStatus::RightParensMore,
        },
{
    let mut stack: Vec<char> = Vec::new();
    line_status(s, &mut stack)
}

/// Decide what to do with one line: on a first line, a bare `exit` ends
/// the session and an empty line counts as complete; otherwise the
/// parenthesis scan decides whether the line completes a unit, continues
/// onto the next line, or closed one parenthesis too many.
pub fn handle_line(line: String, first: bool, stack: &mut Vec<char>) -> (r: LineStatus)
    ensures
        first && line@ == "exit"@ ==> (r matches LineStatus::EXIT && *final(stack) == *old(
            stack,
        )),
        first && line@.len() == 0 ==> (r matches LineStatus::ValidSExpr(s) && s@ == line@
            && *final(stack) == *old(stack)),
        !(first && (line@ == "exit"@ || line@.len() == 0)) ==> match paren_fold(
            line@,
            0,
            old(stack)@.len() as int,
        ) {
            Some(d) => final(stack)@.len() == d && (d == 0 ==> (r matches LineStatus::ValidSExpr(s)
                && s@ == line@)) && (d > 0 ==> (r matches LineStatus::GoNextLine(s) && s@
                == line@)),
            None => r matches LineStatus::InvalidSExpr(s) && s@ == line@,
        },
{
    proof {
        assert("exit"@.len() == 4) by {
            reveal_strlit("exit");
        }
    }
    if first && line.as_str().unicode_len() == 0 {
        return LineStatus::ValidSExpr(line);
    }
    if first && crate::types::str_eq(line.as_str(), "exit") {
        return LineStatus::EXIT;
    }
    match line_status(line.as_str(), stack) {
        ParensStatus::MATCHING => LineStatus::ValidSExpr(line),
        ParensStatus::LeftParensMore => LineStatus::GoNextLine(line),
        ParensStatus::RightParensMore => LineStatus::InvalidSExpr(line),
    }
}

/// The first position at or after `i` holding a newline, or the end.
pub open spec fn line_end(s: Seq<char>, i: int) -> int
    decreases s.len() - i,
    when 0 <= i <= s.len()
{
    if i < s.len() && s[i] != '\n' {
        line_end(s, i + 1)
    } else {
        i
    }
}

proof fn lemma_line_end_bounds(s: Seq<char>, i: int)
    requires
        0 <= i <= s.len(),
    ensures
        i <= line_end(s, i) <= s.len(),
    decreases s.len() - i,
{
    if i < s.len() && s[i] != '\n' {
        lemma_line_end_bounds(s, i + 1);
    }
}

/// The lines of a text, split on newlines; a trailing newline yields a
/// final empty line, matching the split the runner performs.
pub open spec fn lines_from(s: Seq<char>, i: int) -> Seq<Seq<char>>
    decreases s.len() - i,
    when 0 <= i <= s.len()
    via lines_from_decreases
{
    let e = line_end(s, i);
    if e >= s.len() {
        seq![s.subrange(i, e)]
    } else {
        seq![s.subrange(i, e)] + lines_from(s, e + 1)
    }
}

#[via_fn]
proof fn lines_from_decreases(s: Seq<char>, i: int) {
    if 0 <= i <= s.len() {
        lemma_line_end_bounds(s, i);
    }
}

/// Split a program into its lines, exactly as `lines_from` says.
fn split_lines(program: &str) -> (r: Vec<String>)
    ensures
        views_of_strings(r@) == lines_from(program@, 0),
        program@.len() <= usize::MAX,
{
    let cs = str_to_chars(program);
    let ghost s = program@;
    let n = cs.len();
    let mut lines: Vec<String> = Vec::new();
    let mut cur: Vec<char> = Vec::new();
    let mut i: usize = 0;
    let ghost mut start: int = 0;
    while i < n
        invariant
            0 <= start <= i <= n,
            n == s.len(),
            cs@ == s,
            cur@ == s.subrange(start, i as int),
            line_end(s, start) == line_end(s, i as int),
            lines_from(s, 0) =~= views_of_strings(lines@) + lines_from(s, start),
        decreases n - i,
    {
        let c = cs[i];
        if c == '\n' {
            proof {
                assert(line_end(s, i as int) == i as int);
            }
            let ghost lines0 = lines@;
            lines.push(chars_to_string(&cur));
            proof {
                assert(views_of_strings(lines@) =~= views_of_strings(lines0) + seq![
                    s.subrange(start, i as int),
                ]);
                assert(lines_from(s, start) == seq![s.subrange(start, i as int)] + lines_from(
                    s,
                    i + 1,
                ));
            }
            cur = Vec::new();
            proof {
                start = i + 1;
                assert(cur@ =~= s.subrange(start, i + 1));
                assert(lines_from(s, 0) =~= views_of_strings(lines@) + lines_from(s, start));
            }
        } else {
            cur.push(c);
            proof {
                assert(s.subrange(start, i + 1) =~= s.subrange(start, i as int) + seq![
                    s[i as int],
                ]);
            }
        }
        i = i + 1;
    }
    proof {
        assert(line_end(s, i as int) == i as int);
        assert(lines_from(s, start) == seq![s.subrange(start, n as int)]);
    }
    let ghost lines0 = lines@;
    lines.push(chars_to_string(&cur));
    proof {
        assert(views_of_strings(lines@) =~= views_of_strings(lines0) + seq![
            s.subrange(start, n as int),
        ]);
        assert(views_of_strings(lines@) =~= lines_from(s, 0));
    }
    lines
}

/// The index of the line that closes a unit with `open` parentheses
/// outstanding, scanning from `j`; `lines.len()` when it never closes.
pub open spec fn unit_end(lines: Seq<Seq<char>>, j: int, open: int) -> int
    decreases lines.len() - j,
    when 0 <= j <= lines.len()
{
    if j >= lines.len() {
        j
    } else {
        match paren_fold(lines[j], 0, open) {
            None => j,
            Some(d) => if d == 0 {
                j
            } else {
                unit_end(lines, j + 1, d)
            },
        }
    }
}

proof fn lemma_unit_end_bounds(lines: Seq<Seq<char>>, j: int, open: int)
    requires
        0 <= j <= lines.len(),
    ensures
        j <= unit_end(lines, j, open) <= lines.len(),
    decreases lines.len() - j,
{
    if j < lines.len() {
        match paren_fold(lines[j], 0, open) {
            None => {},
            Some(d) => {
                if d != 0 {
                    lemma_unit_end_bounds(lines, j + 1, d);
                }
            },
        }
    }
}

/// Lines `i..=j` joined with newlines: the text of one multi-line unit.
pub open spec fn unit_text(lines: Seq<Seq<char>>, i: int, j: int) -> Seq<char>
    decreases j - i,
    when 0 <= i <= j < lines.len()
{
    if i >= j {
        lines[i]
    } else {
        lines[i] + seq!['\n'] + unit_text(lines, i + 1, j)
    }
}

/// Extending a joined unit by one more line.
proof fn lemma_unit_text_snoc(lines: Seq<Seq<char>>, i: int, j: int)
    requires
        0 <= i <= j,
        j + 1 < lines.len(),
    ensures
        unit_text(lines, i, j + 1) == unit_text(lines, i, j) + seq!['\n'] + lines[j + 1],
    decreases j - i,
{
    if i < j {
        lemma_unit_text_snoc(lines, i + 1, j);
        assert(unit_text(lines, i, j + 1) == lines[i] + seq!['\n'] + unit_text(
            lines,
            i + 1,
            j + 1,
        ));
        assert(lines[i] + seq!['\n'] + (unit_text(lines, i + 1, j) + seq!['\n'] + lines[j + 1])
            =~= (lines[i] + seq!['\n'] + unit_text(lines, i + 1, j)) + seq!['\n'] + lines[j + 1]);
    } else {
        assert(unit_text(lines, i, j + 1) == lines[i] + seq!['\n'] + unit_text(
            lines,
            i + 1,
            j + 1,
        ));
        assert(unit_text(lines, i + 1, j + 1) == lines[j + 1]);
        assert(unit_text(lines, i, j) == lines[i]);
    }
}

/// Fold lines into parenthesis-balanced units: the units in order, and
/// whether a final unit was still open when the lines ran out.
pub open spec fn spec_units(lines: Seq<Seq<char>>, i: int) -> (Seq<Seq<char>>, bool)
    decreases lines.len() - i,
    when 0 <= i <= lines.len()
    via spec_units_decreases
{
    if i >= lines.len() {
        (Seq::empty(), false)
    } else {
        match paren_fold(lines[i], 0, 0) {
            Some(d) => if d > 0 {
                let e = unit_end(lines, i + 1, d);
                if e >= lines.len() {
                    (Seq::empty(), true)
                } else {
                    let rest = spec_units(lines, e + 1);
                    (seq![unit_text(lines, i, e)] + rest.0, rest.1)
                }
            } else {
                let rest = spec_units(lines, i + 1);
                (seq![lines[i]] + rest.0, rest.1)
            },
            None => {
                let rest = spec_units(lines, i + 1);
                (seq![lines[i]] + rest.0, rest.1)
            },
        }
    }
}

#[via_fn]
proof fn spec_units_decreases(lines: Seq<Seq<char>>, i: int) {
    if 0 <= i < lines.len() {
        match paren_fold(lines[i], 0, 0) {
            Some(d) => {
                if d > 0 {
                    lemma_unit_end_bounds(lines, i + 1, d);
                }
            },
            None => {},
        }
    }
}

/// The open count a scan can reach is bounded by what it started with
/// plus the characters it read.
proof fn lemma_paren_fold_bound(s: Seq<char>, i: int, depth: int)
    requires
        0 <= i <= s.len(),
        depth >= 0,
    ensures
        paren_fold(s, i, depth) matches Some(d) ==> 0 <= d <= depth + s.len() - i,
    decreases s.len() - i,
{
    if i < s.len() {
        if s[i] == '(' {
            lemma_paren_fold_bound(s, i + 1, depth + 1);
        } else if s[i] == ')' {
            if depth > 0 {
                lemma_paren_fold_bound(s, i + 1, depth - 1);
            }
        } else {
            lemma_paren_fold_bound(s, i + 1, depth);
        }
    }
}

/// The characters of lines `0..i`, counted.
pub open spec fn sum_lens(lines: Seq<Seq<char>>, i: int) -> int
    decreases i,
{
    if i <= 0 {
        0
    } else {
        sum_lens(lines, i - 1) + lines[i - 1].len()
    }
}

proof fn lemma_sum_lens_mono(lines: Seq<Seq<char>>, i: int, j: int)
    requires
        0 <= i <= j,
    ensures
        sum_lens(lines, i) <= sum_lens(lines, j),
    decreases j - i,
{
    if i < j {
        lemma_sum_lens_mono(lines, i, j - 1);
    }
}

/// Split lines never hold more characters than the text they came from.
proof fn lemma_lines_sum(s: Seq<char>, i: int, k: int)
    requires
        0 <= i <= s.len(),
        0 <= k <= lines_from(s, i).len(),
    ensures
        sum_lens(lines_from(s, i), k) <= s.len() - i,
    decreases k,
{
    lemma_line_end_bounds(s, i);
    let e = line_end(s, i);
    let ll = lines_from(s, i);
    if k > 0 {
        if e >= s.len() {
            assert(ll == seq![s.subrange(i, e)]);
            assert(k == 1);
            assert(ll[0] == s.subrange(i, e));
            assert(sum_lens(ll, 1) == sum_lens(ll, 0) + ll[0].len());
        } else {
            let tail = lines_from(s, e + 1);
            assert(ll == seq![s.subrange(i, e)] + tail);
            if k == 1 {
                assert(ll[0] == s.subrange(i, e));
                assert(sum_lens(ll, 1) == sum_lens(ll, 0) + ll[0].len());
            } else {
                lemma_lines_sum(s, e + 1, k - 1);
                // Shift the partial sum across the cons.
                lemma_sum_shift(s.subrange(i, e), tail, k - 1);
            }
        }
    }
}

/// A partial sum over a cons decomposes.
proof fn lemma_sum_shift(head: Seq<char>, tail: Seq<Seq<char>>, k: int)
    requires
        0 <= k <= tail.len(),
    ensures
        sum_lens(seq![head] + tail, k + 1) == head.len() + sum_lens(tail, k),
    decreases k,
{
    let cons = seq![head] + tail;
    assert(sum_lens(cons, k + 1) == sum_lens(cons, k) + cons[k].len());
    if k > 0 {
        lemma_sum_shift(head, tail, k - 1);
        assert(cons[k] == tail[k - 1]);
        assert(sum_lens(tail, k) == sum_lens(tail, k - 1) + tail[k - 1].len());
    } else {
        assert(cons[0] == head);
        assert(sum_lens(cons, 0) == 0);
        assert(sum_lens(tail, 0) == 0);
    }
}

/// Scan one line's parentheses with `open` already outstanding.
fn paren_scan(s: &str, open: usize) -> (r: Option<usize>)
    requires
        open as int + s@.len() <= usize::MAX,
    ensures
        match paren_fold(s@, 0, open as int) {
            Some(d) => r == Some(d as usize),
            None => r is None,
        },
{
    let cs = str_to_chars(s);
    let n = cs.len();
    let mut i: usize = 0;
    let mut d: usize = open;
    while i < n
        invariant
            0 <= i <= n,
            n == s@.len(),
            cs@ == s@,
            open as int + n <= usize::MAX,
            d as int <= open as int + i,
            paren_fold(s@, 0, open as int) == paren_fold(s@, i as int, d as int),
        decreases n - i,
    {
        let c = cs[i];
        if c == '(' {
            d = d + 1;
        } else if c == ')' {
            if d == 0 {
                return None;
            }
            d = d - 1;
        }
        i = i + 1;
    }
    Some(d)
}

/// Fold a program's lines into balanced units, exactly as `spec_units`
/// says; the flag reports a final unit left open.
#[verifier::loop_isolation(false)]
fn fold_units(lines: &Vec<String>) -> (r: (Vec<String>, bool))
    requires
        sum_lens(views_of_strings(lines@), lines@.len() as int) <= usize::MAX,
    ensures
        ({
            let su = spec_units(views_of_strings(lines@), 0);
            views_of_strings(r.0@) == su.0 && r.1 == su.1
        }),
{
    let ghost ls = views_of_strings(lines@);
    let n = lines.len();
    let mut units: Vec<String> = Vec::new();
    let mut i: usize = 0;
    proof {
        assert(forall|j: int| 0 <= j < ls.len() ==> ls[j] == #[trigger] lines@[j]@);
    }
    while i < n
        invariant
            0 <= i <= n,
            ({
                let su0 = spec_units(ls, 0);
                let sui = spec_units(ls, i as int);
                su0.0 == views_of_strings(units@) + sui.0 && su0.1 == sui.1
            }),
        decreases n - i,
    {
        let ghost i0 = i as int;
        let ghost units0 = units@;
        let line = lines[i].clone();
        i = i + 1;
        proof {
            lemma_sum_lens_mono(ls, i0 + 1, n as int);
            assert(sum_lens(ls, i0 + 1) == sum_lens(ls, i0) + ls[i0].len());
            lemma_sum_lens_mono(ls, 0, i0);
            assert(sum_lens(ls, 0) == 0);
        }
        proof {
            lemma_paren_fold_bound(ls[i0], 0, 0);
        }
        let first_scan = paren_scan(line.as_str(), 0);
        let is_open = match first_scan {
            Some(d) => d > 0,
            None => false,
        };
        if !is_open {
            units.push(line);
            proof {
                assert(spec_units(ls, i0) == (
                    seq![ls[i0]] + spec_units(ls, i0 + 1).0,
                    spec_units(ls, i0 + 1).1,
                ));
                assert(views_of_strings(units@) =~= views_of_strings(units0) + seq![ls[i0]]);
                assert(views_of_strings(units0) + (seq![ls[i0]] + spec_units(ls, i0 + 1).0)
                    =~= views_of_strings(units@) + spec_units(ls, i0 + 1).0);
            }
        } else {
            let ghost d0 = paren_fold(ls[i0], 0, 0)->Some_0;
            let mut unit: Vec<char> = str_to_chars(line.as_str());
            let mut open: usize = match first_scan {
                Some(d) => d,
                None => 1,
            };
            let mut closed = false;
            proof {
                assert(unit@ == unit_text(ls, i0, i0));
                lemma_paren_fold_bound(ls[i0], 0, 0);
            }
            while i < n && !closed
                invariant
                    i0 < i <= n,
                    open >= 1,
                    sum_lens(ls, n as int) <= usize::MAX,
                    !closed ==> open as int <= sum_lens(ls, i as int),
                    !closed ==> unit@ == unit_text(ls, i0, i as int - 1),
                    !closed ==> unit_end(ls, i0 + 1, d0) == unit_end(ls, i as int, open as int),
                    closed ==> i as int - 1 == unit_end(ls, i0 + 1, d0) && i as int - 1 < n
                        && unit@ == unit_text(ls, i0, i as int - 1),
                decreases n - i, (if closed { 0int } else { 1int }),
            {
                unit.push('\n');
                let next = lines[i].clone();
                let ghost ipre = i as int;
                i = i + 1;
                proof {
                    lemma_sum_lens_mono(ls, ipre + 1, n as int);
                    assert(sum_lens(ls, ipre + 1) == sum_lens(ls, ipre) + ls[ipre].len());
                }
                let nc = str_to_chars(next.as_str());
                let mut k: usize = 0;
                while k < nc.len()
                    invariant
                        k <= nc@.len(),
                        nc@ == ls[ipre],
                        unit@ == unit_text(ls, i0, ipre - 1) + seq!['\n'] + nc@.subrange(
                            0,
                            k as int,
                        ),
                    decreases nc@.len() - k,
                {
                    unit.push(nc[k]);
                    proof {
                        assert(nc@.subrange(0, k + 1) =~= nc@.subrange(0, k as int) + seq![
                            nc@[k as int],
                        ]);
                    }
                    k = k + 1;
                }
                proof {
                    assert(nc@.subrange(0, nc@.len() as int) =~= nc@);
                    if ipre - 1 > i0 {
                        lemma_unit_text_snoc(ls, i0, ipre - 1);
                    } else {
                        assert(unit_text(ls, i0, ipre) == ls[i0] + seq!['\n'] + unit_text(
                            ls,
                            ipre,
                            ipre,
                        ));
                    }
                    assert(unit@ =~= unit_text(ls, i0, ipre));
                }
                let ghost open_pre = open as int;
                proof {
                    lemma_paren_fold_bound(ls[ipre], 0, open_pre);
                }
                match paren_scan(next.as_str(), open) {
                    None => {
                        proof {
                            assert(unit_end(ls, ipre, open_pre) == ipre);
                        }
                        closed = true;
                    },
                    Some(0) => {
                        proof {
                            assert(unit_end(ls, ipre, open_pre) == ipre);
                        }
                        closed = true;
                    },
                    Some(d2) => {
                        proof {
                            lemma_paren_fold_bound(ls[ipre], 0, open as int);
                            assert(unit_end(ls, ipre, open_pre) == unit_end(ls, ipre + 1, d2 as int));
                        }
                        open = d2;
                    },
                }
            }
            if !closed {
                proof {
                    assert(unit_end(ls, i as int, open as int) == n as int);
                    assert(spec_units(ls, i0) == (Seq::<Seq<char>>::empty(), true));
                    assert(views_of_strings(units@) + Seq::<Seq<char>>::empty() =~= views_of_strings(
                        units@,
                    ));
                }
                return (units, true);
            }
            let done = chars_to_string(&unit);
            units.push(done);
            proof {
                let e = unit_end(ls, i0 + 1, d0);
                assert(e == i as int - 1 && e < n);
                assert(spec_units(ls, i0) == (
                    seq![unit_text(ls, i0, e)] + spec_units(ls, e + 1).0,
                    spec_units(ls, e + 1).1,
                ));
                assert(views_of_strings(units@) =~= views_of_strings(units0) + seq![
                    unit_text(ls, i0, e),
                ]);
                assert(views_of_strings(units0) + (seq![unit_text(ls, i0, e)] + spec_units(
                    ls,
                    e + 1,
                ).0) =~= views_of_strings(units@) + spec_units(ls, e + 1).0);
            }
        }
    }
    proof {
        assert(spec_units(ls, n as int) == (Seq::<Seq<char>>::empty(), false));
        assert(views_of_strings(units@) + Seq::<Seq<char>>::empty() =~= views_of_strings(units@));
    }
    (units, false)
}

/// What parsing and evaluating one unit yields at specification level: a
/// reader fault leaves the environment alone; otherwise the evaluation
/// relation decides.
pub open spec fn spec_unit(u: Seq<char>, env: Seq<Map<Seq<char>, ExpV>>) -> Option<
    (Result<ExpV, EvalErr>, Seq<Map<Seq<char>, ExpV>>),
> {
    match crate::parser::tok_spec(u, 0) {
        None => Some((Err(EvalErr::Syntax), env)),
        Some(toks) => match crate::parser::read_spec(toks, 0) {
            None => Some((Err(EvalErr::Syntax), env)),
            Some(p) => if p.1 != toks.len() {
                Some((Err(EvalErr::Syntax), env))
            } else {
                match spec_eval(p.0, env, MAX_CALL_DEPTH as nat) {
                    None => None,
                    Some(o) => Some((o.result, o.env)),
                }
            },
        },
    }
}

/// Run balanced units in order against one environment: stop cleanly on a
/// bare `exit` unit, skip empty units, collect each value, fail on the
/// first fault, and fail at the end when a final unit was left open.
pub open spec fn spec_run_units(
    units: Seq<Seq<char>>,
    incomplete: bool,
    i: int,
    env: Seq<Map<Seq<char>, ExpV>>,
) -> Option<(Result<Seq<ExpV>, EvalErr>, Seq<Map<Seq<char>, ExpV>>)>
    decreases units.len() - i,
    when 0 <= i <= units.len()
{
    if i >= units.len() {
        if incomplete {
            Some((Err(EvalErr::Syntax), env))
        } else {
            Some((Ok(Seq::empty()), env))
        }
    } else {
        let u = units[i];
        if u == "exit"@ {
            Some((Ok(Seq::empty()), env))
        } else if u.len() == 0 {
            spec_run_units(units, incomplete, i + 1, env)
        } else {
            match spec_unit(u, env) {
                None => None,
                Some((Err(k), env2)) => Some((Err(k), env2)),
                Some((Ok(v), env2)) => match spec_run_units(units, incomplete, i + 1, env2) {
                    None => None,
                    Some((Ok(vs), env3)) => Some((Ok(seq![v] + vs), env3)),
                    Some((Err(k), env3)) => Some((Err(k), env3)),
                },
            }
        }
    }
}

/// Run a whole program against a fresh default environment: lines fold
/// into balanced units and each is parsed and evaluated in order, exactly
/// as `spec_run_units` over `spec_units` says.
pub fn run_from_source_code(program: String) -> (r: Result<Vec<Exp>, Exceptions>)
    ensures
        ({
            let su = spec_units(lines_from(program@, 0), 0);
            match spec_run_units(su.0, su.1, 0, seq![crate::default_env::default_global()]) {
                Some(out) => match out.0 {
                    Ok(vs) => r matches Ok(v) && views_of_seq(v@) == vs,
                    Err(EvalErr::Value) => r matches Err(Exceptions::ValueError(_)),
                    Err(EvalErr::Syntax) => r matches Err(Exceptions::SyntaxError(_)),
                },
                None => true,
            }
        }),
{
    let mut def_env = default_env();
    let out = run_lines(program.as_str(), &mut def_env);
    out
}

/// The unit-folding loop behind `run_from_source_code`, against a caller's
/// environment.
#[verifier::loop_isolation(false)]
pub fn run_lines(program: &str, env: &mut Environment) -> (r: Result<Vec<Exp>, Exceptions>)
    requires
        old(env)@.len() >= 1,
    ensures
        final(env)@.len() == old(env)@.len(),
        ({
            let su = spec_units(lines_from(program@, 0), 0);
            match spec_run_units(su.0, su.1, 0, old(env)@) {
                Some(out) => (match out.0 {
                    Ok(vs) => r matches Ok(v) && views_of_seq(v@) == vs,
                    Err(EvalErr::Value) => r matches Err(Exceptions::ValueError(_)),
                    Err(EvalErr::Syntax) => r matches Err(Exceptions::SyntaxError(_)),
                }) && final(env)@ == out.1,
                None => true,
            }
        }),
{
    let lines = split_lines(program);
    proof {
        lemma_lines_sum(program@, 0, lines_from(program@, 0).len() as int);
    }
    let (units, incomplete) = fold_units(&lines);
    let ghost us = views_of_strings(units@);
    let ghost env0 = old(env)@;
    proof {
        assert(forall|j: int| 0 <= j < us.len() ==> us[j] == #[trigger] units@[j]@);
        assert("exit"@.len() == 4) by {
            reveal_strlit("exit");
        }
    }
    let mut results: Vec<Exp> = Vec::new();
    let mut i: usize = 0;
    let n = units.len();
    while i < n
        invariant
            0 <= i <= n,
            old(env)@.len() >= 1,
            env@.len() == old(env)@.len(),
            match spec_run_units(us, incomplete, 0, env0) {
                Some(out) => match spec_run_units(us, incomplete, i as int, env@) {
                    Some(rest) => (match rest.0 {
                        Ok(vs) => out.0 == Ok::<Seq<ExpV>, EvalErr>(views_of_seq(results@) + vs),
                        Err(k) => out.0 == Err::<Seq<ExpV>, EvalErr>(k),
                    }) && out.1 == rest.1,
                    None => false,
                },
                None => true,
            },
        decreases n - i,
    {
        let ghost ipre = i as int;
        let ghost env_pre = env@;
        let u = units[i].clone();
        i = i + 1;
        if crate::types::str_eq(u.as_str(), "exit") {
            proof {
                match spec_run_units(us, incomplete, 0, env0) {
                    Some(out) => {
                        assert(views_of_seq(results@) + Seq::<ExpV>::empty() =~= views_of_seq(
                            results@,
                        ));
                    },
                    None => {},
                }
            }
            return Ok(results);
        }
        if u.as_str().unicode_len() == 0 {
            continue ;
        }
        let ghost res_pre = results@;
        match parse_and_eval(u, env) {
            Ok(v) => {
                results.push(v);
                proof {
                    crate::types::lemma_views_of_seq_push(res_pre, results@.last());
                    assert(results@ == res_pre.push(results@.last()));
                    match spec_run_units(us, incomplete, 0, env0) {
                        Some(out) => {
                            match spec_run_units(us, incomplete, ipre + 1, env@) {
                                Some(rest2) => {
                                    match rest2.0 {
                                        Ok(vs2) => {
                                            assert(views_of_seq(res_pre) + (seq![
                                                results@.last()@,
                                            ] + vs2) =~= views_of_seq(results@) + vs2);
                                        },
                                        Err(_) => {},
                                    }
                                },
                                None => {},
                            }
                        },
                        None => {},
                    }
                }
            },
            Err(e) => {
                return Err(e);
            },
        }
    }
    if incomplete {
        return Err(
            Exceptions::SyntaxError(
                crate::printer::count_message1(
                    "incomplete expression at end of input, line ",
                    lines.len() as u64,
                ),
            ),
        );
    }
    proof {
        match spec_run_units(us, incomplete, 0, env0) {
            Some(out) => {
                assert(views_of_seq(results@) + Seq::<ExpV>::empty() =~= views_of_seq(results@));
            },
            None => {},
        }
    }
    Ok(results)
}

} // verus!
