//! The expression model: the tagged value type shared by the reader, the
//! evaluator and the built-in callables, together with the environment of
//! scope frames.

use vstd::prelude::*;
use std::rc::Rc;

verus! {

broadcast use vstd::std_specs::vec::axiom_vec_index_decreases;

/// The two failure kinds: reader-level syntax faults and evaluation-level
/// value faults.
#[derive(Debug, Clone)]
pub enum Exceptions {
    ValueError(String),
    SyntaxError(String),
}

/// An exact number: an integer, or the canonical decimal fraction
/// `m * 10^-s` (`1 <= s <= 18`, `m` not divisible by ten, so a `Dec` is
/// never a whole number and every value has exactly one representation).
#[derive(Debug, Clone, Copy, PartialEq, Eq, Structural)]
pub enum Number {
    Int(i64),
    Dec { m: i64, s: u32 },
}

/// The name of one built-in callable of the default environment.
#[derive(Debug, Clone, Copy, PartialEq, Eq, Structural)]
pub enum Builtin {
    Add,
    Mul,
    Minus,
    Divide,
    Fmod,
    ModInt,
    Abs,
    Expt,
    Gt,
    Lt,
    NumEq,
    Ge,
    Le,
    And,
    Or,
    Not,
    Begin,
    Append,
    Car,
    Cdr,
    Apply,
    Cons,
    SameObj,
    Equal,
    Length,
    IsList,
    Max,
    Min,
    IsNull,
    IsNumber,
    IsProc,
    IsBool,
    MapFn,
    ListFn,
}

/// An indivisible value: boolean, symbol or number.
#[derive(Debug, Clone)]
pub enum Atom {
    Bool(bool),
    Symbol(String),
    Number(Number),
}

/// One expression tree node.  Lists share their storage through `Rc`, so
/// `cons`, `append` and `quote` build new spines without deep copies.
/// Duplication goes through [`Exp::duplicate`], which keeps that sharing
/// and whose contract says the copy has the same view.
#[derive(Debug)]
pub enum Exp {
    Atom(Atom),
    Str(String),
    List(Rc<Vec<Exp>>),
    Func(Builtin),
    Procedure(Vec<String>, Box<Exp>),
}

/// The mathematical shape of an expression: what contracts speak about.
pub ghost enum ExpV {
    Num(Number),
    Bool(bool),
    Sym(Seq<char>),
    Str(Seq<char>),
    List(Seq<ExpV>),
    Func(Builtin),
    Proc { params: Seq<Seq<char>>, body: Box<ExpV> },
}

/// The mathematical shape of an expression tree.
pub open spec fn exp_view(e: Exp) -> ExpV
    decreases e,
{
    match e {
        Exp::Atom(a) => match a {
            Atom::Bool(b) => ExpV::Bool(b),
            Atom::Symbol(s) => ExpV::Sym(s@),
            Atom::Number(n) => ExpV::Num(n),
        },
        Exp::Str(s) => ExpV::Str(s@),
        Exp::List(l) => ExpV::List(
            Seq::new(
                l@.len(),
                |i: int|
                    if 0 <= i < l@.len() {
                        exp_view(l@[i])
                    } else {
                        ExpV::Bool(false)
                    },
            ),
        ),
        Exp::Func(b) => ExpV::Func(b),
        Exp::Procedure(ps, b) => ExpV::Proc {
            params: Seq::new(ps@.len(), |i: int| ps@[i]@),
            body: Box::new(exp_view(*b)),
        },
    }
}

impl View for Exp {
    type V = ExpV;

    #[verifier::inline]
    open spec fn view(&self) -> ExpV {
        exp_view(*self)
    }
}

/// The views of a sequence of expressions, element by element.
pub open spec fn views_of_seq(s: Seq<Exp>) -> Seq<ExpV> {
    Seq::new(s.len(), |i: int| s[i]@)
}

/// Appending one expression appends its view.
pub proof fn lemma_views_of_seq_push(s: Seq<Exp>, e: Exp)
    ensures
        views_of_seq(s.push(e)) == views_of_seq(s).push(e@),
{
    assert(views_of_seq(s.push(e)) =~= views_of_seq(s).push(e@));
}

/// A list expression's view is the sequence of its elements' views.
pub broadcast proof fn lemma_list_view(l: Rc<Vec<Exp>>)
    ensures
        (#[trigger] Exp::List(l)@) == ExpV::List(views_of_seq(l@)),
{
    assert(Exp::List(l)@->List_0 =~= views_of_seq(l@));
}

/// Relies on `str`'s `PartialEq`: two string slices are equal exactly when
/// their character sequences are equal.
#[verifier::external_body]
pub fn str_eq(a: &str, b: &str) -> (r: bool)
    ensures
        r == (a@ == b@),
{
    a == b
}

/// Relies on `String::push`: appends one character at the end.
#[verifier::external_body]
pub fn push_char(s: &mut String, c: char) -> (r: ())
    ensures
        final(s)@ == old(s)@.push(c),
{
    s.push(c)
}

/// Relies on `Rc::clone`: hands out a new handle to the same allocation,
/// so the value seen through it is unchanged.
#[verifier::external_body]
pub fn rc_clone(l: &Rc<Vec<Exp>>) -> (r: Rc<Vec<Exp>>)
    ensures
        r == *l,
{
    Rc::clone(l)
}

/// Relies on `std::ptr::eq`: tells whether two references point at the very
/// same object in memory.  Nothing is promised of the answer: object
/// identity depends on where the allocator placed the values.
#[verifier::external_body]
pub fn _is_same_object<T>(a: &T, b: &T) -> bool {
    std::ptr::eq(a, b)
}

impl Exp {
    /// A copy with the same view; list storage is shared, not copied.
    pub fn duplicate(&self) -> (r: Exp)
        ensures
            r@ == self@,
        decreases self,
    {
        match self {
            Exp::Atom(a) => Exp::Atom(
                match a {
                    Atom::Bool(b) => Atom::Bool(*b),
                    Atom::Symbol(s) => Atom::Symbol(s.clone()),
                    Atom::Number(n) => Atom::Number(*n),
                },
            ),
            Exp::Str(s) => Exp::Str(s.clone()),
            Exp::List(l) => Exp::List(rc_clone(l)),
            Exp::Func(b) => Exp::Func(*b),
            Exp::Procedure(ps, b) => {
                let mut params: Vec<String> = Vec::new();
                let mut i: usize = 0;
                while i < ps.len()
                    invariant
                        i <= ps.len(),
                        params@.len() == i,
                        forall|j: int| 0 <= j < i ==> params@[j]@ == ps@[j]@,
                    decreases ps.len() - i,
                {
                    params.push(ps[i].clone());
                    i = i + 1;
                }
                let r = Exp::Procedure(params, Box::new(b.duplicate()));
                proof {
                    assert(Seq::new(params@.len(), |j: int| params@[j]@) =~= Seq::new(
                        ps@.len(),
                        |j: int| ps@[j]@,
                    ));
                }
                r
            },
        }
    }
}

/// Structural equality: two expressions are equal exactly when their
/// views are.  Numbers compare by representation, which under canonical
/// arithmetic is value equality; callables compare by name, procedures by
/// parameters and body.
#[verifier::loop_isolation(false)]
pub fn exp_equal(a: &Exp, b: &Exp) -> (r: bool)
    ensures
        r == (a@ == b@),
    decreases a,
{
    match (a, b) {
        (Exp::Atom(x), Exp::Atom(y)) => match (x, y) {
            (Atom::Bool(p), Atom::Bool(q)) => p == q,
            (Atom::Symbol(p), Atom::Symbol(q)) => str_eq(p.as_str(), q.as_str()),
            (Atom::Number(p), Atom::Number(q)) => p == q,
            _ => false,
        },
        (Exp::Str(x), Exp::Str(y)) => str_eq(x.as_str(), y.as_str()),
        (Exp::Func(x), Exp::Func(y)) => x == y,
        (Exp::List(x), Exp::List(y)) => {
            let xs: &Vec<Exp> = &**x;
            let ys: &Vec<Exp> = &**y;
            proof {
                lemma_list_view(*x);
                lemma_list_view(*y);
            }
            if xs.len() != ys.len() {
                proof {
                    assert(a@->List_0.len() != b@->List_0.len());
                }
                return false;
            }
            let mut i: usize = 0;
            while i < xs.len()
                invariant
                    i <= xs@.len(),
                    forall|j: int| 0 <= j < i ==> xs@[j]@ == #[trigger] ys@[j]@,
                decreases xs@.len() - i,
            {
                proof {
                    broadcast use vstd::std_specs::vec::axiom_vec_index_decreases;

                    assert(decreases_to!(*a => *x));
                    assert(decreases_to!(*x => xs@[i as int]));
                }
                if !exp_equal(&xs[i], &ys[i]) {
                    proof {
                        assert(a@->List_0[i as int] != b@->List_0[i as int]);
                    }
                    return false;
                }
                i = i + 1;
            }
            proof {
                assert(a@->List_0 =~= b@->List_0);
            }
            true
        },
        (Exp::Procedure(xp, xb), Exp::Procedure(yp, yb)) => {
            if xp.len() != yp.len() {
                proof {
                    assert(a@->params.len() != b@->params.len());
                }
                return false;
            }
            let mut i: usize = 0;
            while i < xp.len()
                invariant
                    i <= xp@.len(),
                    xp@.len() == yp@.len(),
                    forall|j: int| 0 <= j < i ==> xp@[j]@ == #[trigger] yp@[j]@,
                decreases xp@.len() - i,
            {
                if !str_eq(xp[i].as_str(), yp[i].as_str()) {
                    proof {
                        assert(a@->params[i as int] != b@->params[i as int]);
                    }
                    return false;
                }
                i = i + 1;
            }
            let be = exp_equal(&**xb, &**yb);
            proof {
                assert(a@->params =~= b@->params);
            }
            be
        },
        _ => {
            proof {
                assert(a@ != b@);
            }
            false
        },
    }
}

/// A view of a value as an integer, truncating decimals towards zero.
pub trait ToInt: View<V = ExpV> {
    fn to_i64(&self) -> (r: Option<i64>)
        ensures
            match self@ {
                ExpV::Num(n) => if crate::numbers::num_wf(n) {
                    r matches Some(v) && v as int == crate::numbers::num_trunc(n)
                } else {
                    r is None
                },
                _ => r is None,
            },
    ;
}

/// A view of a value as a boolean.
pub trait ToBool: View<V = ExpV> {
    fn to_bool(&self) -> (r: Option<bool>)
        ensures
            match self@ {
                ExpV::Bool(b) => r == Some(b),
                _ => r is None,
            },
    ;
}

impl ToInt for Exp {
    fn to_i64(&self) -> (r: Option<i64>) {
        match self {
            Exp::Atom(Atom::Number(n)) => {
                if crate::numbers::check_wf(n) {
                    Some(crate::numbers::trunc_num(n))
                } else {
                    None
                }
            },
            _ => None,
        }
    }
}

impl ToBool for Exp {
    fn to_bool(&self) -> (r: Option<bool>) {
        match self {
            Exp::Atom(Atom::Bool(b)) => Some(*b),
            _ => None,
        }
    }
}

/// The boolean a value holds, or a value fault.
pub fn get_bool(x: &Exp) -> (r: Result<bool, Exceptions>)
    ensures
        match x@ {
            ExpV::Bool(b) => r matches Ok(v) && v == b,
            _ => r matches Err(Exceptions::ValueError(_)),
        },
{
    match x.to_bool() {
        Some(b) => Ok(b),
        None => Err(Exceptions::ValueError(String::from_str("Not a boolean"))),
    }
}

/// The truncated integer a numeric value holds, or a value fault.
pub fn get_int(x: &Exp) -> (r: Result<i64, Exceptions>)
    ensures
        match x@ {
            ExpV::Num(n) => if crate::numbers::num_wf(n) {
                r matches Ok(v) && v as int == crate::numbers::num_trunc(n)
            } else {
                r matches Err(Exceptions::ValueError(_))
            },
            _ => r matches Err(Exceptions::ValueError(_)),
        },
{
    match x.to_i64() {
        Some(v) => Ok(v),
        None => Err(Exceptions::ValueError(String::from_str("Not a number"))),
    }
}

/// The bindings that a frame's entry list amounts to: later entries shadow
/// earlier ones with the same name.
pub open spec fn frame_map(s: Seq<(String, Exp)>) -> Map<Seq<char>, ExpV>
    decreases s.len(),
{
    if s.len() == 0 {
        Map::empty()
    } else {
        frame_map(s.drop_last()).insert(s.last().0@, s.last().1@)
    }
}

/// Name lookup over a stack of frames, innermost (last) first.
pub open spec fn env_lookup(fs: Seq<Map<Seq<char>, ExpV>>, k: Seq<char>) -> Option<ExpV>
    decreases fs.len(),
{
    if fs.len() == 0 {
        None
    } else if fs.last().contains_key(k) {
        Some(fs.last()[k])
    } else {
        env_lookup(fs.drop_last(), k)
    }
}

/// After the innermost frame maps `k` to `v`, lookup yields `v`.
pub proof fn lemma_env_lookup_insert(fs: Seq<Map<Seq<char>, ExpV>>, k: Seq<char>, v: ExpV)
    requires
        fs.len() >= 1,
        fs.last().contains_key(k),
        fs.last()[k] == v,
    ensures
        env_lookup(fs, k) == Some(v),
{
}

/// The fault kinds, at specification level: which `Exceptions` variant an
/// evaluation step is allowed to produce.
pub ghost enum EvalErr {
    Value,
    Syntax,
}

/// What one specification-level evaluation step leaves behind: the result
/// (a value or a fault kind) and the frame stack afterwards.
pub ghost struct EvalOut {
    pub result: Result<ExpV, EvalErr>,
    pub env: Seq<Map<Seq<char>, ExpV>>,
}

/// Whether an executable result realises a specification-level one: same
/// value, or a fault of the stated kind.
pub open spec fn res_matches(r: Result<Exp, Exceptions>, s: Result<ExpV, EvalErr>) -> bool {
    match s {
        Ok(v) => r matches Ok(e) && e@ == v,
        Err(EvalErr::Value) => r matches Err(Exceptions::ValueError(_)),
        Err(EvalErr::Syntax) => r matches Err(Exceptions::SyntaxError(_)),
    }
}

/// Bind `k` to `v` in the innermost frame.
pub open spec fn bind_innermost(
    fs: Seq<Map<Seq<char>, ExpV>>,
    k: Seq<char>,
    v: ExpV,
) -> Seq<Map<Seq<char>, ExpV>> {
    if fs.len() == 0 {
        fs
    } else {
        fs.update(fs.len() - 1, fs.last().insert(k, v))
    }
}

/// The ordered stack of scope frames.  The first frame is the global one
/// and is never popped; a frame is pushed on entering a closure call and
/// popped on every exit from it.  `out` collects what the print forms
/// write, for the host to flush.
pub struct Environment {
    frames: Vec<Vec<(String, Exp)>>,
    out: String,
}

impl View for Environment {
    type V = Seq<Map<Seq<char>, ExpV>>;

    closed spec fn view(&self) -> Seq<Map<Seq<char>, ExpV>> {
        Seq::new(self.frames@.len(), |i: int| frame_map(self.frames@[i]@))
    }
}

/// Search one frame's entries, last (most recent) first.
fn frame_get<'a>(frame: &'a Vec<(String, Exp)>, key: &str) -> (r: Option<&'a Exp>)
    ensures
        match r {
            Some(e) => frame_map(frame@).contains_key(key@) && e@ == frame_map(frame@)[key@],
            None => !frame_map(frame@).contains_key(key@),
        },
{
    let mut i: usize = frame.len();
    proof {
        assert(frame@.subrange(0, frame@.len() as int) =~= frame@);
    }
    while i > 0
        invariant
            i <= frame@.len(),
            frame_map(frame@).contains_key(key@) == frame_map(
                frame@.subrange(0, i as int),
            ).contains_key(key@),
            frame_map(frame@).contains_key(key@) ==> frame_map(frame@)[key@] == frame_map(
                frame@.subrange(0, i as int),
            )[key@],
        decreases i,
    {
        i = i - 1;
        proof {
            assert(frame@.subrange(0, i + 1).drop_last() =~= frame@.subrange(0, i as int));
            assert(frame@.subrange(0, i + 1).last() == frame@[i as int]);
        }
        if str_eq(frame[i].0.as_str(), key) {
            return Some(&frame[i].1);
        }
    }
    proof {
        assert(frame@.subrange(0, 0) =~= Seq::<(String, Exp)>::empty());
    }
    None
}

impl Environment {
    /// A fresh environment: one empty global frame, empty output.
    pub fn new() -> (r: Environment)
        ensures
            r@ =~= seq![Map::<Seq<char>, ExpV>::empty()],
            r.sink() == Seq::<char>::empty(),
    {
        let mut frames: Vec<Vec<(String, Exp)>> = Vec::new();
        frames.push(Vec::new());
        Environment { frames, out: String::new() }
    }

    /// What the print forms have written so far.
    pub closed spec fn sink(&self) -> Seq<char> {
        self.out@
    }

    /// Bind `key` to `val` in the innermost frame, shadowing any earlier
    /// binding there; returns the shadowed value of the frame, if any.
    pub fn insert(&mut self, key: String, val: Exp) -> (r: Option<Exp>)
        requires
            old(self)@.len() >= 1,
        ensures
            final(self)@ =~= old(self)@.update(
                old(self)@.len() - 1,
                old(self)@.last().insert(key@, val@),
            ),
            final(self).sink() == old(self).sink(),
            match r {
                Some(p) => old(self)@.last().contains_key(key@) && p@ == old(self)@.last()[key@],
                None => !old(self)@.last().contains_key(key@),
            },
    {
        let n = self.frames.len();
        let prev = match frame_get(&self.frames[n - 1], key.as_str()) {
            Some(e) => Some(e.duplicate()),
            None => None,
        };
        let frame = &mut self.frames[n - 1];
        frame.push((key, val));
        proof {
            assert(self.frames@[n - 1]@.drop_last() =~= old(self).frames@[n - 1]@);
        }
        prev
    }

    /// Look `key` up, innermost frame first.
    pub fn get<'a>(&'a self, key: &String) -> (r: Option<&'a Exp>)
        ensures
            match r {
                Some(e) => env_lookup(self@, key@) == Some(e@),
                None => env_lookup(self@, key@) is None,
            },
    {
        let mut i: usize = self.frames.len();
        proof {
            assert(self@.subrange(0, self@.len() as int) =~= self@);
        }
        while i > 0
            invariant
                i <= self.frames@.len(),
                env_lookup(self@, key@) == env_lookup(self@.subrange(0, i as int), key@),
            decreases i,
        {
            i = i - 1;
            proof {
                assert(self@.subrange(0, i + 1).drop_last() =~= self@.subrange(0, i as int));
                assert(self@.subrange(0, i + 1).last() == self@[i as int]);
            }
            if let Some(e) = frame_get(&self.frames[i], key.as_str()) {
                return Some(e);
            }
        }
        proof {
            assert(self@.subrange(0, 0) =~= Seq::<Map<Seq<char>, ExpV>>::empty());
        }
        None
    }

    /// Whether `key` is bound in any frame.
    pub fn is_defined(&self, key: &String) -> (r: bool)
        ensures
            r == (env_lookup(self@, key@) is Some),
    {
        self.get(key).is_some()
    }

    /// Enter a call: push an activation frame with the given bindings.
    pub fn push_stack_frame(&mut self, new_frame_data: Vec<(String, Exp)>)
        ensures
            final(self)@ =~= old(self)@.push(frame_map(new_frame_data@)),
            final(self).sink() == old(self).sink(),
    {
        self.frames.push(new_frame_data);
    }

    /// Leave a call: drop the innermost frame.  The global frame stays.
    pub fn pop_stack_frame(&mut self)
        requires
            old(self)@.len() >= 2,
        ensures
            final(self)@ =~= old(self)@.drop_last(),
            final(self).sink() == old(self).sink(),
    {
        self.frames.pop();
    }

    /// Append text to the output sink (used by the print forms).
    pub fn emit(&mut self, s: &str)
        ensures
            final(self)@ =~= old(self)@,
            final(self).sink() == old(self).sink() + s@,
    {
        self.out.append(s);
    }

    /// Hand the collected print output to the host and clear the sink.
    pub fn take_output(&mut self) -> (r: String)
        ensures
            final(self)@ =~= old(self)@,
            final(self).sink() == Seq::<char>::empty(),
            r@ == old(self).sink(),
    {
        let r = self.out.clone();
        self.out = String::new();
        r
    }
}

} // verus!
