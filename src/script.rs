//! The condition evaluator and the line executor.

use crate::dice::Roller;
use crate::eval::{draws_needed, drawn, eval_outcome, evaluate, extends};
use crate::text::{
    chars_of, decimal, decimal_exec, ends_with, ends_with_exec, find, find_exec, lemma_find_bounds,
    script_lines, script_lines_exec, slice_of, split_exec, split_on, starts_with, starts_with_exec,
    string_of, trim, trim_end, trimmed, trimmed_end,
};
use crate::value::{Val, Value, Vars};
use vstd::prelude::*;

verus! {

/// What running a script produces, in order: printed lines and diagnostics.
#[derive(Debug, PartialEq)]
pub enum Output {
    /// A line written by `print`.
    Line(String),
    /// An expression that could not be evaluated; it counted as `0`.
    EvalFailed(String),
    /// An ordering operator applied to two texts; the condition was false.
    StringOperator(String),
    /// A condition comparing an integer with a text; it was false.
    TypeMismatch(String),
}

pub ghost enum Out {
    Line(Seq<char>),
    EvalFailed(Seq<char>),
    StringOperator(Seq<char>),
    TypeMismatch(Seq<char>),
}

impl View for Output {
    type V = Out;

    open spec fn view(&self) -> Out {
        match self {
            Output::Line(s) => Out::Line(s@),
            Output::EvalFailed(s) => Out::EvalFailed(s@),
            Output::StringOperator(s) => Out::StringOperator(s@),
            Output::TypeMismatch(s) => Out::TypeMismatch(s@),
        }
    }
}

pub open spec fn outs_view(v: Seq<Output>) -> Seq<Out> {
    v.map_values(|o: Output| o@)
}

/// Evaluating `e` with the dice totals of `rolls` from `off` on: the value
/// (`0` on failure), the diagnostics, and the offset of the next unused total.
pub open spec fn ev(e: Seq<char>, st: Map<Seq<char>, Val>, rolls: Seq<int>, off: int) -> (Val, Seq<Out>, int) {
    let n = draws_needed(e) as int;
    match eval_outcome(e, st, rolls.subrange(off, off + n)) {
        Some(v) => (v, Seq::empty(), off + n),
        None => (Val::I(0), seq![Out::EvalFailed(e)], off + n),
    }
}

pub proof fn lemma_extends_trans(a: Seq<int>, b: Seq<int>, c: Seq<int>)
    requires
        extends(a, b),
        extends(b, c),
    ensures
        extends(a, c),
{
    assert(c.take(a.len() as int) =~= b.take(a.len() as int));
}

/// Evaluates `e`, reporting a failure to `out` and counting it as `0`.
fn eval_value(e: &Vec<char>, vars: &Vars, roller: &mut Roller, out: &mut Vec<Output>) -> (r: Value)
    ensures
        extends(old(roller).history(), final(roller).history()),
        forall|rolls: Seq<int>|
            extends(final(roller).history(), rolls) ==> #[trigger] ev(
                e@,
                vars@,
                rolls,
                old(roller).history().len() as int,
            ) == (r@, outs_view(final(out)@).skip(old(out)@.len() as int), final(roller).history().len() as int),
        outs_view(old(out)@) == outs_view(final(out)@).take(old(out)@.len() as int),
        old(out)@.len() <= final(out)@.len(),
{
    let ghost h0 = roller.history();
    let ghost o0 = outs_view(out@);
    let r = evaluate(e, vars, roller);
    let ghost h1 = roller.history();
    let v = match r {
        Some(v) => v,
        None => {
            let c = slice_of(e, 0, e.len());
            assert(c@ =~= e@);
            out.push(Output::EvalFailed(string_of(c)));
            Value::Int(0)
        },
    };
    assert(outs_view(out@).take(o0.len() as int) =~= o0);
    assert forall|rolls: Seq<int>| extends(h1, rolls) implies #[trigger] ev(e@, vars@, rolls, h0.len() as int)
        == (v@, outs_view(out@).skip(o0.len() as int), h1.len() as int) by {
        assert(rolls.subrange(h0.len() as int, h1.len() as int) =~= drawn(h0, h1));
        if r is None {
            assert(outs_view(out@).skip(o0.len() as int) =~= seq![Out::EvalFailed(e@)]);
        } else {
            assert(outs_view(out@).skip(o0.len() as int) =~= Seq::<Out>::empty());
        }
    }
    v
}

/// The comparison operators, in the order a condition is scanned for them.
pub open spec fn op_text(k: int) -> Seq<char> {
    if k == 0 {
        seq!['<', '=']
    } else if k == 1 {
        seq!['>', '=']
    } else if k == 2 {
        seq!['=', '=']
    } else if k == 3 {
        seq!['<']
    } else if k == 4 {
        seq!['>']
    } else {
        seq!['!', '=']
    }
}

/// The first operator of the scan order, from the `k`-th on, that occurs in
/// `c`, with the position of its first occurrence.
pub open spec fn first_op(c: Seq<char>, k: int) -> Option<(int, int)>
    decreases 6 - k,
{
    if k < 0 || k >= 6 {
        None
    } else {
        match find(c, op_text(k)) {
            Some(pos) => Some((k, pos)),
            None => first_op(c, k + 1),
        }
    }
}

/// Comparing two values with the `k`-th operator: integers by all six,
/// texts by `==` and `!=` only; anything else is false and reported.
pub open spec fn compare(k: int, l: Val, r: Val, c: Seq<char>) -> (bool, Seq<Out>) {
    match (l, r) {
        (Val::I(a), Val::I(b)) => (
            if k == 0 {
                a <= b
            } else if k == 1 {
                a >= b
            } else if k == 2 {
                a == b
            } else if k == 3 {
                a < b
            } else if k == 4 {
                a > b
            } else {
                a != b
            },
            Seq::empty(),
        ),
        (Val::S(a), Val::S(b)) => if k == 2 {
            (a == b, Seq::empty())
        } else if k == 5 {
            (a != b, Seq::empty())
        } else {
            (false, seq![Out::StringOperator(op_text(k))])
        },
        _ => (false, seq![Out::TypeMismatch(c)]),
    }
}

/// Whether a value counts as true: a nonzero integer or a non-empty text.
pub open spec fn truthy(v: Val) -> bool {
    match v {
        Val::I(i) => i != 0,
        Val::S(s) => s.len() > 0,
    }
}

/// The outcome of the condition `c0`: its truth, the diagnostics, and the
/// offset of the next unused dice total.
pub open spec fn test(c0: Seq<char>, st: Map<Seq<char>, Val>, rolls: Seq<int>, off: int) -> (bool, Seq<Out>, int) {
    let c = trim(c0);
    match first_op(c, 0) {
        Some((k, pos)) => {
            let (l, d1, o1) = ev(trim(c.take(pos)), st, rolls, off);
            let (r, d2, o2) = ev(trim(c.skip(pos + op_text(k).len())), st, rolls, o1);
            let (b, d3) = compare(k, l, r, c);
            (b, d1 + d2 + d3, o2)
        },
        None => {
            let (v, d, o) = ev(c, st, rolls, off);
            (truthy(v), d, o)
        },
    }
}

fn op_text_exec(k: usize) -> (r: Vec<char>)
    ensures
        r@ == op_text(k as int),
{
    let r = if k == 0 {
        vec!['<', '=']
    } else if k == 1 {
        vec!['>', '=']
    } else if k == 2 {
        vec!['=', '=']
    } else if k == 3 {
        vec!['<']
    } else if k == 4 {
        vec!['>']
    } else {
        vec!['!', '=']
    };
    assert(r@ =~= op_text(k as int));
    r
}

fn first_op_exec(c: &Vec<char>) -> (r: Option<(usize, usize)>)
    ensures
        match r {
            Some((k, pos)) => first_op(c@, 0) == Some((k as int, pos as int)) && k < 6 && pos + op_text(
                k as int,
            ).len() <= c.len(),
            None => first_op(c@, 0) is None,
        },
{
    let mut k: usize = 0;
    while k < 6
        invariant
            k <= 6,
            first_op(c@, 0) == first_op(c@, k as int),
        decreases 6 - k,
    {
        let op = op_text_exec(k);
        match find_exec(c, &op) {
            Some(pos) => {
                proof {
                    lemma_find_bounds(c@, op@, 0);
                }
                return Some((k, pos));
            },
            None => {},
        }
        k = k + 1;
    }
    None
}

fn same_string(a: &String, b: &String) -> (r: bool)
    ensures
        r == (a@ == b@),
{
    *a == *b
}

fn compare_exec(k: usize, l: Value, r: Value, c: &Vec<char>, out: &mut Vec<Output>) -> (b: bool)
    requires
        k < 6,
    ensures
        compare(k as int, l@, r@, c@) == (b, outs_view(final(out)@).skip(old(out)@.len() as int)),
        outs_view(old(out)@) == outs_view(final(out)@).take(old(out)@.len() as int),
        old(out)@.len() <= final(out)@.len(),
{
    let ghost o0 = outs_view(out@);
    let b = match (l, r) {
        (Value::Int(a), Value::Int(b)) => if k == 0 {
            a <= b
        } else if k == 1 {
            a >= b
        } else if k == 2 {
            a == b
        } else if k == 3 {
            a < b
        } else if k == 4 {
            a > b
        } else {
            a != b
        },
        (Value::Str(a), Value::Str(b)) => if k == 2 {
            same_string(&a, &b)
        } else if k == 5 {
            !same_string(&a, &b)
        } else {
            out.push(Output::StringOperator(string_of(op_text_exec(k))));
            false
        },
        _ => {
            let cc = slice_of(c, 0, c.len());
            assert(cc@ =~= c@);
            out.push(Output::TypeMismatch(string_of(cc)));
            false
        },
    };
    assert(outs_view(out@).take(o0.len() as int) =~= o0);
    assert(outs_view(out@).skip(o0.len() as int) =~= compare(k as int, l@, r@, c@).1);
    b
}

/// Decides the condition `c0`, as `test` describes.
fn test_exec(c0: &Vec<char>, vars: &Vars, roller: &mut Roller, out: &mut Vec<Output>) -> (b: bool)
    ensures
        extends(old(roller).history(), final(roller).history()),
        forall|rolls: Seq<int>|
            extends(final(roller).history(), rolls) ==> #[trigger] test(
                c0@,
                vars@,
                rolls,
                old(roller).history().len() as int,
            ) == (b, outs_view(final(out)@).skip(old(out)@.len() as int), final(roller).history().len() as int),
        outs_view(old(out)@) == outs_view(final(out)@).take(old(out)@.len() as int),
        old(out)@.len() <= final(out)@.len(),
{
    let ghost h0 = roller.history();
    let ghost o0 = outs_view(out@);
    let c = trimmed(c0);
    match first_op_exec(&c) {
        Some((k, pos)) => {
            let left = trimmed(&slice_of(&c, 0, pos));
            let oplen = op_text_exec(k).len();
            let right = trimmed(&slice_of(&c, pos + oplen, c.len()));
            let ghost lw = trim(c@.take(pos as int));
            let ghost rw = trim(c@.skip(pos + op_text(k as int).len()));
            assert(c@.subrange(pos + oplen, c.len() as int) =~= c@.skip(pos + op_text(k as int).len()));
            assert(c@.subrange(0, pos as int) =~= c@.take(pos as int));
            let lv = eval_value(&left, vars, roller, out);
            let ghost h1 = roller.history();
            let ghost o_b = outs_view(out@);
            let rv = eval_value(&right, vars, roller, out);
            let ghost h2 = roller.history();
            let ghost o_c = outs_view(out@);
            let ghost lval = lv@;
            let ghost rval = rv@;
            let b = compare_exec(k, lv, rv, &c, out);
            let ghost o_d = outs_view(out@);
            proof {
                lemma_extends_trans(h0, h1, h2);
                assert(o_d.skip(o0.len() as int) =~= o_b.skip(o0.len() as int) + o_c.skip(o_b.len() as int)
                    + o_d.skip(o_c.len() as int));
                assert(o_d.take(o0.len() as int) =~= o0);
                assert forall|rolls: Seq<int>| extends(h2, rolls) implies #[trigger] test(
                    c0@,
                    vars@,
                    rolls,
                    h0.len() as int,
                ) == (b, o_d.skip(o0.len() as int), h2.len() as int) by {
                    lemma_extends_trans(h1, h2, rolls);
                    assert(ev(lw, vars@, rolls, h0.len() as int) == (lval, o_b.skip(o0.len() as int), h1.len() as int));
                    assert(ev(rw, vars@, rolls, h1.len() as int) == (rval, o_c.skip(o_b.len() as int), h2.len() as int));
                }
            }
            b
        },
        None => {
            let v = eval_value(&c, vars, roller, out);
            let b = match v {
                Value::Int(i) => i != 0,
                Value::Str(s) => chars_of(s.as_str()).len() > 0,
            };
            b
        },
    }
}

/// How a value is printed: an integer in decimal, a text as it is.
pub open spec fn render(v: Val) -> Seq<char> {
    match v {
        Val::I(i) => decimal(i),
        Val::S(s) => s,
    }
}

/// Printing the arguments `parts[k..]` after `text` and `diags`: the text,
/// all diagnostics, and the offset of the next unused dice total. The
/// rendered arguments are joined with no separator.
pub open spec fn print_from(
    parts: Seq<Seq<char>>,
    k: int,
    st: Map<Seq<char>, Val>,
    rolls: Seq<int>,
    off: int,
    text: Seq<char>,
    diags: Seq<Out>,
) -> (Seq<char>, Seq<Out>, int)
    decreases parts.len() - k,
{
    if k < 0 || k >= parts.len() {
        (text, diags, off)
    } else {
        let (v, d, o) = ev(trim(parts[k]), st, rolls, off);
        print_from(parts, k + 1, st, rolls, o, text + render(v), diags + d)
    }
}

pub open spec fn is_if(l: Seq<char>) -> bool {
    starts_with(l, seq!['i', 'f', ' ']) && ends_with(l, seq![' ', 't', 'h', 'e', 'n'])
}

/// The condition of an `if <cond> then` line.
pub open spec fn cond_of(l: Seq<char>) -> Seq<char> {
    if l.len() >= 8 {
        l.subrange(3, l.len() - 5)
    } else {
        Seq::empty()
    }
}

pub open spec fn is_print(l: Seq<char>) -> bool {
    starts_with(l, seq!['p', 'r', 'i', 'n', 't', '(']) && ends_with(l, seq![')'])
}

/// One step of the executor at line `i`: the outputs, the new store, the
/// offset of the next unused dice total, and how far the cursor moves.
pub open spec fn step(
    lines: Seq<Seq<char>>,
    i: int,
    st: Map<Seq<char>, Val>,
    rolls: Seq<int>,
    off: int,
) -> (Seq<Out>, Map<Seq<char>, Val>, int, int)
    decreases lines.len() - i,
{
    if i < 0 || i >= lines.len() {
        (Seq::empty(), st, off, 1)
    } else {
        let l = lines[i];
        if is_if(l) {
            let (b, d, o) = test(cond_of(l), st, rolls, off);
            if b {
                if i + 1 < lines.len() {
                    let (d2, st2, o2, _) = step(lines, i + 1, st, rolls, o);
                    (d + d2, st2, o2, 3)
                } else {
                    (d, st, o, 3)
                }
            } else {
                (d, st, o, 3)
            }
        } else if is_print(l) {
            let (text, d, o) = print_from(
                split_on(l.subrange(6, l.len() - 1), ','),
                0,
                st,
                rolls,
                off,
                Seq::empty(),
                Seq::empty(),
            );
            (d.push(Out::Line(trim_end(text))), st, o, 1)
        } else {
            match find(l, seq!['=']) {
                Some(k) => {
                    let (v, d, o) = ev(trim(l.skip(k + 1)), st, rolls, off);
                    (d, st.insert(trim(l.take(k)), v), o, 1)
                },
                None => (Seq::empty(), st, off, 1),
            }
        }
    }
}

/// Running `lines` from the cursor `i` on: all outputs and the final store.
pub open spec fn run_from(
    lines: Seq<Seq<char>>,
    i: int,
    st: Map<Seq<char>, Val>,
    rolls: Seq<int>,
    off: int,
) -> (Seq<Out>, Map<Seq<char>, Val>)
    decreases lines.len() + 3 - i,
{
    if i < 0 || i >= lines.len() {
        (Seq::empty(), st)
    } else {
        let (d, st2, o, adv) = step(lines, i, st, rolls, off);
        let (d2, st3) = if 1 <= adv <= 3 {
            run_from(lines, i + adv, st2, rolls, o)
        } else {
            (Seq::empty(), st2)
        };
        (d + d2, st3)
    }
}

/// A failed evaluation is not fatal: an assignment whose expression cannot
/// be evaluated reports it, binds `0`, and the run goes on with the next line.
pub proof fn lemma_failure_is_not_fatal(
    lines: Seq<Seq<char>>,
    i: int,
    st: Map<Seq<char>, Val>,
    rolls: Seq<int>,
    off: int,
    k: int,
)
    requires
        0 <= i < lines.len(),
        !is_if(lines[i]),
        !is_print(lines[i]),
        find(lines[i], seq!['=']) == Some(k),
        eval_outcome(
            trim(lines[i].skip(k + 1)),
            st,
            rolls.subrange(off, off + draws_needed(trim(lines[i].skip(k + 1)))),
        ) is None,
    ensures
        ({
            let rhs = trim(lines[i].skip(k + 1));
            let st2 = st.insert(trim(lines[i].take(k)), Val::I(0));
            let o = off + draws_needed(rhs);
            &&& step(lines, i, st, rolls, off) == (seq![Out::EvalFailed(rhs)], st2, o, 1int)
            &&& run_from(lines, i, st, rolls, off) == (seq![Out::EvalFailed(rhs)] + run_from(
                lines,
                i + 1,
                st2,
                rolls,
                o,
            ).0, run_from(lines, i + 1, st2, rolls, o).1)
        }),
{
}

/// A script: its lines, its variables and its own dice roller.
pub struct Script {
    lines: Vec<Vec<char>>,
    vars: Vars,
    roller: Roller,
}

pub open spec fn lines_view(v: Seq<Vec<char>>) -> Seq<Seq<char>> {
    v.map_values(|l: Vec<char>| l@)
}

impl Script {
    pub closed spec fn lines(&self) -> Seq<Seq<char>> {
        lines_view(self.lines@)
    }

    pub closed spec fn vars(&self) -> Map<Seq<char>, Val> {
        self.vars@
    }

    /// Every dice total this script has rolled, oldest first.
    pub closed spec fn history(&self) -> Seq<int> {
        self.roller.history()
    }

    fn prepare(text: &str, roller: Roller) -> (r: Script)
        requires
            roller.history() == Seq::<int>::empty(),
        ensures
            r.lines() == script_lines(text@),
            r.vars() == Map::<Seq<char>, Val>::empty(),
            r.history() == Seq::<int>::empty(),
    {
        let t = chars_of(text);
        Script { lines: script_lines_exec(&t), vars: Vars::new(), roller }
    }

    /// A script from its source text, with an empty store and dice seeded
    /// from the system's entropy.
    pub fn from_text(text: &str) -> (r: Script)
        ensures
            r.lines() == script_lines(text@),
            r.vars() == Map::<Seq<char>, Val>::empty(),
            r.history() == Seq::<int>::empty(),
    {
        Script::prepare(text, Roller::new())
    }

    /// A script from its source text whose dice are fixed by `seed`.
    pub fn from_text_seeded(text: &str, seed: u64) -> (r: Script)
        ensures
            r.lines() == script_lines(text@),
            r.vars() == Map::<Seq<char>, Val>::empty(),
            r.history() == Seq::<int>::empty(),
    {
        Script::prepare(text, Roller::seeded(seed))
    }

    /// The value of a variable, if it is bound.
    pub fn get(&self, name: &str) -> (r: Option<&Value>)
        ensures
            match r {
                Some(v) => self.vars().contains_key(name@) && self.vars()[name@] == v@,
                None => !self.vars().contains_key(name@),
            },
    {
        self.vars.get(&chars_of(name))
    }

    /// Runs the script from its first line to its end and returns what it
    /// printed and reported, in order.
    pub fn run(&mut self) -> (r: Vec<Output>)
        ensures
            final(self).lines() == old(self).lines(),
            extends(old(self).history(), final(self).history()),
            run_from(
                old(self).lines(),
                0,
                old(self).vars(),
                final(self).history(),
                old(self).history().len() as int,
            ) == (outs_view(r@), final(self).vars()),
    {
        let ghost l0 = self.lines();
        let ghost st0 = self.vars();
        let ghost h0 = self.history();
        let mut out: Vec<Output> = Vec::new();
        let mut i: usize = 0;
        proof {
            assert(h0.take(h0.len() as int) =~= h0);
            assert forall|rolls: Seq<int>| extends(h0, rolls) implies #[trigger] run_from(l0, 0, st0, rolls, h0.len() as int)
                == (outs_view(out@) + run_from(l0, 0, st0, rolls, h0.len() as int).0,
                    run_from(l0, 0, st0, rolls, h0.len() as int).1) by {
                assert(outs_view(out@) + run_from(l0, 0, st0, rolls, h0.len() as int).0
                    =~= run_from(l0, 0, st0, rolls, h0.len() as int).0);
            }
        }
        while i < self.lines.len()
            invariant
                self.lines() == l0,
                extends(h0, self.history()),
                forall|rolls: Seq<int>|
                    extends(self.history(), rolls) ==> #[trigger] run_from(l0, 0, st0, rolls, h0.len() as int)
                        == (outs_view(out@) + run_from(
                        l0,
                        i as int,
                        self.vars(),
                        rolls,
                        self.history().len() as int,
                    ).0, run_from(l0, i as int, self.vars(), rolls, self.history().len() as int).1),
            decreases self.lines.len() - i,
        {
            let ghost h1 = self.history();
            let ghost st1 = self.vars();
            let ghost o1 = outs_view(out@);
            let adv = self.run_line(i, &mut out);
            let ghost h2 = self.history();
            let ghost o2 = outs_view(out@);
            proof {
                lemma_extends_trans(h0, h1, h2);
                assert forall|rolls: Seq<int>| extends(h2, rolls) implies #[trigger] run_from(l0, 0, st0, rolls, h0.len() as int)
                    == (outs_view(out@) + run_from(l0, i + adv, self.vars(), rolls, h2.len() as int).0,
                        run_from(l0, i + adv, self.vars(), rolls, h2.len() as int).1) by {
                    lemma_extends_trans(h1, h2, rolls);
                    assert(step(l0, i as int, st1, rolls, h1.len() as int) == (o2.skip(o1.len() as int), self.vars(), h2.len() as int, adv as int));
                    assert(o2 =~= o1 + o2.skip(o1.len() as int));
                    assert(o1 + (o2.skip(o1.len() as int) + run_from(l0, i + adv, self.vars(), rolls, h2.len() as int).0)
                        =~= o2 + run_from(l0, i + adv, self.vars(), rolls, h2.len() as int).0);
                }
            }
            if self.lines.len() - i <= adv {
                proof {
                    assert forall|rolls: Seq<int>| extends(h2, rolls) implies #[trigger] run_from(l0, i + adv, self.vars(), rolls, h2.len() as int)
                        == run_from(l0, self.lines.len() as int, self.vars(), rolls, h2.len() as int) by {}
                }
                i = self.lines.len();
            } else {
                i = i + adv;
            }
        }
        proof {
            assert forall|rolls: Seq<int>| extends(self.history(), rolls) implies #[trigger] run_from(l0, 0, st0, rolls, h0.len() as int)
                == (outs_view(out@), self.vars()) by {
                assert(outs_view(out@) + Seq::<Out>::empty() =~= outs_view(out@));
            }
            let hf = self.history();
            assert(hf.take(hf.len() as int) =~= hf);
        }
        out
    }

    /// Executes line `index` as `step` describes and returns how far the
    /// cursor moves.
    fn run_line(&mut self, index: usize, out: &mut Vec<Output>) -> (adv: usize)
        requires
            index < old(self).lines.len(),
        ensures
            adv == if is_if(old(self).lines()[index as int]) {
                3usize
            } else {
                1usize
            },
            final(self).lines() == old(self).lines(),
            final(self).lines@ == old(self).lines@,
            extends(old(self).history(), final(self).history()),
            1 <= adv <= 3,
            forall|rolls: Seq<int>|
                extends(final(self).history(), rolls) ==> #[trigger] step(
                    old(self).lines(),
                    index as int,
                    old(self).vars(),
                    rolls,
                    old(self).history().len() as int,
                ) == (outs_view(final(out)@).skip(old(out)@.len() as int), final(self).vars(), final(self).history().len() as int, adv as int),
            outs_view(old(out)@) == outs_view(final(out)@).take(old(out)@.len() as int),
            old(out)@.len() <= final(out)@.len(),
        decreases old(self).lines.len() - index, 1int,
    {
        let ghost l0 = self.lines();
        let ghost h0 = self.history();
        let ghost o0 = outs_view(out@);
        let ghost st0 = self.vars();
        let line = slice_of(&self.lines[index], 0, self.lines[index].len());
        assert(line@ =~= l0[index as int]);
        let if_start: Vec<char> = vec!['i', 'f', ' '];
        let if_end: Vec<char> = vec![' ', 't', 'h', 'e', 'n'];
        assert(if_start@ =~= seq!['i', 'f', ' ']);
        assert(if_end@ =~= seq![' ', 't', 'h', 'e', 'n']);
        if starts_with_exec(&line, &if_start) && ends_with_exec(&line, &if_end) {
            return self.run_if(index, out);
        }
        let print_start: Vec<char> = vec!['p', 'r', 'i', 'n', 't', '('];
        let print_end: Vec<char> = vec![')'];
        assert(print_start@ =~= seq!['p', 'r', 'i', 'n', 't', '(']);
        assert(print_end@ =~= seq![')']);
        if starts_with_exec(&line, &print_start) && ends_with_exec(&line, &print_end) {
            return self.run_print(index, &line, out);
        }
        self.run_assign(index, &line, out)
    }

    /// Runs a `print(...)` line: each comma-separated argument is evaluated,
    /// rendered and appended, and the text, trimmed at its end, is one line.
    #[verifier::rlimit(50)]
    fn run_print(&mut self, index: usize, line: &Vec<char>, out: &mut Vec<Output>) -> (adv: usize)
        requires
            index < old(self).lines.len(),
            line@ == old(self).lines()[index as int],
            !is_if(line@),
            is_print(line@),
        ensures
            adv == 1,
            final(self).lines() == old(self).lines(),
            final(self).lines@ == old(self).lines@,
            extends(old(self).history(), final(self).history()),
            1 <= adv <= 3,
            forall|rolls: Seq<int>|
                extends(final(self).history(), rolls) ==> #[trigger] step(
                    old(self).lines(),
                    index as int,
                    old(self).vars(),
                    rolls,
                    old(self).history().len() as int,
                ) == (outs_view(final(out)@).skip(old(out)@.len() as int), final(self).vars(), final(self).history().len() as int, adv as int),
            outs_view(old(out)@) == outs_view(final(out)@).take(old(out)@.len() as int),
            old(out)@.len() <= final(out)@.len(),
    {
        let ghost l0 = self.lines();
        let ghost h0 = self.history();
        let ghost o0 = outs_view(out@);
        let ghost st0 = self.vars();
        proof {
            if line@.len() < 7 {
                assert(line@.take(6)[5] == '(');
                assert(line@.skip(line@.len() - 1)[0] == ')');
            }
        }
        let inner = slice_of(&line, 6, line.len() - 1);
        let parts = split_exec(&inner, ',');
        let ghost pv = parts@.map_values(|v: Vec<char>| v@);
        let mut text: Vec<char> = Vec::new();
        let mut k: usize = 0;
        proof {
            assert(h0.take(h0.len() as int) =~= h0);
            assert(outs_view(out@).skip(o0.len() as int) =~= Seq::<Out>::empty());
        }
        while k < parts.len()
            invariant
                k <= parts.len(),
                pv == parts@.map_values(|v: Vec<char>| v@),
                pv == split_on(l0[index as int].subrange(6, l0[index as int].len() - 1), ','),
                self.lines() == l0,
                self.lines@ == old(self).lines@,
                self.vars() == st0,
                extends(h0, self.history()),
                o0 == outs_view(out@).take(o0.len() as int),
                o0.len() <= out@.len(),
                forall|rolls: Seq<int>|
                    extends(self.history(), rolls) ==> #[trigger] print_from(
                        pv,
                        0,
                        st0,
                        rolls,
                        h0.len() as int,
                        Seq::empty(),
                        Seq::empty(),
                    ) == print_from(
                        pv,
                        k as int,
                        st0,
                        rolls,
                        self.history().len() as int,
                        text@,
                        outs_view(out@).skip(o0.len() as int),
                    ),
            decreases parts.len() - k,
        {
            let ghost h1 = self.history();
            let ghost o1 = outs_view(out@);
            let ghost t1 = text@;
            let part = trimmed(&parts[k]);
            let v = eval_value(&part, &self.vars, &mut self.roller, out);
            let ghost h2 = self.history();
            let ghost o2 = outs_view(out@);
            let ghost vv = v@;
            let rendered = match v {
                Value::Int(n) => decimal_exec(n),
                Value::Str(s) => chars_of(s.as_str()),
            };
            let mut m: usize = 0;
            while m < rendered.len()
                invariant
                    m <= rendered.len(),
                    text@ == t1 + rendered@.take(m as int),
                decreases rendered.len() - m,
            {
                text.push(rendered[m]);
                m = m + 1;
                assert(text@ =~= t1 + rendered@.take(m as int));
            }
            proof {
                assert(rendered@.take(m as int) =~= rendered@);
                lemma_extends_trans(h0, h1, h2);
                assert(o2.take(o0.len() as int) =~= o1.take(o0.len() as int));
                assert(o2.skip(o0.len() as int) =~= o1.skip(o0.len() as int) + o2.skip(o1.len() as int));
                assert forall|rolls: Seq<int>| extends(h2, rolls) implies #[trigger] print_from(
                    pv,
                    0,
                    st0,
                    rolls,
                    h0.len() as int,
                    Seq::empty(),
                    Seq::empty(),
                ) == print_from(pv, k + 1, st0, rolls, h2.len() as int, text@, o2.skip(o0.len() as int)) by {
                    lemma_extends_trans(h1, h2, rolls);
                    assert(ev(trim(pv[k as int]), st0, rolls, h1.len() as int) == (vv, o2.skip(o1.len() as int), h2.len() as int));
                }
            }
            k = k + 1;
        }
        let t = trimmed_end(&text);
        let ghost o3 = outs_view(out@);
        out.push(Output::Line(string_of(t)));
        proof {
            let hf = self.history();
            assert(outs_view(out@) =~= o3.push(Out::Line(trim_end(text@))));
            assert(outs_view(out@).take(o0.len() as int) =~= o3.take(o0.len() as int));
            assert(outs_view(out@).skip(o0.len() as int) =~= o3.skip(o0.len() as int).push(Out::Line(trim_end(text@))));
            assert(inner@ == l0[index as int].subrange(6, l0[index as int].len() - 1));
        }
        1
    }

    /// Runs a line that is neither a conditional nor a `print`: with an `=`
    /// it assigns, otherwise it does nothing.
    fn run_assign(&mut self, index: usize, line: &Vec<char>, out: &mut Vec<Output>) -> (adv: usize)
        requires
            index < old(self).lines.len(),
            line@ == old(self).lines()[index as int],
            !is_if(line@),
            !is_print(line@),
        ensures
            adv == 1,
            final(self).lines() == old(self).lines(),
            final(self).lines@ == old(self).lines@,
            extends(old(self).history(), final(self).history()),
            1 <= adv <= 3,
            forall|rolls: Seq<int>|
                extends(final(self).history(), rolls) ==> #[trigger] step(
                    old(self).lines(),
                    index as int,
                    old(self).vars(),
                    rolls,
                    old(self).history().len() as int,
                ) == (outs_view(final(out)@).skip(old(out)@.len() as int), final(self).vars(), final(self).history().len() as int, adv as int),
            outs_view(old(out)@) == outs_view(final(out)@).take(old(out)@.len() as int),
            old(out)@.len() <= final(out)@.len(),
    {
        let ghost l0 = self.lines();
        let ghost h0 = self.history();
        let ghost o0 = outs_view(out@);
        let ghost st0 = self.vars();
        let eq: Vec<char> = vec!['='];
        assert(eq@ =~= seq!['=']);
        match find_exec(&line, &eq) {
            Some(k) => {
                proof {
                    lemma_find_bounds(line@, eq@, 0);
                    assert(k + 1 <= line@.len());
                }
                assert(k < line.len());
                let name = trimmed(&slice_of(line, 0, k));
                let rhs = trimmed(&slice_of(line, k + 1, line.len()));
                assert(line@.subrange(0, k as int) =~= line@.take(k as int));
                assert(line@.subrange(k + 1, line@.len() as int) =~= line@.skip(k + 1));
                let v = eval_value(&rhs, &self.vars, &mut self.roller, out);
                self.vars.assign(name, v);
                1
            },
            None => {
                proof {
                    assert(h0.take(h0.len() as int) =~= h0);
                    assert(outs_view(out@).skip(o0.len() as int) =~= Seq::<Out>::empty());
                    assert(outs_view(out@).take(o0.len() as int) =~= o0);
                }
                1
            },
        }
    }

    /// Runs the conditional at line `index`: the line after it runs only when
    /// the condition holds, and the cursor then moves past three lines.
    #[verifier::rlimit(60)]
    fn run_if(&mut self, index: usize, out: &mut Vec<Output>) -> (adv: usize)
        requires
            index < old(self).lines.len(),
            is_if(old(self).lines()[index as int]),
        ensures
            adv == 3,
            final(self).lines() == old(self).lines(),
            final(self).lines@ == old(self).lines@,
            extends(old(self).history(), final(self).history()),
            1 <= adv <= 3,
            forall|rolls: Seq<int>|
                extends(final(self).history(), rolls) ==> #[trigger] step(
                    old(self).lines(),
                    index as int,
                    old(self).vars(),
                    rolls,
                    old(self).history().len() as int,
                ) == (outs_view(final(out)@).skip(old(out)@.len() as int), final(self).vars(), final(self).history().len() as int, adv as int),
            outs_view(old(out)@) == outs_view(final(out)@).take(old(out)@.len() as int),
            old(out)@.len() <= final(out)@.len(),
        decreases old(self).lines.len() - index, 0int,
    {
        let ghost l0 = self.lines();
        let ghost h0 = self.history();
        let ghost o0 = outs_view(out@);
        let ghost st0 = self.vars();
        let line = slice_of(&self.lines[index], 0, self.lines[index].len());
        assert(line@ =~= l0[index as int]);
        let cond = if line.len() >= 8 {
            slice_of(&line, 3, line.len() - 5)
        } else {
            Vec::new()
        };
        assert(cond@ =~= cond_of(l0[index as int]));
        let b = test_exec(&cond, &self.vars, &mut self.roller, out);
        let ghost h1 = self.history();
        let ghost o1 = outs_view(out@);
        proof {
            assert(o1.take(o0.len() as int) =~= o0);
        }
        if b {
            if index + 1 < self.lines.len() {
                assert(self.vars() == st0);
                assert(self.lines() == l0);
                assert(self.history() == h1);
                let adv2 = self.run_line(index + 1, out);
                let ghost h2 = self.history();
                let ghost o2 = outs_view(out@);
                proof {
                    lemma_extends_trans(h0, h1, h2);
                    assert(o2.take(o0.len() as int) =~= o1.take(o0.len() as int));
                    assert(o2.skip(o0.len() as int) =~= o1.skip(o0.len() as int) + o2.skip(o1.len() as int));
                    assert forall|rolls: Seq<int>| extends(h2, rolls) implies #[trigger] step(l0, index as int, st0, rolls, h0.len() as int)
                        == (o2.skip(o0.len() as int), self.vars(), h2.len() as int, 3int) by {
                        lemma_extends_trans(h1, h2, rolls);
                        assert(test(cond_of(l0[index as int]), st0, rolls, h0.len() as int) == (true, o1.skip(o0.len() as int), h1.len() as int));
                        assert(step(l0, index + 1, st0, rolls, h1.len() as int) == (o2.skip(o1.len() as int), self.vars(), h2.len() as int, adv2 as int));
                    }
                }
                return 3;
            }
            proof {
                assert forall|rolls: Seq<int>| extends(h1, rolls) implies #[trigger] step(l0, index as int, st0, rolls, h0.len() as int)
                    == (o1.skip(o0.len() as int), self.vars(), h1.len() as int, 3int) by {
                    assert(test(cond_of(l0[index as int]), st0, rolls, h0.len() as int) == (true, o1.skip(o0.len() as int), h1.len() as int));
                }
            }
            return 3;
        }
        proof {
            assert forall|rolls: Seq<int>| extends(h1, rolls) implies #[trigger] step(l0, index as int, st0, rolls, h0.len() as int)
                == (o1.skip(o0.len() as int), self.vars(), h1.len() as int, 3int) by {
                assert(test(cond_of(l0[index as int]), st0, rolls, h0.len() as int) == (false, o1.skip(o0.len() as int), h1.len() as int));
            }
        }
        3
    }
}

} // verus!
