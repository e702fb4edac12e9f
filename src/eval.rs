//! The expression evaluator: dice are rolled, names are replaced by their
//! values, and what remains is integer arithmetic with the usual precedence.

use crate::dice::{in_roll_range, is_rollable, rollable, sum, Roller};
use crate::lexer::{classify, dice_bonus, digits_val, lex, lex_from, sat, tokenize, toks_view, Tok, Token};
use crate::text::{chars_of, is_digit, is_word, lemma_run_end, slice_of, string_of, Class};
use crate::value::{Val, Value, Vars};
use vstd::prelude::*;

verus! {

pub open spec fn rollable_tok(t: Tok) -> bool {
    match t {
        Tok::Dice(c, s, b) => rollable(c, s, b),
        _ => false,
    }
}

/// How many dice in `t` get rolled: the others are malformed and count 0.
pub open spec fn dice_count(t: Seq<Tok>) -> nat
    decreases t.len(),
{
    if t.len() == 0 {
        0
    } else {
        dice_count(t.drop_last()) + if rollable_tok(t.last()) {
            1nat
        } else {
            0nat
        }
    }
}

/// Each die of `t` replaced by its total from `rolls` (one for each rollable
/// die, in order); a malformed die becomes `0`.
pub open spec fn resolve(t: Seq<Tok>, rolls: Seq<int>) -> Seq<Tok>
    decreases t.len(),
{
    if t.len() == 0 {
        Seq::empty()
    } else if rollable_tok(t.last()) {
        resolve(t.drop_last(), rolls.drop_last()).push(Tok::Num(rolls.last()))
    } else {
        resolve(t.drop_last(), rolls).push(
            match t.last() {
                Tok::Dice(_, _, _) => Tok::Num(0),
                x => x,
            },
        )
    }
}

/// Each total of `rolls` lies in the range of its die in `t`.
pub open spec fn rolls_fit(t: Seq<Tok>, rolls: Seq<int>) -> bool
    decreases t.len(),
{
    if t.len() == 0 {
        rolls.len() == 0
    } else if rollable_tok(t.last()) {
        rolls.len() > 0 && rolls_fit(t.drop_last(), rolls.drop_last()) && match t.last() {
            Tok::Dice(c, s, b) => in_roll_range(rolls.last(), c, s, b),
            _ => false,
        }
    } else {
        rolls_fit(t.drop_last(), rolls)
    }
}

/// A name replaced by its value where the store has one.
pub open spec fn subst_tok(t: Tok, st: Map<Seq<char>, Val>) -> Tok {
    match t {
        Tok::Ident(n) => if st.contains_key(n) {
            match st[n] {
                Val::I(i) => Tok::Num(i),
                Val::S(s) => Tok::Text(s),
            }
        } else {
            t
        },
        _ => t,
    }
}

pub open spec fn subst(t: Seq<Tok>, st: Map<Seq<char>, Val>) -> Seq<Tok> {
    t.map_values(|x: Tok| subst_tok(x, st))
}

pub open spec fn in_i32(v: int) -> bool {
    i32::MIN <= v <= i32::MAX
}

pub open spec fn abs(v: int) -> int {
    if v < 0 {
        -v
    } else {
        v
    }
}

/// Division that truncates toward zero.
pub open spec fn trunc_div(x: int, y: int) -> int {
    let q = abs(x) / abs(y);
    if (x < 0) == (y < 0) {
        q
    } else {
        -q
    }
}

/// A binary operator on two values: integers only, and the result must be
/// an `i32`; division by zero fails.
pub open spec fn arith(op: Tok, a: Val, b: Val) -> Option<Val> {
    match (a, b) {
        (Val::I(x), Val::I(y)) => {
            let r = match op {
                Tok::Plus => x + y,
                Tok::Minus => x - y,
                Tok::Star => x * y,
                _ => if y == 0 {
                    i32::MAX + 1
                } else {
                    trunc_div(x, y)
                },
            };
            if in_i32(r) {
                Some(Val::I(r))
            } else {
                None
            }
        },
        _ => None,
    }
}

pub open spec fn is_sum_op(t: Tok) -> bool {
    t is Plus || t is Minus
}

pub open spec fn is_product_op(t: Tok) -> bool {
    t is Star || t is Slash
}

/// `expr := term (('+' | '-') term)*`, from position `i`: the value and the
/// position after it.
pub open spec fn p_expr(t: Seq<Tok>, i: int) -> Option<(Val, int)>
    decreases t.len() - i, 3int,
{
    match p_term(t, i) {
        Some((v, j)) => if i < j <= t.len() {
            sum_rest(t, j, v)
        } else {
            None
        },
        None => None,
    }
}

pub open spec fn sum_rest(t: Seq<Tok>, i: int, acc: Val) -> Option<(Val, int)>
    decreases t.len() - i, 4int,
{
    if 0 <= i < t.len() && is_sum_op(t[i]) {
        match p_term(t, i + 1) {
            Some((v, j)) => match arith(t[i], acc, v) {
                Some(r) => if i < j <= t.len() {
                    sum_rest(t, j, r)
                } else {
                    None
                },
                None => None,
            },
            None => None,
        }
    } else {
        Some((acc, i))
    }
}

/// `term := unary (('*' | '/') unary)*`.
pub open spec fn p_term(t: Seq<Tok>, i: int) -> Option<(Val, int)>
    decreases t.len() - i, 2int,
{
    match p_unary(t, i) {
        Some((v, j)) => if i < j <= t.len() {
            product_rest(t, j, v)
        } else {
            None
        },
        None => None,
    }
}

pub open spec fn product_rest(t: Seq<Tok>, i: int, acc: Val) -> Option<(Val, int)>
    decreases t.len() - i, 4int,
{
    if 0 <= i < t.len() && is_product_op(t[i]) {
        match p_unary(t, i + 1) {
            Some((v, j)) => match arith(t[i], acc, v) {
                Some(r) => if i < j <= t.len() {
                    product_rest(t, j, r)
                } else {
                    None
                },
                None => None,
            },
            None => None,
        }
    } else {
        Some((acc, i))
    }
}

/// `unary := '-' unary | primary`.
pub open spec fn p_unary(t: Seq<Tok>, i: int) -> Option<(Val, int)>
    decreases t.len() - i, 1int,
{
    if 0 <= i < t.len() && t[i] is Minus {
        match p_unary(t, i + 1) {
            Some((Val::I(x), j)) => if in_i32(-x) {
                Some((Val::I(-x), j))
            } else {
                None
            },
            _ => None,
        }
    } else {
        p_primary(t, i)
    }
}

/// `primary := number | text | '(' expr ')'`.
pub open spec fn p_primary(t: Seq<Tok>, i: int) -> Option<(Val, int)>
    decreases t.len() - i, 0int,
{
    if 0 <= i < t.len() {
        match t[i] {
            Tok::Num(n) => if in_i32(n) {
                Some((Val::I(n), i + 1))
            } else {
                None
            },
            Tok::Text(s) => Some((Val::S(s), i + 1)),
            Tok::Open => match p_expr(t, i + 1) {
                Some((v, j)) => if 0 <= j < t.len() && t[j] is Close {
                    Some((v, j + 1))
                } else {
                    None
                },
                None => None,
            },
            _ => None,
        }
    } else {
        None
    }
}

/// The value of a whole token sequence, or `None` where it is no expression.
pub open spec fn eval_toks(t: Seq<Tok>) -> Option<Val> {
    match p_expr(t, 0) {
        Some((v, j)) => if j == t.len() {
            Some(v)
        } else {
            None
        },
        None => None,
    }
}

pub open spec fn res_view(r: Option<(Value, usize)>) -> Option<(Val, int)> {
    match r {
        Some((v, j)) => Some((v@, j as int)),
        None => None,
    }
}

pub open spec fn opt_view(r: Option<Value>) -> Option<Val> {
    match r {
        Some(v) => Some(v@),
        None => None,
    }
}

fn arith_exec(op: &Token, a: Value, b: Value) -> (r: Option<Value>)
    ensures
        opt_view(r) == arith(op@, a@, b@),
{
    match (a, b) {
        (Value::Int(x), Value::Int(y)) => {
            let x = x as i64;
            let y = y as i64;
            let r: i64 = match op {
                Token::Plus => x + y,
                Token::Minus => x - y,
                Token::Star => {
                    assert(-2147483648 * 2147483648 <= x * y <= 2147483648 * 2147483648)
                        by (nonlinear_arith)
                        requires
                            -2147483648 <= x <= 2147483647,
                            -2147483648 <= y <= 2147483647,
                    ;
                    x * y
                },
                _ => {
                    if y == 0 {
                        return None;
                    }
                    let ax: u64 = if x < 0 {
                        (-x) as u64
                    } else {
                        x as u64
                    };
                    let ay: u64 = if y < 0 {
                        (-y) as u64
                    } else {
                        y as u64
                    };
                    let q = ax / ay;
                    assert(q <= ax) by (nonlinear_arith)
                        requires
                            q == ax / ay,
                            ay >= 1,
                    ;
                    if (x < 0) == (y < 0) {
                        q as i64
                    } else {
                        -(q as i64)
                    }
                },
            };
            if -2147483648 <= r && r <= 2147483647 {
                Some(Value::Int(r as i32))
            } else {
                None
            }
        },
        _ => None,
    }
}

fn parse_expr(t: &Vec<Token>, i: usize) -> (r: Option<(Value, usize)>)
    requires
        i <= t.len(),
    ensures
        res_view(r) == p_expr(toks_view(t@), i as int),
        match r {
            Some((_, j)) => j <= t.len(),
            None => true,
        },
    decreases t.len() - i, 3int,
{
    match parse_term(t, i) {
        Some((v, j)) => if i < j && j <= t.len() {
            sum_rest_exec(t, j, v)
        } else {
            None
        },
        None => None,
    }
}

fn sum_rest_exec(t: &Vec<Token>, i: usize, acc: Value) -> (r: Option<(Value, usize)>)
    requires
        i <= t.len(),
    ensures
        res_view(r) == sum_rest(toks_view(t@), i as int, acc@),
        match r {
            Some((_, j)) => j <= t.len(),
            None => true,
        },
    decreases t.len() - i, 4int,
{
    if i < t.len() && (matches!(t[i], Token::Plus) || matches!(t[i], Token::Minus)) {
        match parse_term(t, i + 1) {
            Some((v, j)) => match arith_exec(&t[i], acc, v) {
                Some(r) => if i < j && j <= t.len() {
                    sum_rest_exec(t, j, r)
                } else {
                    None
                },
                None => None,
            },
            None => None,
        }
    } else {
        Some((acc, i))
    }
}

fn parse_term(t: &Vec<Token>, i: usize) -> (r: Option<(Value, usize)>)
    requires
        i <= t.len(),
    ensures
        res_view(r) == p_term(toks_view(t@), i as int),
        match r {
            Some((_, j)) => j <= t.len(),
            None => true,
        },
    decreases t.len() - i, 2int,
{
    match parse_unary(t, i) {
        Some((v, j)) => if i < j && j <= t.len() {
            product_rest_exec(t, j, v)
        } else {
            None
        },
        None => None,
    }
}

fn product_rest_exec(t: &Vec<Token>, i: usize, acc: Value) -> (r: Option<(Value, usize)>)
    requires
        i <= t.len(),
    ensures
        res_view(r) == product_rest(toks_view(t@), i as int, acc@),
        match r {
            Some((_, j)) => j <= t.len(),
            None => true,
        },
    decreases t.len() - i, 4int,
{
    if i < t.len() && (matches!(t[i], Token::Star) || matches!(t[i], Token::Slash)) {
        match parse_unary(t, i + 1) {
            Some((v, j)) => match arith_exec(&t[i], acc, v) {
                Some(r) => if i < j && j <= t.len() {
                    product_rest_exec(t, j, r)
                } else {
                    None
                },
                None => None,
            },
            None => None,
        }
    } else {
        Some((acc, i))
    }
}

fn parse_unary(t: &Vec<Token>, i: usize) -> (r: Option<(Value, usize)>)
    requires
        i <= t.len(),
    ensures
        res_view(r) == p_unary(toks_view(t@), i as int),
        match r {
            Some((_, j)) => j <= t.len(),
            None => true,
        },
    decreases t.len() - i, 1int,
{
    if i < t.len() && matches!(t[i], Token::Minus) {
        match parse_unary(t, i + 1) {
            Some((Value::Int(x), j)) => if x != i32::MIN {
                Some((Value::Int(-x), j))
            } else {
                None
            },
            _ => None,
        }
    } else {
        parse_primary(t, i)
    }
}

fn parse_primary(t: &Vec<Token>, i: usize) -> (r: Option<(Value, usize)>)
    requires
        i <= t.len(),
    ensures
        res_view(r) == p_primary(toks_view(t@), i as int),
        match r {
            Some((_, j)) => j <= t.len(),
            None => true,
        },
    decreases t.len() - i, 0int,
{
    if i < t.len() {
        match &t[i] {
            Token::Num(n) => if -2147483648 <= *n && *n <= 2147483647 {
                Some((Value::Int(*n as i32), i + 1))
            } else {
                None
            },
            Token::Text(s) => {
                let c = slice_of(s, 0, s.len());
                assert(c@ =~= s@);
                Some((Value::Str(string_of(c)), i + 1))
            },
            Token::Open => match parse_expr(t, i + 1) {
                Some((v, j)) => if j < t.len() && matches!(t[j], Token::Close) {
                    Some((v, j + 1))
                } else {
                    None
                },
                None => None,
            },
            _ => None,
        }
    } else {
        None
    }
}

/// The value of a whole token sequence, as `eval_toks` gives it.
pub fn eval_tokens(t: &Vec<Token>) -> (r: Option<Value>)
    ensures
        opt_view(r) == eval_toks(toks_view(t@)),
{
    match parse_expr(t, 0) {
        Some((v, j)) => if j == t.len() {
            Some(v)
        } else {
            None
        },
        None => None,
    }
}

/// Whether the whole text is one quoted literal.
pub open spec fn quoted(e: Seq<char>) -> bool {
    e.len() >= 2 && e[0] == '"' && e.last() == '"'
}

/// How many dice totals evaluating `e` draws.
pub open spec fn draws_needed(e: Seq<char>) -> nat {
    if quoted(e) {
        0
    } else {
        match lex(e) {
            Some(t) => dice_count(t),
            None => 0,
        }
    }
}

/// The value of `e` under the store `st`, with `rolls` as the dice totals,
/// or `None` where evaluation fails.
pub open spec fn eval_outcome(e: Seq<char>, st: Map<Seq<char>, Val>, rolls: Seq<int>) -> Option<Val> {
    if quoted(e) {
        Some(Val::S(e.subrange(1, e.len() - 1)))
    } else {
        match lex(e) {
            Some(t) => eval_toks(subst(resolve(t, rolls), st)),
            None => None,
        }
    }
}

/// The totals drawn between two states of a roller's history.
pub open spec fn drawn(before: Seq<int>, after: Seq<int>) -> Seq<int> {
    after.skip(before.len() as int)
}

/// A roller's history only grows.
pub open spec fn extends(before: Seq<int>, after: Seq<int>) -> bool {
    before.len() <= after.len() && after.take(before.len() as int) == before
}

fn copy_token(t: &Token) -> (r: Token)
    ensures
        r@ == t@,
{
    match t {
        Token::Num(n) => Token::Num(*n),
        Token::Dice(c, s, b) => Token::Dice(*c, *s, *b),
        Token::Ident(v) => {
            let c = slice_of(v, 0, v.len());
            assert(c@ =~= v@);
            Token::Ident(c)
        },
        Token::Text(v) => {
            let c = slice_of(v, 0, v.len());
            assert(c@ =~= v@);
            Token::Text(c)
        },
        Token::Plus => Token::Plus,
        Token::Minus => Token::Minus,
        Token::Star => Token::Star,
        Token::Slash => Token::Slash,
        Token::Open => Token::Open,
        Token::Close => Token::Close,
    }
}

/// Rolls every die of `toks`, in order, and puts its total in its place.
pub fn resolve_dice(toks: &Vec<Token>, roller: &mut Roller) -> (r: Vec<Token>)
    ensures
        extends(old(roller).history(), final(roller).history()),
        toks_view(r@) == resolve(
            toks_view(toks@),
            drawn(old(roller).history(), final(roller).history()),
        ),
        rolls_fit(toks_view(toks@), drawn(old(roller).history(), final(roller).history())),
        drawn(old(roller).history(), final(roller).history()).len() == dice_count(toks_view(toks@)),
{
    let ghost h0 = roller.history();
    let ghost tv = toks_view(toks@);
    let mut out: Vec<Token> = Vec::new();
    let mut i: usize = 0;
    assert(h0.take(h0.len() as int) =~= h0);
    assert(drawn(h0, h0) =~= Seq::<int>::empty());
    assert(tv.take(0) =~= Seq::<Tok>::empty());
    while i < toks.len()
        invariant
            i <= toks.len(),
            tv == toks_view(toks@),
            extends(h0, roller.history()),
            toks_view(out@) == resolve(tv.take(i as int), drawn(h0, roller.history())),
            rolls_fit(tv.take(i as int), drawn(h0, roller.history())),
            drawn(h0, roller.history()).len() == dice_count(tv.take(i as int)),
        decreases toks.len() - i,
    {
        let ghost d0 = drawn(h0, roller.history());
        let ghost prev = toks_view(out@);
        assert(tv.take(i + 1).drop_last() =~= tv.take(i as int));
        assert(tv.take(i + 1).last() == toks@[i as int]@);
        match &toks[i] {
            Token::Dice(c, s, b) => {
                if is_rollable(*c, *s, *b) {
                    let ghost hb = roller.history();
                    let total = roller.roll_dice(*c, *s, *b);
                    assert(roller.history().take(h0.len() as int) =~= hb.take(h0.len() as int));
                    let ghost d1 = drawn(h0, roller.history());
                    assert(d1 =~= d0.push(total as int));
                    assert(d1.drop_last() =~= d0);
                    out.push(Token::Num(total as i64));
                } else {
                    out.push(Token::Num(0));
                }
            },
            t => {
                out.push(copy_token(t));
            },
        }
        assert(toks_view(out@) =~= prev.push(toks_view(out@).last()));
        i = i + 1;
    }
    assert(tv.take(i as int) =~= tv);
    out
}

/// The token that stands for a value.
fn value_token(v: &Value) -> (r: Token)
    ensures
        r@ == match v@ {
            Val::I(i) => Tok::Num(i),
            Val::S(s) => Tok::Text(s),
        },
{
    match v {
        Value::Int(i) => Token::Num(*i as i64),
        Value::Str(s) => Token::Text(chars_of(s.as_str())),
    }
}

/// Replaces each name that the store binds by its value.
pub fn substitute(toks: &Vec<Token>, vars: &Vars) -> (r: Vec<Token>)
    ensures
        toks_view(r@) == subst(toks_view(toks@), vars@),
{
    let mut out: Vec<Token> = Vec::new();
    let mut i: usize = 0;
    while i < toks.len()
        invariant
            i <= toks.len(),
            toks_view(out@) =~= subst(toks_view(toks@).take(i as int), vars@),
        decreases toks.len() - i,
    {
        let t = match &toks[i] {
            Token::Ident(n) => match vars.get(n) {
                Some(v) => value_token(v),
                None => copy_token(&toks[i]),
            },
            t => copy_token(t),
        };
        assert(t@ == subst_tok(toks@[i as int]@, vars@));
        let ghost prev = toks_view(out@);
        out.push(t);
        assert(toks_view(out@) =~= prev.push(t@));
        assert(toks_view(toks@).take(i + 1) =~= toks_view(toks@).take(i as int).push(toks@[i as int]@));
        i = i + 1;
        assert(toks_view(out@) =~= subst(toks_view(toks@).take(i as int), vars@));
    }
    assert(toks_view(toks@).take(i as int) =~= toks_view(toks@));
    out
}

/// Evaluates `e`: a quoted literal is text; otherwise its dice are rolled,
/// its names replaced by their values and its arithmetic worked out.
/// `None` where that fails.
pub fn evaluate(e: &Vec<char>, vars: &Vars, roller: &mut Roller) -> (r: Option<Value>)
    ensures
        extends(old(roller).history(), final(roller).history()),
        drawn(old(roller).history(), final(roller).history()).len() == draws_needed(e@),
        opt_view(r) == eval_outcome(e@, vars@, drawn(old(roller).history(), final(roller).history())),
        match lex(e@) {
            Some(t) => !quoted(e@) ==> rolls_fit(t, drawn(old(roller).history(), final(roller).history())),
            None => true,
        },
{
    let ghost h0 = roller.history();
    proof {
        assert(h0.take(h0.len() as int) =~= h0);
        assert(drawn(h0, h0) =~= Seq::<int>::empty());
    }
    if e.len() >= 2 && e[0] == '"' && e[e.len() - 1] == '"' {
        let c = slice_of(e, 1, e.len() - 1);
        return Some(Value::Str(string_of(c)));
    }
    match tokenize(e) {
        None => None,
        Some(toks) => {
            let rolled = resolve_dice(&toks, roller);
            let t = substitute(&rolled, vars);
            eval_tokens(&t)
        },
    }
}

/// The die that `text` spells out, when the whole text is one die:
/// `(count, sides, bonus)`.
pub open spec fn dice_spec(text: Seq<char>) -> Option<(int, int, int)> {
    match lex(text) {
        Some(t) => if t.len() == 1 {
            match t[0] {
                Tok::Dice(c, s, b) => Some((c, s, b)),
                _ => None,
            }
        } else {
            None
        },
        None => None,
    }
}

/// Whether `text` is a die that can be rolled.
pub open spec fn valid_roll(text: Seq<char>) -> bool {
    match dice_spec(text) {
        Some((c, s, b)) => rollable(c, s, b),
        None => false,
    }
}

/// `d` is a possible set of draws for `count` dice of `sides` sides, and
/// `r` is their sum plus `bonus`.
pub open spec fn sum_of_draws(r: int, d: Seq<int>, count: int, sides: int, bonus: int) -> bool {
    &&& d.len() == count
    &&& forall|k: int| 0 <= k < d.len() ==> 1 <= #[trigger] d[k] <= sides
    &&& r == sum(d) + bonus
}

impl Roller {
    /// Rolls the die that `text` spells out (`NdM+B`, count 1 when omitted,
    /// bonus 0 when omitted). Text that is not one rollable die gives `0`
    /// and draws nothing.
    pub fn roll(&mut self, text: &str) -> (r: i32)
        ensures
            valid_roll(text@) ==> match dice_spec(text@) {
                Some((c, s, b)) => {
                    &&& in_roll_range(r as int, c, s, b)
                    &&& final(self).history() == old(self).history().push(r as int)
                    &&& final(self).draws().take(old(self).draws().len() as int) == old(self).draws()
                    &&& sum_of_draws(
                        r as int,
                        final(self).draws().skip(old(self).draws().len() as int),
                        c,
                        s,
                        b,
                    )
                },
                None => false,
            },
            !valid_roll(text@) ==> r == 0 && final(self).history() == old(self).history()
                && final(self).draws() == old(self).draws(),
    {
        let chars = chars_of(text);
        match tokenize(&chars) {
            Some(toks) => {
                if toks.len() == 1 {
                    match &toks[0] {
                        Token::Dice(c, s, b) => {
                            if is_rollable(*c, *s, *b) {
                                return self.roll_dice(*c, *s, *b);
                            }
                            0
                        },
                        _ => 0,
                    }
                } else {
                    0
                }
            },
            None => 0,
        }
    }
}

/// Rolls the die that `expression` spells out with a fresh roller: a total
/// in its range, or `0` for text that is not one rollable die.
pub fn roll(expression: &str) -> (r: i32)
    ensures
        valid_roll(expression@) ==> match dice_spec(expression@) {
            Some((c, s, b)) => in_roll_range(r as int, c, s, b) && exists|d: Seq<int>|
                sum_of_draws(r as int, d, c, s, b),
            None => false,
        },
        !valid_roll(expression@) ==> r == 0,
{
    let mut roller = Roller::new();
    let r = roller.roll(expression);
    proof {
        let d = roller.draws().skip(0);
        if valid_roll(expression@) {
            let (c, s, b) = dice_spec(expression@)->0;
            assert(sum_of_draws(r as int, d, c, s, b));
        }
    }
    r
}

proof fn lemma_single_die(s: Seq<char>, p: int, count: int, sides: Seq<char>)
    requires
        s.len() > p + 1,
        0 <= p,
        forall|i: int| 0 <= i < p ==> is_digit(#[trigger] s[i]),
        s[p] == 'd',
        forall|i: int| p < i < s.len() ==> is_digit(#[trigger] s[i]),
        sides == s.subrange(p + 1, s.len() as int),
        count == if p == 0 {
            1
        } else {
            sat(digits_val(s.take(p)) as int)
        },
    ensures
        dice_spec(s) == Some((count, sat(digits_val(sides) as int), 0int)),
{
    let n = s.len() as int;
    assert forall|i: int| 0 <= i < n implies is_word(#[trigger] s[i]) by {
        if i != p {
            assert(is_digit(s[i]));
        }
    }
    lemma_run_end(s, 0, n, Class::Word);
    assert(s.subrange(0, n) =~= s);
    lemma_run_end(s, 0, p, Class::Digit);
    lemma_run_end(s, p + 1, n, Class::Digit);
    lemma_run_end(s, n, n, Class::Space);
    assert(classify(s) == Some(Tok::Dice(count, sat(digits_val(sides) as int), 0)));
    assert(dice_bonus(s, n) == (0int, n));
    assert(lex_from(s, n) == Some(Seq::<Tok>::empty()));
    assert(seq![Tok::Dice(count, sat(digits_val(sides) as int), 0)] + Seq::<Tok>::empty()
        =~= seq![Tok::Dice(count, sat(digits_val(sides) as int), 0)]);
}

/// A die written without its count rolls one die: `dM` and `1dM` spell
/// the same die, for every string of digits `M`.
pub proof fn lemma_count_defaults_to_one(m: Seq<char>)
    requires
        m.len() > 0,
        forall|i: int| 0 <= i < m.len() ==> is_digit(#[trigger] m[i]),
    ensures
        dice_spec(seq!['d'] + m) == dice_spec(seq!['1', 'd'] + m),
        dice_spec(seq!['d'] + m) == Some((1int, sat(digits_val(m) as int), 0int)),
{
    let a = seq!['d'] + m;
    let b = seq!['1', 'd'] + m;
    assert(a.subrange(1, a.len() as int) =~= m);
    assert(b.subrange(2, b.len() as int) =~= m);
    assert forall|i: int| 1 < i < b.len() implies is_digit(#[trigger] b[i]) by {
        assert(b[i] == m[i - 2]);
    }
    assert forall|i: int| 0 < i < a.len() implies is_digit(#[trigger] a[i]) by {
        assert(a[i] == m[i - 1]);
    }
    lemma_single_die(a, 0, 1, m);
    let one = b.take(1);
    assert(one =~= seq!['1']);
    assert(one.drop_last() =~= Seq::<char>::empty());
    assert(digits_val(one.drop_last()) == 0);
    assert(one.last() == '1');
    assert(('1' as int) - ('0' as int) == 1);
    assert(digits_val(one) == 1);
    lemma_single_die(b, 1, 1, m);
}

/// Two dice in one expression draw separately: `d6+d6` takes two totals,
/// each in `[1, 6]`, and every such pair is possible, its value their sum.
pub proof fn lemma_dice_draw_separately(st: Map<Seq<char>, Val>, a: int, b: int)
    requires
        1 <= a <= 6,
        1 <= b <= 6,
    ensures
        ({
            let e = seq!['d', '6', '+', 'd', '6'];
            &&& draws_needed(e) == 2
            &&& lex(e) is Some
            &&& rolls_fit(lex(e)->0, seq![a, b])
            &&& eval_outcome(e, st, seq![a, b]) == Some(Val::I(a + b))
        }),
{
    let e = seq!['d', '6', '+', 'd', '6'];
    let d = Tok::Dice(1, 6, 0);
    let w1 = e.subrange(0, 2);
    let w2 = e.subrange(3, 5);
    assert(w1 =~= seq!['d', '6']);
    assert(w2 =~= seq!['d', '6']);
    let six = seq!['6'];
    assert(six.drop_last() =~= Seq::<char>::empty());
    assert(digits_val(six.drop_last()) == 0);
    assert(('6' as int) - ('0' as int) == 6);
    assert(digits_val(six) == 6);
    assert(w1.subrange(1, 2) =~= six);
    lemma_run_end(w1, 0, 0, Class::Digit);
    lemma_run_end(w1, 1, 2, Class::Digit);
    assert(classify(w1) == Some(d));
    lemma_run_end(e, 0, 2, Class::Word);
    lemma_run_end(e, 3, 5, Class::Word);
    lemma_run_end(e, 2, 2, Class::Space);
    lemma_run_end(e, 3, 3, Class::Space);
    lemma_run_end(e, 5, 5, Class::Space);
    assert(dice_bonus(e, 2) == (0int, 2int));
    assert(dice_bonus(e, 5) == (0int, 5int));
    assert(lex_from(e, 5) == Some(Seq::<Tok>::empty()));
    assert(lex_from(e, 3) == Some(seq![d]));
    assert(lex_from(e, 2) == Some(seq![Tok::Plus] + seq![d]));
    let t = seq![d, Tok::Plus, d];
    assert(seq![d] + (seq![Tok::Plus] + seq![d]) =~= t);
    assert(lex(e) == Some(t));
    assert(t.drop_last() =~= seq![d, Tok::Plus]);
    assert(t.drop_last().drop_last() =~= seq![d]);
    assert(t.drop_last().drop_last().drop_last() =~= Seq::<Tok>::empty());
    let r = seq![a, b];
    assert(r.drop_last() =~= seq![a]);
    assert(r.drop_last().drop_last() =~= Seq::<int>::empty());
    assert(seq![d].drop_last() =~= Seq::<Tok>::empty());
    assert(seq![a].drop_last() =~= Seq::<int>::empty());
    assert(rollable(1, 6, 0));
    assert(rollable_tok(d));
    assert(seq![d].last() == d);
    assert(dice_count(Seq::<Tok>::empty()) == 0);
    assert(rolls_fit(Seq::<Tok>::empty(), Seq::<int>::empty()));
    assert(resolve(Seq::<Tok>::empty(), Seq::<int>::empty()) =~= Seq::<Tok>::empty());
    assert(dice_count(seq![d]) == 1);
    assert(dice_count(seq![d, Tok::Plus]) == 1);
    assert(dice_count(t) == 2);
    assert(rolls_fit(seq![d], seq![a]));
    assert(rolls_fit(seq![d, Tok::Plus], seq![a]));
    assert(rolls_fit(t, r));
    let rt = seq![Tok::Num(a), Tok::Plus, Tok::Num(b)];
    assert(resolve(seq![d], seq![a]) =~= seq![Tok::Num(a)]);
    assert(resolve(seq![d, Tok::Plus], seq![a]) =~= seq![Tok::Num(a), Tok::Plus]);
    assert(resolve(t, r) =~= rt);
    assert(subst(rt, st) =~= rt);
    assert(p_primary(rt, 0) == Some((Val::I(a), 1int)));
    assert(p_unary(rt, 0) == Some((Val::I(a), 1int)));
    assert(product_rest(rt, 1, Val::I(a)) == Some((Val::I(a), 1int)));
    assert(p_term(rt, 0) == Some((Val::I(a), 1int)));
    assert(p_primary(rt, 2) == Some((Val::I(b), 3int)));
    assert(p_unary(rt, 2) == Some((Val::I(b), 3int)));
    assert(product_rest(rt, 3, Val::I(b)) == Some((Val::I(b), 3int)));
    assert(p_term(rt, 2) == Some((Val::I(b), 3int)));
    assert(sum_rest(rt, 3, Val::I(a + b)) == Some((Val::I(a + b), 3int)));
    assert(sum_rest(rt, 1, Val::I(a)) == Some((Val::I(a + b), 3int)));
    assert(p_expr(rt, 0) == Some((Val::I(a + b), 3int)));
    assert(eval_toks(rt) == Some(Val::I(a + b)));
}

/// `*` binds tighter than `+`: `a + b * c` is `a + (b * c)` whenever the
/// numbers and the results are `i32` values.
pub proof fn lemma_product_binds_tighter(a: int, b: int, c: int)
    requires
        in_i32(a),
        in_i32(b),
        in_i32(c),
        in_i32(b * c),
        in_i32(a + b * c),
    ensures
        eval_toks(seq![Tok::Num(a), Tok::Plus, Tok::Num(b), Tok::Star, Tok::Num(c)]) == Some(
            Val::I(a + b * c),
        ),
{
    let t = seq![Tok::Num(a), Tok::Plus, Tok::Num(b), Tok::Star, Tok::Num(c)];
    assert(p_unary(t, 0) == Some((Val::I(a), 1int)));
    assert(product_rest(t, 1, Val::I(a)) == Some((Val::I(a), 1int)));
    assert(p_term(t, 0) == Some((Val::I(a), 1int)));
    assert(p_unary(t, 2) == Some((Val::I(b), 3int)));
    assert(p_unary(t, 4) == Some((Val::I(c), 5int)));
    assert(arith(Tok::Star, Val::I(b), Val::I(c)) == Some(Val::I(b * c)));
    assert(product_rest(t, 5, Val::I(b * c)) == Some((Val::I(b * c), 5int)));
    assert(product_rest(t, 3, Val::I(b)) == Some((Val::I(b * c), 5int)));
    assert(p_term(t, 2) == Some((Val::I(b * c), 5int)));
    assert(sum_rest(t, 5, Val::I(a + b * c)) == Some((Val::I(a + b * c), 5int)));
    assert(sum_rest(t, 1, Val::I(a)) == Some((Val::I(a + b * c), 5int)));
    assert(p_expr(t, 0) == Some((Val::I(a + b * c), 5int)));
}

/// A die written out in full as `NdM+B`, with decimal `N >= 1`, `M` and `B`
/// that can be rolled, is exactly that die; `roll` then gives a total in
/// `[N + B, N * M + B]`.
pub proof fn lemma_written_die(ns: Seq<char>, ms: Seq<char>, bs: Seq<char>)
    requires
        ns.len() > 0,
        ms.len() > 0,
        bs.len() > 0,
        forall|i: int| 0 <= i < ns.len() ==> is_digit(#[trigger] ns[i]),
        forall|i: int| 0 <= i < ms.len() ==> is_digit(#[trigger] ms[i]),
        forall|i: int| 0 <= i < bs.len() ==> is_digit(#[trigger] bs[i]),
        digits_val(ns) >= 1,
        rollable(digits_val(ns) as int, digits_val(ms) as int, digits_val(bs) as int),
    ensures
        ({
            let text = ns + seq!['d'] + ms + seq!['+'] + bs;
            &&& dice_spec(text) == Some(
                (digits_val(ns) as int, digits_val(ms) as int, digits_val(bs) as int),
            )
            &&& valid_roll(text)
        }),
{
    let nv = digits_val(ns) as int;
    let mv = digits_val(ms) as int;
    let bv = digits_val(bs) as int;
    assert(nv <= nv * mv && mv <= nv * mv) by (nonlinear_arith)
        requires
            nv >= 1,
            mv >= 1,
    ;
    let w = ns + seq!['d'] + ms;
    let s = w + seq!['+'] + bs;
    let p = ns.len() as int;
    let j = w.len() as int;
    let n = s.len() as int;
    assert forall|i: int| 0 <= i < p implies is_digit(#[trigger] w[i]) by {
        assert(w[i] == ns[i]);
    }
    assert forall|i: int| p < i < j implies is_digit(#[trigger] w[i]) by {
        assert(w[i] == ms[i - p - 1]);
    }
    assert(w[p] == 'd');
    lemma_run_end(w, 0, p, Class::Digit);
    lemma_run_end(w, p + 1, j, Class::Digit);
    assert(w.take(p) =~= ns);
    assert(w.subrange(p + 1, j) =~= ms);
    assert(classify(w) == Some(Tok::Dice(nv, mv, 0)));
    assert(s.subrange(0, j) =~= w);
    assert forall|i: int| 0 <= i < j implies is_word(#[trigger] s[i]) by {
        assert(s[i] == w[i]);
        if i != p {
            assert(is_digit(w[i]));
        }
    }
    assert(s[j] == '+');
    lemma_run_end(s, 0, j, Class::Word);
    assert forall|i: int| j < i < n implies is_digit(#[trigger] s[i]) by {
        assert(s[i] == bs[i - j - 1]);
    }
    assert(is_digit(s[j + 1]));
    lemma_run_end(s, j, j, Class::Space);
    lemma_run_end(s, j + 1, j + 1, Class::Space);
    lemma_run_end(s, j + 1, n, Class::Digit);
    assert(s.subrange(j + 1, n) =~= bs);
    assert(dice_bonus(s, j) == (bv, n));
    assert(lex_from(s, n) == Some(Seq::<Tok>::empty()));
    assert(lex_from(s, 0) == Some(seq![Tok::Dice(nv, mv, bv)] + Seq::<Tok>::empty()));
    assert(seq![Tok::Dice(nv, mv, bv)] + Seq::<Tok>::empty() =~= seq![Tok::Dice(nv, mv, bv)]);
}

/// Every total of `2d6` in `[2, 12]` is the sum of two separate draws in
/// `[1, 6]`, so a roll can reach each of them.
pub proof fn lemma_two_d6_reaches(v: int)
    requires
        2 <= v <= 12,
    ensures
        exists|d: Seq<int>| sum_of_draws(v, d, 2, 6, 0),
{
    let a = if v <= 7 {
        1
    } else {
        v - 6
    };
    let d = seq![a, v - a];
    assert(d.drop_last() =~= seq![a]);
    assert(seq![a].drop_last() =~= Seq::<int>::empty());
    assert(sum(Seq::<int>::empty()) == 0);
    assert(sum(seq![a]) == a);
    assert(sum(d) == v);
    assert(sum_of_draws(v, d, 2, 6, 0));
}

} // verus!
