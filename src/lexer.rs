//! Splits an expression into tokens: numbers, dice, names, quoted text,
//! operators and parentheses.

use crate::text::{digit_value, is_digit, is_space, is_space_exec, is_word, lemma_run_end, lemma_run_end_bounds, run_end, scan, slice_of, Class};
use vstd::prelude::*;

verus! {

/// Numbers in the text saturate here: any larger literal is out of reach of
/// an `i32` total and reads as this value.
pub const SATURATED: u32 = 2147483648;

/// A token as a mathematical value.
pub ghost enum Tok {
    Num(int),
    Dice(int, int, int),
    Ident(Seq<char>),
    Text(Seq<char>),
    Plus,
    Minus,
    Star,
    Slash,
    Open,
    Close,
}

/// A token of an expression. `Dice(count, sides, bonus)` is `NdM+B`.
#[derive(Clone, Debug)]
pub enum Token {
    Num(i64),
    Dice(u32, u32, u32),
    Ident(Vec<char>),
    Text(Vec<char>),
    Plus,
    Minus,
    Star,
    Slash,
    Open,
    Close,
}

impl View for Token {
    type V = Tok;

    open spec fn view(&self) -> Tok {
        match self {
            Token::Num(n) => Tok::Num(*n as int),
            Token::Dice(c, s, b) => Tok::Dice(*c as int, *s as int, *b as int),
            Token::Ident(v) => Tok::Ident(v@),
            Token::Text(v) => Tok::Text(v@),
            Token::Plus => Tok::Plus,
            Token::Minus => Tok::Minus,
            Token::Star => Tok::Star,
            Token::Slash => Tok::Slash,
            Token::Open => Tok::Open,
            Token::Close => Tok::Close,
        }
    }
}

pub open spec fn toks_view(v: Seq<Token>) -> Seq<Tok> {
    v.map_values(|t: Token| t@)
}

/// The value of a string of decimal digits.
pub open spec fn digits_val(s: Seq<char>) -> nat
    decreases s.len(),
{
    if s.len() == 0 {
        0
    } else {
        (digits_val(s.drop_last()) * 10 + digit_value(s.last())) as nat
    }
}

pub open spec fn sat(n: int) -> int {
    if n > SATURATED {
        SATURATED as int
    } else {
        n
    }
}

/// What a word (a maximal run of letters, digits and `_`) stands for: all
/// digits is a number, `{digits}d{digits}` is a die (count 1 when omitted),
/// a word that starts with a non-digit is a name, anything else is an error.
pub open spec fn classify(w: Seq<char>) -> Option<Tok> {
    let p = run_end(w, 0, Class::Digit);
    if p == w.len() {
        Some(Tok::Num(sat(digits_val(w) as int)))
    } else if w[p] == 'd' && p + 1 < w.len() && run_end(w, p + 1, Class::Digit) == w.len() {
        let count = if p == 0 {
            1
        } else {
            sat(digits_val(w.take(p)) as int)
        };
        Some(Tok::Dice(count, sat(digits_val(w.subrange(p + 1, w.len() as int)) as int), 0))
    } else if p == 0 {
        Some(Tok::Ident(w))
    } else {
        None
    }
}

/// The bonus of a die that ends at `j`, and where the text goes on: `+` and
/// digits, with spaces around the `+`, or no bonus.
pub open spec fn dice_bonus(s: Seq<char>, j: int) -> (int, int) {
    let k = run_end(s, j, Class::Space);
    if k < s.len() && s[k] == '+' {
        let m = run_end(s, k + 1, Class::Space);
        if m < s.len() && is_digit(s[m]) {
            let e = run_end(s, m, Class::Digit);
            (sat(digits_val(s.subrange(m, e)) as int), e)
        } else {
            (0, j)
        }
    } else {
        (0, j)
    }
}

pub open spec fn prepend(p: Seq<Tok>, r: Option<Seq<Tok>>) -> Option<Seq<Tok>> {
    match r {
        Some(x) => Some(p + x),
        None => None,
    }
}

pub open spec fn op_tok(c: char) -> Option<Tok> {
    if c == '+' {
        Some(Tok::Plus)
    } else if c == '-' {
        Some(Tok::Minus)
    } else if c == '*' {
        Some(Tok::Star)
    } else if c == '/' {
        Some(Tok::Slash)
    } else if c == '(' {
        Some(Tok::Open)
    } else if c == ')' {
        Some(Tok::Close)
    } else {
        None
    }
}

/// The tokens of `s` from position `i` on, or `None` where a character or a
/// word fits no token, or a quote is not closed.
pub open spec fn lex_from(s: Seq<char>, i: int) -> Option<Seq<Tok>>
    decreases s.len() - i,
    via lex_from_decreases
{
    if i < 0 || i >= s.len() {
        Some(Seq::empty())
    } else if is_space(s[i]) {
        lex_from(s, i + 1)
    } else if is_word(s[i]) {
        let j = run_end(s, i, Class::Word);
        match classify(s.subrange(i, j)) {
            None => None,
            Some(Tok::Dice(c, d, _)) => {
                let (b, e) = dice_bonus(s, j);
                prepend(seq![Tok::Dice(c, d, b)], lex_from(s, e))
            },
            Some(t) => prepend(seq![t], lex_from(s, j)),
        }
    } else if s[i] == '"' {
        let j = run_end(s, i + 1, Class::NotQuote);
        if j >= s.len() {
            None
        } else {
            prepend(seq![Tok::Text(s.subrange(i + 1, j))], lex_from(s, j + 1))
        }
    } else {
        match op_tok(s[i]) {
            Some(t) => prepend(seq![t], lex_from(s, i + 1)),
            None => None,
        }
    }
}

#[via_fn]
proof fn lex_from_decreases(s: Seq<char>, i: int) {
    if 0 <= i < s.len() && !is_space(s[i]) {
        if is_word(s[i]) {
            lemma_run_end_bounds(s, i, Class::Word);
            let j = run_end(s, i, Class::Word);
            lemma_dice_bonus(s, j);
        } else if s[i] == '"' {
            lemma_run_end_bounds(s, i + 1, Class::NotQuote);
        }
    }
}

pub proof fn lemma_dice_bonus(s: Seq<char>, j: int)
    requires
        0 <= j <= s.len(),
    ensures
        j <= dice_bonus(s, j).1 <= s.len(),
{
    lemma_run_end_bounds(s, j, Class::Space);
    let k = run_end(s, j, Class::Space);
    if k < s.len() && s[k] == '+' {
        lemma_run_end_bounds(s, k + 1, Class::Space);
        let m = run_end(s, k + 1, Class::Space);
        if m < s.len() {
            lemma_run_end_bounds(s, m, Class::Digit);
        }
    }
}

pub open spec fn lex(s: Seq<char>) -> Option<Seq<Tok>> {
    lex_from(s, 0)
}

/// The saturated value of the digits `s[i..j]`.
fn parse_digits(s: &Vec<char>, i: usize, j: usize) -> (r: u32)
    requires
        i <= j <= s.len(),
        forall|m: int| i <= m < j ==> is_digit(#[trigger] s@[m]),
    ensures
        r as int == sat(digits_val(s@.subrange(i as int, j as int)) as int),
{
    let mut acc: u32 = 0;
    let mut k = i;
    while k < j
        invariant
            i <= k <= j <= s.len(),
            forall|m: int| i <= m < j ==> is_digit(#[trigger] s@[m]),
            acc as int == sat(digits_val(s@.subrange(i as int, k as int)) as int),
        decreases j - k,
    {
        let ghost prev = s@.subrange(i as int, k as int);
        let ghost next = s@.subrange(i as int, k + 1);
        assert(next.drop_last() =~= prev);
        assert(is_digit(s@[k as int]));
        let d = (s[k] as u32) - ('0' as u32);
        assert(digits_val(next) == digits_val(prev) * 10 + d);
        if acc == SATURATED {
            assert(digits_val(next) >= SATURATED) by (nonlinear_arith)
                requires
                    digits_val(next) == digits_val(prev) * 10 + d,
                    digits_val(prev) >= SATURATED,
            ;
        } else {
            let v: u64 = acc as u64 * 10 + d as u64;
            acc = if v > SATURATED as u64 {
                SATURATED
            } else {
                v as u32
            };
        }
        k = k + 1;
    }
    acc
}

fn op_token(c: char) -> (r: Option<Token>)
    ensures
        match r {
            Some(t) => op_tok(c) == Some(t@),
            None => op_tok(c) is None,
        },
{
    if c == '+' {
        Some(Token::Plus)
    } else if c == '-' {
        Some(Token::Minus)
    } else if c == '*' {
        Some(Token::Star)
    } else if c == '/' {
        Some(Token::Slash)
    } else if c == '(' {
        Some(Token::Open)
    } else if c == ')' {
        Some(Token::Close)
    } else {
        None
    }
}

/// Reads the word `s[i..j]`, as `classify` does.
fn classify_word(s: &Vec<char>, i: usize, j: usize) -> (r: Option<Token>)
    requires
        i < j <= s.len(),
        forall|m: int| i <= m < j ==> is_word(#[trigger] s@[m]),
    ensures
        match r {
            Some(t) => classify(s@.subrange(i as int, j as int)) == Some(t@),
            None => classify(s@.subrange(i as int, j as int)) is None,
        },
{
    let ghost w = s@.subrange(i as int, j as int);
    let p = scan(s, i, Class::Digit);
    let p = if p > j { j } else { p };
    proof {
        lemma_run_end_bounds(s@, i as int, Class::Digit);
        lemma_run_end(w, 0, p - i, Class::Digit);
    }
    if p == j {
        assert(w =~= s@.subrange(i as int, p as int));
        let n = parse_digits(s, i, j);
        Some(Token::Num(n as i64))
    } else if s[p] == 'd' && p + 1 < j {
        let q = scan(s, p + 1, Class::Digit);
        let q = if q > j { j } else { q };
        proof {
            lemma_run_end_bounds(s@, p + 1, Class::Digit);
            lemma_run_end(w, p - i + 1, q - i, Class::Digit);
        }
        if q == j {
            let count = if p == i {
                1
            } else {
                assert(w.take(p - i) =~= s@.subrange(i as int, p as int));
                parse_digits(s, i, p)
            };
            assert(w.subrange(p - i + 1, w.len() as int) =~= s@.subrange(p + 1, j as int));
            let sides = parse_digits(s, p + 1, j);
            Some(Token::Dice(count, sides, 0))
        } else if p == i {
            Some(Token::Ident(slice_of(s, i, j)))
        } else {
            None
        }
    } else if p == i {
        Some(Token::Ident(slice_of(s, i, j)))
    } else {
        None
    }
}

/// The bonus of a die whose word ends at `j`, as `dice_bonus` gives it.
fn read_bonus(s: &Vec<char>, j: usize) -> (r: (u32, usize))
    requires
        j <= s.len(),
    ensures
        dice_bonus(s@, j as int) == (r.0 as int, r.1 as int),
        j <= r.1 <= s.len(),
{
    let k = scan(s, j, Class::Space);
    if k < s.len() && s[k] == '+' {
        let m = scan(s, k + 1, Class::Space);
        if m < s.len() && '0' <= s[m] && s[m] <= '9' {
            let e = scan(s, m, Class::Digit);
            proof {
                lemma_run_end_bounds(s@, m as int, Class::Digit);
            }
            (parse_digits(s, m, e), e)
        } else {
            (0, j)
        }
    } else {
        (0, j)
    }
}

proof fn lemma_prepend(out: Seq<Tok>, t: Seq<Tok>, r: Option<Seq<Tok>>)
    ensures
        prepend(out, prepend(t, r)) == prepend(out + t, r),
{
    if let Some(x) = r {
        assert(out + (t + x) =~= (out + t) + x);
    }
}

/// Splits `s` into tokens; `None` exactly where `lex` has none.
pub fn tokenize(s: &Vec<char>) -> (r: Option<Vec<Token>>)
    ensures
        match r {
            Some(v) => lex(s@) == Some(toks_view(v@)),
            None => lex(s@) is None,
        },
{
    let mut out: Vec<Token> = Vec::new();
    let mut i: usize = 0;
    while i < s.len()
        invariant
            i <= s.len(),
            lex(s@) == prepend(toks_view(out@), lex_from(s@, i as int)),
        decreases s.len() - i,
    {
        let ghost before = toks_view(out@);
        let c = s[i];
        if is_space_exec(c) {
            i = i + 1;
        } else if ('a' <= c && c <= 'z') || ('A' <= c && c <= 'Z') || ('0' <= c && c <= '9') || c == '_' {
            let j = scan(s, i, Class::Word);
            proof {
                lemma_run_end_bounds(s@, i as int, Class::Word);
            }
            match classify_word(s, i, j) {
                None => {
                    return None;
                },
                Some(Token::Dice(cnt, sides, _)) => {
                    let (b, e) = read_bonus(s, j);
                    let t = Token::Dice(cnt, sides, b);
                    proof {
                        lemma_prepend(before, seq![t@], lex_from(s@, e as int));
                    }
                    out.push(t);
                    assert(toks_view(out@) =~= before + seq![t@]);
                    i = e;
                },
                Some(t) => {
                    proof {
                        lemma_prepend(before, seq![t@], lex_from(s@, j as int));
                    }
                    out.push(t);
                    assert(toks_view(out@) =~= before + seq![t@]);
                    i = j;
                },
            }
        } else if c == '"' {
            let j = scan(s, i + 1, Class::NotQuote);
            if j >= s.len() {
                return None;
            }
            let t = Token::Text(slice_of(s, i + 1, j));
            proof {
                lemma_prepend(before, seq![t@], lex_from(s@, j + 1));
            }
            out.push(t);
            assert(toks_view(out@) =~= before + seq![t@]);
            i = j + 1;
        } else {
            match op_token(c) {
                None => {
                    return None;
                },
                Some(t) => {
                    proof {
                        lemma_prepend(before, seq![t@], lex_from(s@, i + 1));
                    }
                    out.push(t);
                    assert(toks_view(out@) =~= before + seq![t@]);
                    i = i + 1;
                },
            }
        }
    }
    assert(toks_view(out@) + Seq::<Tok>::empty() =~= toks_view(out@));
    Some(out)
}

} // verus!
