//! The math evaluator: parses and evaluates a query string as an arithmetic
//! expression (addition, subtraction, multiplication, division, parentheses,
//! unary minus, decimal literals; whitespace insignificant). Values are exact
//! rationals over `i128`; any parse failure, division by zero or overflow
//! yields `None`, which the dispatcher treats as "not arithmetic" and routes
//! to application matching instead.

use vstd::prelude::*;
use crate::text::{is_space_char, is_space_exec, str_chars};

verus! {

/// Mathematical model of an exact rational value.
pub ghost struct RatV {
    pub num: int,
    pub den: int,
}

/// An exact rational value; the parser only builds values with a positive
/// denominator.
#[derive(Clone, Copy)]
pub struct Rat {
    pub num: i128,
    pub den: i128,
}

impl View for Rat {
    type V = RatV;

    open spec fn view(&self) -> RatV {
        RatV { num: self.num as int, den: self.den as int }
    }
}

pub open spec fn in_i128(x: int) -> bool {
    i128::MIN <= x <= i128::MAX
}

/// Exact rational addition; `None` when an intermediate product, the sum, or
/// the new denominator leaves the `i128` range.
pub open spec fn rat_add(a: RatV, b: RatV) -> Option<RatV> {
    let x = a.num * b.den;
    let y = b.num * a.den;
    let d = a.den * b.den;
    if in_i128(x) && in_i128(y) && in_i128(x + y) && in_i128(d) {
        Option::Some(RatV { num: x + y, den: d })
    } else {
        Option::None
    }
}

/// Exact rational subtraction, with the same overflow conditions as addition.
pub open spec fn rat_sub(a: RatV, b: RatV) -> Option<RatV> {
    let x = a.num * b.den;
    let y = b.num * a.den;
    let d = a.den * b.den;
    if in_i128(x) && in_i128(y) && in_i128(x - y) && in_i128(d) {
        Option::Some(RatV { num: x - y, den: d })
    } else {
        Option::None
    }
}

/// Exact rational multiplication; `None` on overflow.
pub open spec fn rat_mul(a: RatV, b: RatV) -> Option<RatV> {
    let n = a.num * b.num;
    let d = a.den * b.den;
    if in_i128(n) && in_i128(d) {
        Option::Some(RatV { num: n, den: d })
    } else {
        Option::None
    }
}

/// Exact rational division; `None` on a zero divisor or on overflow. The
/// result's denominator keeps the sign of the dividend's.
pub open spec fn rat_div(a: RatV, b: RatV) -> Option<RatV> {
    if b.num == 0 {
        Option::None
    } else {
        let n = a.num * b.den;
        let d = a.den * b.num;
        if in_i128(n) && in_i128(d) {
            if d < 0 {
                if in_i128(-n) && in_i128(-d) {
                    Option::Some(RatV { num: -n, den: -d })
                } else {
                    Option::None
                }
            } else {
                Option::Some(RatV { num: n, den: d })
            }
        } else {
            Option::None
        }
    }
}

/// Exact rational negation; `None` only when the numerator cannot be negated.
pub open spec fn rat_neg(a: RatV) -> Option<RatV> {
    if in_i128(-a.num) {
        Option::Some(RatV { num: -a.num, den: a.den })
    } else {
        Option::None
    }
}

pub open spec fn is_digit(c: char) -> bool {
    '0' <= c && c <= '9'
}

pub open spec fn digit_val(c: char) -> int {
    c as int - 48
}

/// The first position at or after `i` that does not hold whitespace.
pub open spec fn skip_ws(s: Seq<char>, i: int) -> int
    decreases s.len() - i,
{
    if 0 <= i && i < s.len() && is_space_char(s[i]) {
        skip_ws(s, i + 1)
    } else {
        i
    }
}

/// Digits folded into an accumulator; `None` once the value leaves `i128`.
pub open spec fn parse_digits(s: Seq<char>, i: int, acc: int) -> Option<(int, int)>
    decreases s.len() - i,
{
    if 0 <= i && i < s.len() && is_digit(s[i]) {
        let v = acc * 10 + digit_val(s[i]);
        if v > i128::MAX as int {
            Option::None
        } else {
            parse_digits(s, i + 1, v)
        }
    } else {
        Option::Some((acc, i))
    }
}

/// Fractional digits folded into numerator and denominator; `None` once
/// either leaves `i128`.
pub open spec fn parse_frac(s: Seq<char>, i: int, num: int, den: int) -> Option<(int, int, int)>
    decreases s.len() - i,
{
    if 0 <= i && i < s.len() && is_digit(s[i]) {
        let n2 = num * 10 + digit_val(s[i]);
        let d2 = den * 10;
        if n2 > i128::MAX as int || d2 > i128::MAX as int {
            Option::None
        } else {
            parse_frac(s, i + 1, n2, d2)
        }
    } else {
        Option::Some((num, den, i))
    }
}

/// A decimal literal at `i`: digits, optionally followed by `.` and more
/// digits. The value is the exact rational the literal denotes.
pub open spec fn parse_number(s: Seq<char>, i: int) -> Option<(RatV, int)> {
    if 0 <= i && i < s.len() && is_digit(s[i]) {
        match parse_digits(s, i, 0) {
            Option::Some((n, j)) => {
                if j + 1 < s.len() && s[j] == '.' && is_digit(s[j + 1]) {
                    match parse_frac(s, j + 1, n, 1) {
                        Option::Some((n2, d2, k)) => Option::Some((RatV { num: n2, den: d2 }, k)),
                        Option::None => Option::None,
                    }
                } else {
                    Option::Some((RatV { num: n, den: 1 }, j))
                }
            },
            Option::None => Option::None,
        }
    } else {
        Option::None
    }
}

/// A factor: a parenthesized expression, a unary minus, or a decimal literal.
pub open spec fn parse_factor(s: Seq<char>, i: int) -> Option<(RatV, int)>
    decreases s.len() - i, 0int,
{
    let k = skip_ws(s, i);
    if k < i {
        Option::None
    } else if k >= s.len() {
        Option::None
    } else if s[k] == '(' {
        match parse_expr(s, k + 1) {
            Option::Some((v, j)) => {
                let m = skip_ws(s, j);
                if 0 <= m && m < s.len() && s[m] == ')' {
                    Option::Some((v, m + 1))
                } else {
                    Option::None
                }
            },
            Option::None => Option::None,
        }
    } else if s[k] == '-' {
        match parse_factor(s, k + 1) {
            Option::Some((v, j)) => match rat_neg(v) {
                Option::Some(w) => Option::Some((w, j)),
                Option::None => Option::None,
            },
            Option::None => Option::None,
        }
    } else {
        parse_number(s, k)
    }
}

/// The remaining `*` and `/` factors of a term, folded left into `acc`.
pub open spec fn parse_term_rest(s: Seq<char>, i: int, acc: RatV) -> Option<(RatV, int)>
    decreases s.len() - i, 0int,
{
    let k = skip_ws(s, i);
    if k < i {
        Option::None
    } else if k < s.len() && (s[k] == '*' || s[k] == '/') {
        match parse_factor(s, k + 1) {
            Option::Some((v, j)) => {
                if j <= i || j > s.len() {
                    Option::None
                } else {
                    let comb = if s[k] == '*' {
                        rat_mul(acc, v)
                    } else {
                        rat_div(acc, v)
                    };
                    match comb {
                        Option::Some(w) => parse_term_rest(s, j, w),
                        Option::None => Option::None,
                    }
                }
            },
            Option::None => Option::None,
        }
    } else {
        Option::Some((acc, i))
    }
}

/// A term: factors combined left to right by `*` and `/`.
pub open spec fn parse_term(s: Seq<char>, i: int) -> Option<(RatV, int)>
    decreases s.len() - i, 1int,
{
    match parse_factor(s, i) {
        Option::Some((v, j)) => {
            if j < i || j > s.len() {
                Option::None
            } else {
                parse_term_rest(s, j, v)
            }
        },
        Option::None => Option::None,
    }
}

/// The remaining `+` and `-` terms of an expression, folded left into `acc`.
pub open spec fn parse_expr_rest(s: Seq<char>, i: int, acc: RatV) -> Option<(RatV, int)>
    decreases s.len() - i, 2int,
{
    let k = skip_ws(s, i);
    if k < i {
        Option::None
    } else if k < s.len() && (s[k] == '+' || s[k] == '-') {
        match parse_term(s, k + 1) {
            Option::Some((v, j)) => {
                if j <= i || j > s.len() {
                    Option::None
                } else {
                    let comb = if s[k] == '+' {
                        rat_add(acc, v)
                    } else {
                        rat_sub(acc, v)
                    };
                    match comb {
                        Option::Some(w) => parse_expr_rest(s, j, w),
                        Option::None => Option::None,
                    }
                }
            },
            Option::None => Option::None,
        }
    } else {
        Option::Some((acc, i))
    }
}

/// An expression: terms combined left to right by `+` and `-`.
pub open spec fn parse_expr(s: Seq<char>, i: int) -> Option<(RatV, int)>
    decreases s.len() - i, 3int,
{
    match parse_term(s, i) {
        Option::Some((v, j)) => {
            if j < i || j > s.len() {
                Option::None
            } else {
                parse_expr_rest(s, j, v)
            }
        },
        Option::None => Option::None,
    }
}

/// The value of `s` as an arithmetic expression: `Some` exactly when the
/// whole string (up to whitespace) parses as one expression and no step
/// divides by zero or overflows.
pub open spec fn spec_evaluate(s: Seq<char>) -> Option<RatV> {
    match parse_expr(s, 0) {
        Option::Some((v, j)) => {
            if skip_ws(s, j) == s.len() {
                Option::Some(v)
            } else {
                Option::None
            }
        },
        Option::None => Option::None,
    }
}

pub open spec fn opt_rat_view(r: Option<Rat>) -> Option<RatV> {
    match r {
        Option::Some(v) => Option::Some(v@),
        Option::None => Option::None,
    }
}

pub open spec fn opt_pair_view(r: Option<(Rat, usize)>) -> Option<(RatV, int)> {
    match r {
        Option::Some((v, j)) => Option::Some((v@, j as int)),
        Option::None => Option::None,
    }
}

fn add_rat(a: Rat, b: Rat) -> (r: Option<Rat>)
    ensures
        opt_rat_view(r) == rat_add(a@, b@),
        a.den > 0 && b.den > 0 ==> (r matches Some(w) ==> w.den > 0),
{
    let x = match a.num.checked_mul(b.den) {
        Option::Some(v) => v,
        Option::None => { return Option::None; },
    };
    let y = match b.num.checked_mul(a.den) {
        Option::Some(v) => v,
        Option::None => { return Option::None; },
    };
    let n = match x.checked_add(y) {
        Option::Some(v) => v,
        Option::None => { return Option::None; },
    };
    let d = match a.den.checked_mul(b.den) {
        Option::Some(v) => v,
        Option::None => { return Option::None; },
    };
    proof {
        if a.den > 0 && b.den > 0 {
            assert(d > 0) by (nonlinear_arith)
                requires
                    a.den > 0,
                    b.den > 0,
                    d == a.den * b.den,
            ;
        }
    }
    Option::Some(Rat { num: n, den: d })
}

fn sub_rat(a: Rat, b: Rat) -> (r: Option<Rat>)
    ensures
        opt_rat_view(r) == rat_sub(a@, b@),
        a.den > 0 && b.den > 0 ==> (r matches Some(w) ==> w.den > 0),
{
    let x = match a.num.checked_mul(b.den) {
        Option::Some(v) => v,
        Option::None => { return Option::None; },
    };
    let y = match b.num.checked_mul(a.den) {
        Option::Some(v) => v,
        Option::None => { return Option::None; },
    };
    let n = match x.checked_sub(y) {
        Option::Some(v) => v,
        Option::None => { return Option::None; },
    };
    let d = match a.den.checked_mul(b.den) {
        Option::Some(v) => v,
        Option::None => { return Option::None; },
    };
    proof {
        if a.den > 0 && b.den > 0 {
            assert(d > 0) by (nonlinear_arith)
                requires
                    a.den > 0,
                    b.den > 0,
                    d == a.den * b.den,
            ;
        }
    }
    Option::Some(Rat { num: n, den: d })
}

fn mul_rat(a: Rat, b: Rat) -> (r: Option<Rat>)
    ensures
        opt_rat_view(r) == rat_mul(a@, b@),
        a.den > 0 && b.den > 0 ==> (r matches Some(w) ==> w.den > 0),
{
    let n = match a.num.checked_mul(b.num) {
        Option::Some(v) => v,
        Option::None => { return Option::None; },
    };
    let d = match a.den.checked_mul(b.den) {
        Option::Some(v) => v,
        Option::None => { return Option::None; },
    };
    proof {
        if a.den > 0 && b.den > 0 {
            assert(d > 0) by (nonlinear_arith)
                requires
                    a.den > 0,
                    b.den > 0,
                    d == a.den * b.den,
            ;
        }
    }
    Option::Some(Rat { num: n, den: d })
}

fn div_rat(a: Rat, b: Rat) -> (r: Option<Rat>)
    ensures
        opt_rat_view(r) == rat_div(a@, b@),
        a.den > 0 && b.den > 0 ==> (r matches Some(w) ==> w.den > 0),
{
    if b.num == 0 {
        return Option::None;
    }
    let n = match a.num.checked_mul(b.den) {
        Option::Some(v) => v,
        Option::None => { return Option::None; },
    };
    let d = match a.den.checked_mul(b.num) {
        Option::Some(v) => v,
        Option::None => { return Option::None; },
    };
    if d < 0 {
        let n2 = match (0 as i128).checked_sub(n) {
            Option::Some(v) => v,
            Option::None => { return Option::None; },
        };
        let d2 = match (0 as i128).checked_sub(d) {
            Option::Some(v) => v,
            Option::None => { return Option::None; },
        };
        Option::Some(Rat { num: n2, den: d2 })
    } else {
        proof {
            if a.den > 0 {
                assert((b.num > 0 ==> d > 0) && (b.num < 0 ==> d < 0)) by (nonlinear_arith)
                    requires
                        d == a.den * b.num,
                        a.den > 0,
                ;
            }
        }
        Option::Some(Rat { num: n, den: d })
    }
}

fn neg_rat(a: Rat) -> (r: Option<Rat>)
    ensures
        opt_rat_view(r) == rat_neg(a@),
        a.den > 0 ==> (r matches Some(w) ==> w.den > 0),
{
    match (0 as i128).checked_sub(a.num) {
        Option::Some(v) => Option::Some(Rat { num: v, den: a.den }),
        Option::None => Option::None,
    }
}

fn skip_ws_exec(s: &Vec<char>, i: usize) -> (k: usize)
    requires
        i <= s@.len(),
    ensures
        k as int == skip_ws(s@, i as int),
        i <= k <= s@.len(),
{
    let mut k = i;
    while k < s.len() && is_space_exec(s[k])
        invariant
            i <= k <= s@.len(),
            skip_ws(s@, i as int) == skip_ws(s@, k as int),
        decreases s@.len() - k,
    {
        k = k + 1;
    }
    k
}

fn parse_digits_exec(s: &Vec<char>, i: usize, acc: i128) -> (r: Option<(i128, usize)>)
    requires
        i <= s@.len(),
        acc >= 0,
    ensures
        (match r {
            Option::Some((v, j)) => parse_digits(s@, i as int, acc as int) == Option::Some(
                (v as int, j as int),
            ) && i <= j <= s@.len() && v >= 0,
            Option::None => parse_digits(s@, i as int, acc as int) is None,
        }),
    decreases s@.len() - i,
{
    if i < s.len() && s[i] >= '0' && s[i] <= '9' {
        let d: i128 = ((s[i] as u32) - 48) as i128;
        let v = match acc.checked_mul(10) {
            Option::Some(v) => match v.checked_add(d) {
                Option::Some(w) => w,
                Option::None => { return Option::None; },
            },
            Option::None => { return Option::None; },
        };
        parse_digits_exec(s, i + 1, v)
    } else {
        Option::Some((acc, i))
    }
}

fn parse_frac_exec(s: &Vec<char>, i: usize, num: i128, den: i128) -> (r: Option<(i128, i128, usize)>)
    requires
        i <= s@.len(),
        num >= 0,
        den >= 1,
    ensures
        (match r {
            Option::Some((n2, d2, j)) => parse_frac(s@, i as int, num as int, den as int)
                == Option::Some((n2 as int, d2 as int, j as int)) && i <= j <= s@.len() && n2 >= 0
                && d2 >= 1,
            Option::None => parse_frac(s@, i as int, num as int, den as int) is None,
        }),
    decreases s@.len() - i,
{
    if i < s.len() && s[i] >= '0' && s[i] <= '9' {
        let d: i128 = ((s[i] as u32) - 48) as i128;
        let n2 = match num.checked_mul(10) {
            Option::Some(v) => match v.checked_add(d) {
                Option::Some(w) => w,
                Option::None => { return Option::None; },
            },
            Option::None => { return Option::None; },
        };
        let d2 = match den.checked_mul(10) {
            Option::Some(v) => v,
            Option::None => { return Option::None; },
        };
        parse_frac_exec(s, i + 1, n2, d2)
    } else {
        Option::Some((num, den, i))
    }
}

fn parse_number_exec(s: &Vec<char>, i: usize) -> (r: Option<(Rat, usize)>)
    requires
        i <= s@.len(),
    ensures
        opt_pair_view(r) == parse_number(s@, i as int),
        r matches Some(p) ==> i <= p.1 <= s@.len() && p.0.den > 0,
{
    if i < s.len() && s[i] >= '0' && s[i] <= '9' {
        match parse_digits_exec(s, i, 0) {
            Option::Some((n, j)) => {
                if j < s.len() && j + 1 < s.len() && s[j] == '.' && s[j + 1] >= '0' && s[j + 1]
                    <= '9' {
                    match parse_frac_exec(s, j + 1, n, 1) {
                        Option::Some((n2, d2, k)) => Option::Some((Rat { num: n2, den: d2 }, k)),
                        Option::None => Option::None,
                    }
                } else {
                    Option::Some((Rat { num: n, den: 1 }, j))
                }
            },
            Option::None => Option::None,
        }
    } else {
        Option::None
    }
}

fn parse_factor_exec(s: &Vec<char>, i: usize) -> (r: Option<(Rat, usize)>)
    requires
        i <= s@.len(),
    ensures
        opt_pair_view(r) == parse_factor(s@, i as int),
        r matches Some(p) ==> i <= p.1 <= s@.len() && p.0.den > 0,
    decreases s@.len() - i, 0int,
{
    let k = skip_ws_exec(s, i);
    if k >= s.len() {
        Option::None
    } else if s[k] == '(' {
        match parse_expr_exec(s, k + 1) {
            Option::Some((v, j)) => {
                let m = skip_ws_exec(s, j);
                if m < s.len() && s[m] == ')' {
                    Option::Some((v, m + 1))
                } else {
                    Option::None
                }
            },
            Option::None => Option::None,
        }
    } else if s[k] == '-' {
        match parse_factor_exec(s, k + 1) {
            Option::Some((v, j)) => match neg_rat(v) {
                Option::Some(w) => Option::Some((w, j)),
                Option::None => Option::None,
            },
            Option::None => Option::None,
        }
    } else {
        parse_number_exec(s, k)
    }
}

fn parse_term_rest_exec(s: &Vec<char>, i: usize, acc: Rat) -> (r: Option<(Rat, usize)>)
    requires
        i <= s@.len(),
        acc.den > 0,
    ensures
        opt_pair_view(r) == parse_term_rest(s@, i as int, acc@),
        r matches Some(p) ==> i <= p.1 <= s@.len() && p.0.den > 0,
    decreases s@.len() - i, 0int,
{
    let k = skip_ws_exec(s, i);
    if k < s.len() && (s[k] == '*' || s[k] == '/') {
        match parse_factor_exec(s, k + 1) {
            Option::Some((v, j)) => {
                let comb = if s[k] == '*' {
                    mul_rat(acc, v)
                } else {
                    div_rat(acc, v)
                };
                match comb {
                    Option::Some(w) => parse_term_rest_exec(s, j, w),
                    Option::None => Option::None,
                }
            },
            Option::None => Option::None,
        }
    } else {
        Option::Some((acc, i))
    }
}

fn parse_term_exec(s: &Vec<char>, i: usize) -> (r: Option<(Rat, usize)>)
    requires
        i <= s@.len(),
    ensures
        opt_pair_view(r) == parse_term(s@, i as int),
        r matches Some(p) ==> i <= p.1 <= s@.len() && p.0.den > 0,
    decreases s@.len() - i, 1int,
{
    match parse_factor_exec(s, i) {
        Option::Some((v, j)) => parse_term_rest_exec(s, j, v),
        Option::None => Option::None,
    }
}

fn parse_expr_rest_exec(s: &Vec<char>, i: usize, acc: Rat) -> (r: Option<(Rat, usize)>)
    requires
        i <= s@.len(),
        acc.den > 0,
    ensures
        opt_pair_view(r) == parse_expr_rest(s@, i as int, acc@),
        r matches Some(p) ==> i <= p.1 <= s@.len() && p.0.den > 0,
    decreases s@.len() - i, 2int,
{
    let k = skip_ws_exec(s, i);
    if k < s.len() && (s[k] == '+' || s[k] == '-') {
        match parse_term_exec(s, k + 1) {
            Option::Some((v, j)) => {
                let comb = if s[k] == '+' {
                    add_rat(acc, v)
                } else {
                    sub_rat(acc, v)
                };
                match comb {
                    Option::Some(w) => parse_expr_rest_exec(s, j, w),
                    Option::None => Option::None,
                }
            },
            Option::None => Option::None,
        }
    } else {
        Option::Some((acc, i))
    }
}

fn parse_expr_exec(s: &Vec<char>, i: usize) -> (r: Option<(Rat, usize)>)
    requires
        i <= s@.len(),
    ensures
        opt_pair_view(r) == parse_expr(s@, i as int),
        r matches Some(p) ==> i <= p.1 <= s@.len() && p.0.den > 0,
    decreases s@.len() - i, 3int,
{
    match parse_term_exec(s, i) {
        Option::Some((v, j)) => parse_expr_rest_exec(s, j, v),
        Option::None => Option::None,
    }
}

/// Evaluates `text` as an arithmetic expression. `Some` exactly on the
/// strings that parse as a whole expression without division by zero or
/// overflow; everything else is `None`, so the caller can fall through to
/// application matching.
pub fn evaluate(text: &str) -> (r: Option<Rat>)
    ensures
        opt_rat_view(r) == spec_evaluate(text@),
        r matches Some(v) ==> v.den > 0,
{
    let chars = str_chars(text);
    match parse_expr_exec(&chars, 0) {
        Option::Some((v, j)) => {
            let k = skip_ws_exec(&chars, j);
            if k == chars.len() {
                Option::Some(v)
            } else {
                Option::None
            }
        },
        Option::None => Option::None,
    }
}

} // verus!
