use seekr::math::{evaluate, Rat};

fn value(r: Option<Rat>) -> f64 {
    let v = r.expect("expected an arithmetic value");
    (v.num as f64) / (v.den as f64)
}

#[test]
fn evaluates_plain_sums() {
    assert_eq!(value(evaluate("2+2")), 4.0);
    assert_eq!(value(evaluate("10-4-3")), 3.0);
}

#[test]
fn respects_precedence_and_parentheses() {
    assert_eq!(value(evaluate("2+3*4")), 14.0);
    assert_eq!(value(evaluate("2*(3+4)")), 14.0);
    assert_eq!(value(evaluate("(1+2)*(3+4)")), 21.0);
}

#[test]
fn division_is_exact() {
    assert_eq!(value(evaluate("1/2")), 0.5);
    assert_eq!(value(evaluate("10/4")), 2.5);
    assert_eq!(value(evaluate("1/3*3")), 1.0);
}

#[test]
fn unary_minus_and_decimals() {
    assert_eq!(value(evaluate("-3+5")), 2.0);
    assert_eq!(value(evaluate("--4")), 4.0);
    assert_eq!(value(evaluate("1.5*2")), 3.0);
    assert_eq!(value(evaluate("0.25+0.75")), 1.0);
}

#[test]
fn whitespace_is_insignificant() {
    assert_eq!(value(evaluate("  2 +  2 ")), 4.0);
    assert_eq!(value(evaluate(" ( 1 + 2 ) * 3 ")), 9.0);
}

#[test]
fn a_lone_number_is_arithmetic() {
    assert_eq!(value(evaluate("7")), 7.0);
    assert_eq!(value(evaluate(" 7 ")), 7.0);
}

#[test]
fn division_by_zero_fails() {
    assert!(evaluate("1/0").is_none());
    assert!(evaluate("5/(2-2)").is_none());
}

#[test]
fn non_arithmetic_text_fails() {
    assert!(evaluate("firefox").is_none());
    assert!(evaluate("").is_none());
    assert!(evaluate("2+").is_none());
    assert!(evaluate("2 3").is_none());
    assert!(evaluate("(1+2").is_none());
    assert!(evaluate("2.").is_none());
    assert!(evaluate(".5").is_none());
}

#[test]
fn overflow_fails_instead_of_wrapping() {
    let big = "999999999999999999999999999999999999*999999999999999999999999999999999999";
    assert!(evaluate(big).is_none());
}
