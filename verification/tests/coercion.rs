use path_extract::scalar::{coerce_segment, parse_int, Scalar};

#[test]
fn integer_rule_first() {
    assert_eq!(coerce_segment("42"), Scalar::Integer(42));
    assert_eq!(coerce_segment("-7"), Scalar::Integer(-7));
    assert_eq!(coerce_segment("007"), Scalar::Integer(7));
    assert_eq!(coerce_segment("0"), Scalar::Integer(0));
    assert_eq!(coerce_segment("-0"), Scalar::Integer(0));
}

#[test]
fn integer_rule_accepts_minus_only() {
    // the rule table admits a leading '-' and nothing else around the digits
    assert_eq!(coerce_segment("+42"), Scalar::Text(String::from("+42")));
    assert_eq!(coerce_segment("-"), Scalar::Text(String::from("-")));
    assert_eq!(coerce_segment(" 42"), Scalar::Text(String::from(" 42")));
}

#[test]
fn integer_rule_bounds() {
    assert_eq!(
        coerce_segment("9223372036854775807"),
        Scalar::Integer(9223372036854775807)
    );
    assert_eq!(
        coerce_segment("-9223372036854775808"),
        Scalar::Integer(-9223372036854775808)
    );
    // one past either end falls through to text
    assert_eq!(
        coerce_segment("9223372036854775808"),
        Scalar::Text(String::from("9223372036854775808"))
    );
    assert_eq!(
        coerce_segment("-9223372036854775809"),
        Scalar::Text(String::from("-9223372036854775809"))
    );
}

#[test]
fn float_rule_needs_a_dot() {
    let v = coerce_segment("3.14");
    assert_eq!(v, Scalar::Float(String::from("3.14")));
    match v {
        Scalar::Float(text) => assert_eq!(text.parse::<f64>().unwrap(), 3.14),
        _ => panic!("expected a decimal number"),
    }
    // a dot-free exponent form is not asked of the decimal-number rule
    assert_eq!(coerce_segment("1e3"), Scalar::Text(String::from("1e3")));
}

#[test]
fn float_rule_forms() {
    assert_eq!(coerce_segment(".5"), Scalar::Float(String::from(".5")));
    assert_eq!(coerce_segment("5."), Scalar::Float(String::from("5.")));
    assert_eq!(coerce_segment("+3.5"), Scalar::Float(String::from("+3.5")));
    assert_eq!(coerce_segment("-2.5e-3"), Scalar::Float(String::from("-2.5e-3")));
    assert_eq!(coerce_segment("1.2E+10"), Scalar::Float(String::from("1.2E+10")));
}

#[test]
fn dotted_text_that_is_no_number_stays_text() {
    assert_eq!(coerce_segment("3.14.1"), Scalar::Text(String::from("3.14.1")));
    assert_eq!(coerce_segment("a.b"), Scalar::Text(String::from("a.b")));
    assert_eq!(coerce_segment("."), Scalar::Text(String::from(".")));
    assert_eq!(coerce_segment("1.2e"), Scalar::Text(String::from("1.2e")));
    assert_eq!(coerce_segment("1.2e+"), Scalar::Text(String::from("1.2e+")));
}

#[test]
fn boolean_rule() {
    assert_eq!(coerce_segment("true"), Scalar::Boolean(true));
    assert_eq!(coerce_segment("false"), Scalar::Boolean(false));
    assert_eq!(coerce_segment("True"), Scalar::Text(String::from("True")));
}

#[test]
fn text_is_the_fallback() {
    assert_eq!(coerce_segment("abc"), Scalar::Text(String::from("abc")));
    assert_eq!(coerce_segment(""), Scalar::Text(String::from("")));
    assert_eq!(coerce_segment("café"), Scalar::Text(String::from("café")));
}

#[test]
fn parse_int_values() {
    assert_eq!(parse_int("123"), Some(123));
    assert_eq!(parse_int("-123"), Some(-123));
    assert_eq!(parse_int("12a"), None);
    assert_eq!(parse_int(""), None);
    assert_eq!(parse_int("99999999999999999999999999"), None);
}
