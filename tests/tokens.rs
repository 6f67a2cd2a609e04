use fnlang::ast::{Ident, Primitive, Type};
use fnlang::failure::{Expected, FailureKind, ParseFailure};
use fnlang::lexer::{ident_continue_char, ident_start_char, separator_char, ws_char};
use fnlang::parser::{
    parse_boolean, parse_comment, parse_float, parse_i32, parse_identifier, parse_type,
    parse_type_primitive,
};

fn owned(rest: &str, out: &str) -> (String, String) {
    (rest.to_string(), out.to_string())
}

#[test]
fn test_parse_comment() {
    assert_eq!(parse_comment("// one-line\nrest"), Ok(owned("\nrest", " one-line")));
    assert_eq!(parse_comment("/* multi\nline */ rest"), Ok(owned(" rest", " multi\nline ")));
}

#[test]
fn test_parse_identifier() {
    assert_eq!(parse_identifier("helloWorld42 rest"), Ok(owned(" rest", "helloWorld42")));
    let err = parse_identifier("0helloWorld42 rest").unwrap_err();
    assert_eq!(err.pos, 0);
    assert_eq!(err.kind, FailureKind::Lexical);
    assert_eq!(err.expected, Expected::Identifier);
}

#[test]
fn test_parse_type_primitive() {
    assert_eq!(parse_type_primitive("bool rest"), Ok((" rest".to_string(), Primitive::Bool)));
    assert_eq!(parse_type_primitive("i32 rest"), Ok((" rest".to_string(), Primitive::I32)));
    assert_eq!(parse_type_primitive("f32 rest"), Ok((" rest".to_string(), Primitive::F32)));
}

#[test]
fn test_parse_type() {
    assert_eq!(parse_type("bool rest"), Ok((" rest".to_string(), Type::Primitive(Primitive::Bool))));
    assert_eq!(parse_type("i32 rest"), Ok((" rest".to_string(), Type::Primitive(Primitive::I32))));
    assert_eq!(parse_type("f32 rest"), Ok((" rest".to_string(), Type::Primitive(Primitive::F32))));
}

#[test]
fn test_parse_boolean() {
    assert_eq!(parse_boolean("true"), Ok((String::new(), true)));
    assert_eq!(parse_boolean("false"), Ok((String::new(), false)));
}

#[test]
fn test_parse_i32() {
    assert_eq!(parse_i32("10"), Ok((String::new(), 10)));
    assert_eq!(parse_i32("10 rest"), Ok((" rest".to_string(), 10i32)));
}

#[test]
fn identifier_takes_longest_prefix() {
    assert_eq!(parse_identifier("a_b9 c"), Ok(owned(" c", "a_b9")));
    assert_eq!(parse_identifier("x+y"), Ok(owned("+y", "x")));
    assert_eq!(parse_identifier("abc"), Ok(owned("", "abc")));
}

#[test]
fn identifier_may_start_with_underscore() {
    assert_eq!(parse_identifier("_tmp1 rest"), Ok(owned(" rest", "_tmp1")));
    assert!(Ident::try_new("_tmp1".to_string()).is_some());
}

#[test]
fn ident_constructor_checks_names() {
    assert_eq!(Ident::try_new("abc9".to_string()), Some(Ident("abc9".to_string())));
    assert_eq!(Ident::try_new(String::new()), None);
    assert_eq!(Ident::try_new("9abc".to_string()), None);
    assert_eq!(Ident::try_new("a-b".to_string()), None);
    assert_eq!(Ident::new("ok".to_string()), Ident("ok".to_string()));
}

#[test]
fn integer_sign_exponent_suffix() {
    assert_eq!(parse_i32("-12e2 x"), Ok((" x".to_string(), -1200)));
    assert_eq!(parse_i32("+7E+1"), Ok((String::new(), 70)));
    assert_eq!(parse_i32("5i32;"), Ok((";".to_string(), 5)));
    assert_eq!(parse_i32("0e99"), Ok((String::new(), 0)));
    assert_eq!(parse_i32("000123"), Ok((String::new(), 123)));
    assert_eq!(parse_i32("3e"), Ok(("e".to_string(), 3)));
}

#[test]
fn integer_range_limits() {
    assert_eq!(parse_i32("2147483647"), Ok((String::new(), i32::MAX)));
    assert_eq!(parse_i32("-2147483648"), Ok((String::new(), i32::MIN)));
    let over = ParseFailure { pos: 0, kind: FailureKind::NumericConversion, expected: Expected::I32 };
    assert_eq!(parse_i32("2147483648"), Err(over));
    assert_eq!(parse_i32("-2147483649"), Err(over));
    assert_eq!(parse_i32("3e9"), Err(over));
    assert_eq!(parse_i32("1e10"), Err(over));
    assert_eq!(parse_i32("99999999999i32"), Err(over));
}

#[test]
fn integer_negative_exponent_divides_exactly() {
    assert_eq!(parse_i32("10e-1"), Ok((String::new(), 1)));
    assert_eq!(parse_i32("0e-3"), Ok((String::new(), 0)));
    assert_eq!(parse_i32("-1200e-2;"), Ok((";".to_string(), -12)));
    assert_eq!(parse_i32("+5e-0"), Ok((String::new(), 5)));
    assert_eq!(parse_i32("0e-99999999999999999999"), Ok((String::new(), 0)));
    assert_eq!(parse_i32("10000000000000000000e-10"), Ok((String::new(), 1000000000)));
    assert_eq!(parse_i32("-21474836480e-1"), Ok((String::new(), i32::MIN)));
    let over = ParseFailure { pos: 0, kind: FailureKind::NumericConversion, expected: Expected::I32 };
    assert_eq!(parse_i32("1e-2"), Err(over));
    assert_eq!(parse_i32("15e-1"), Err(over));
    assert_eq!(parse_i32("100e-5"), Err(over));
    assert_eq!(parse_i32("5e-99999999999999999999"), Err(over));
    assert_eq!(parse_i32("21474836480e-1"), Err(over));
}

#[test]
fn integer_needs_a_digit() {
    let err = parse_i32("-x").unwrap_err();
    assert_eq!(err, ParseFailure { pos: 1, kind: FailureKind::Lexical, expected: Expected::Digit });
}

#[test]
fn float_needs_decimal_point() {
    assert_eq!(parse_float("1.5 x"), Ok(owned(" x", "1.5")));
    assert_eq!(parse_float(".5"), Ok(owned("", ".5")));
    assert_eq!(parse_float("-5."), Ok(owned("", "-5.")));
    assert_eq!(parse_float("2.5e-3f32;"), Ok(owned(";", "2.5e-3f32")));
    let err = parse_float("10").unwrap_err();
    assert_eq!(err.kind, FailureKind::Lexical);
    assert_eq!(err.expected, Expected::DecimalPoint);
    assert!(parse_float(".").is_err());
}

#[test]
fn unterminated_block_comment_fails() {
    let err = parse_comment("/* open").unwrap_err();
    assert_eq!(err, ParseFailure { pos: 7, kind: FailureKind::Syntactic, expected: Expected::CommentEnd });
}

#[test]
fn line_comment_may_end_the_input() {
    assert_eq!(parse_comment("// last"), Ok(owned("", " last")));
    assert!(parse_comment("x").is_err());
}

#[test]
fn keywords_need_word_boundary() {
    assert!(parse_type_primitive("boolean").is_err());
    assert!(parse_boolean("trueish").is_err());
}

#[test]
fn primitive_from_keyword() {
    assert_eq!(Primitive::from_keyword("i32"), Some(Primitive::I32));
    assert_eq!(Primitive::from_keyword("u8"), None);
    assert_eq!("bool".parse::<Primitive>(), Ok(Primitive::Bool));
    assert!("str".parse::<Primitive>().is_err());
}

#[test]
fn separator_classes() {
    for c in [' ', '\t', '\n', ',', ';', '(', ')', '=', '-', '>'] {
        assert!(separator_char(c));
    }
    assert!(!separator_char('a'));
    assert!(!separator_char('_'));
    assert!(ws_char('\r'));
    assert!(!ws_char(','));
    assert!(ident_start_char('_') && ident_start_char('Q') && !ident_start_char('7'));
    assert!(ident_continue_char('7') && !ident_continue_char('-'));
}

#[test]
fn ident_accepts_unicode_letters() {
    assert_eq!(Ident::try_new("é".to_string()), Some(Ident("é".to_string())));
    assert_eq!(Ident::try_new("día2".to_string()), Some(Ident("día2".to_string())));
    assert_eq!(Ident::try_new("a b".to_string()), None);
}

#[test]
fn primitive_from_str_is_exact() {
    assert_eq!("i32".parse::<Primitive>(), Ok(Primitive::I32));
    assert_eq!("f32".parse::<Primitive>(), Ok(Primitive::F32));
    assert_eq!("Bool".parse::<Primitive>(), Err("No primitive type 'Bool' found.".to_string()));
    assert_eq!("i32 ".parse::<Primitive>(), Err("No primitive type 'i32 ' found.".to_string()));
}
