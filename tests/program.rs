use fnlang::ast::{Expr, FnCall, FnDecl, Ident, Item, Literal, Primitive, Type, Variable};
use fnlang::failure::{Expected, FailureKind, ParseFailure};
use fnlang::parser::{parse, parse_expr};

fn ident(s: &str) -> Ident {
    Ident(s.to_string())
}

fn decl(item: &Item) -> &FnDecl {
    match item {
        Item::FnDecl(d) => d,
    }
}

#[test]
fn single_declaration_with_variable_body() {
    let root = parse("fn id(x: i32) -> i32 = x;").unwrap();
    assert_eq!(root.items.len(), 1);
    let d = decl(&root.items[0]);
    assert_eq!(d.ident, ident("id"));
    assert_eq!(d.args, vec![Variable { ident: ident("x"), ty: Type::Primitive(Primitive::I32) }]);
    assert_eq!(d.return_ty, Type::Primitive(Primitive::I32));
    assert_eq!(d.body, Expr::Variable(ident("x")));
}

#[test]
fn declaration_with_call_body() {
    let root = parse("fn add(a: i32, b: i32) -> i32 = add(a: a, b: b);").unwrap();
    assert_eq!(root.items.len(), 1);
    let d = decl(&root.items[0]);
    assert_eq!(d.args.len(), 2);
    assert_eq!(
        d.body,
        Expr::FnCall(FnCall { ident: ident("add"), args: vec![(ident("a"), ident("a")), (ident("b"), ident("b"))] })
    );
}

#[test]
fn missing_close_paren_fails_at_arrow() {
    let err = parse("fn broken(x: i32 -> i32 = x;").unwrap_err();
    assert_eq!(err, ParseFailure { pos: 17, kind: FailureKind::Syntactic, expected: Expected::Char(')') });
}

#[test]
fn trailing_garbage_fails() {
    let err = parse("fn f() -> bool = true; ###").unwrap_err();
    assert_eq!(err, ParseFailure { pos: 23, kind: FailureKind::TrailingInput, expected: Expected::Declaration });
}

#[test]
fn overflowing_literal_is_numeric_failure() {
    let err = parse_expr("99999999999i32").unwrap_err();
    assert_eq!(err.kind, FailureKind::NumericConversion);
    let err = parse("fn f() -> i32 = 99999999999i32;").unwrap_err();
    assert_eq!(err.kind, FailureKind::NumericConversion);
    assert_eq!(err.pos, 16);
}

#[test]
fn declarations_counted_in_order() {
    let text = "// header\nfn a() -> bool = true;\n/* between */ fn b(x: f32) -> f32 = 1.5;\n\tfn c(p: bool) -> i32 = -3e2; // end";
    let root = parse(text).unwrap();
    assert_eq!(root.items.len(), 3);
    assert_eq!(decl(&root.items[0]).ident, ident("a"));
    assert_eq!(decl(&root.items[1]).ident, ident("b"));
    assert_eq!(decl(&root.items[2]).ident, ident("c"));
    assert_eq!(decl(&root.items[1]).body, Expr::Literal(Literal::Float("1.5".to_string())));
    assert_eq!(decl(&root.items[2]).body, Expr::Literal(Literal::Integer("-3e2".to_string())));
    assert_eq!(decl(&root.items[0]).body, Expr::Literal(Literal::Boolean(true)));
}

#[test]
fn empty_and_blank_inputs_have_no_items() {
    assert_eq!(parse("").unwrap().items.len(), 0);
    assert_eq!(parse("  \n // only a comment\n /* and another */ ").unwrap().items.len(), 0);
}

#[test]
fn removing_a_comment_keeps_the_tree() {
    let with = parse("fn /* name */ f(/* no args */) -> bool /* r */ = // line\n true;").unwrap();
    let without = parse("fn  f() -> bool  = \n true;").unwrap();
    assert_eq!(with, without);
}

#[test]
fn unterminated_comment_fails_the_parse() {
    let err = parse("fn f() -> bool = true; /* open").unwrap_err();
    assert_eq!(err, ParseFailure { pos: 30, kind: FailureKind::Syntactic, expected: Expected::CommentEnd });
}

#[test]
fn missing_expression_is_lexical_failure() {
    let err = parse("fn f() -> bool = ;").unwrap_err();
    assert_eq!(err, ParseFailure { pos: 17, kind: FailureKind::Lexical, expected: Expected::Expression });
}

#[test]
fn missing_semicolon_and_separator() {
    let err = parse("fn f() -> bool = true").unwrap_err();
    assert_eq!(err, ParseFailure { pos: 21, kind: FailureKind::Syntactic, expected: Expected::Char(';') });
    let err = parse("fn(x: i32) -> i32 = x;").unwrap_err();
    assert_eq!(err, ParseFailure { pos: 2, kind: FailureKind::Syntactic, expected: Expected::Separator });
}

#[test]
fn unknown_type_is_syntactic_failure() {
    let err = parse("fn f(x: str) -> i32 = x;").unwrap_err();
    assert_eq!(err, ParseFailure { pos: 8, kind: FailureKind::Syntactic, expected: Expected::PrimitiveType });
}

#[test]
fn empty_call_and_integer_body() {
    let root = parse("fn g() -> i32 = g();fn h() -> i32 = 42;").unwrap();
    assert_eq!(decl(&root.items[0]).body, Expr::FnCall(FnCall { ident: ident("g"), args: vec![] }));
    assert_eq!(decl(&root.items[1]).body, Expr::Literal(Literal::Integer("42".to_string())));
}

#[test]
fn names_are_read_whole() {
    let root = parse("fn fnord9() -> bool = trueish;").unwrap();
    let d = decl(&root.items[0]);
    assert_eq!(d.ident, ident("fnord9"));
    assert_eq!(d.body, Expr::Variable(ident("trueish")));
}

#[test]
fn negative_exponent_literal_in_declaration() {
    let root = parse("fn f() -> i32 = 10e-1;").unwrap();
    assert_eq!(decl(&root.items[0]).body, Expr::Literal(Literal::Integer("10e-1".to_string())));
}

#[test]
fn expression_failure_is_the_deepest() {
    let err = parse("fn f() -> i32 = -;").unwrap_err();
    assert_eq!(err, ParseFailure { pos: 17, kind: FailureKind::Lexical, expected: Expected::Digit });
    let err = parse("fn f() -> f32 = -.;").unwrap_err();
    assert_eq!(err, ParseFailure { pos: 18, kind: FailureKind::Lexical, expected: Expected::Digit });
}
