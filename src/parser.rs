use vstd::prelude::*;
use crate::ast::{
    arg_model, param_model, text_of, DeclModel, Expr, ExprModel, FnCall, FnDecl, Ident,
    Item, Literal, Primitive, Root, Type, Variable, is_ident_name, lemma_scanned_ident_legal,
};
use crate::failure::{Expected, FailureKind, ParseFailure, fail, make_fail, pos_result};
use crate::lexer::{
    char_at, chars_of, has_char_at, ident_end, keyword_at, kw_bool, kw_bool_chars, kw_false, kw_float,
    kw_float_chars, kw_fn, kw_fn_chars, kw_int, kw_int_chars, kw_true, lemma_ident_end,
    lemma_trivia_bounds, lift, match_keyword, scan_boolean, scan_comment, scan_identifier,
    skip_trivia, spec_boolean, spec_comment, spec_identifier, trivia, TriviaMode,
};
use crate::literal::{
    float_span, int_span, lemma_float_span_bounds, lemma_int_span_bounds, scan_float_span, scan_int,
    scan_int_span, spec_int,
};

verus! {

/// A rule result with its value read through `f` and its end as a mathematical position.
pub open spec fn lift_with<T, M>(r: Result<(T, usize), ParseFailure>, f: spec_fn(T) -> M) -> Result<
    (M, int),
    ParseFailure,
> {
    match r {
        Ok((v, p)) => Ok((f(v), p as int)),
        Err(e) => Err(e),
    }
}

// ---------------------------------------------------------------- tokens

/// Whitespace and comments, then the character `c`; the result is the end of `c`.
pub open spec fn tok_char(s: Seq<char>, pos: int, c: char) -> Result<int, ParseFailure> {
    match trivia(s, pos) {
        Err(f) => Err(f),
        Ok(t) => if char_at(s, t, c) {
            Ok(t + 1)
        } else {
            Err(fail(t, FailureKind::Syntactic, Expected::Char(c)))
        },
    }
}

/// Whitespace and comments, then an identifier; the result is its span.
pub open spec fn tok_ident(s: Seq<char>, pos: int) -> Result<(int, int), ParseFailure> {
    match trivia(s, pos) {
        Err(f) => Err(f),
        Ok(t) => match spec_identifier(s, t) {
            Err(f) => Err(f),
            Ok(e) => Ok((t, e)),
        },
    }
}

/// Whitespace and comments, then `->`.
pub open spec fn tok_arrow(s: Seq<char>, pos: int) -> Result<int, ParseFailure> {
    match trivia(s, pos) {
        Err(f) => Err(f),
        Ok(t) => if char_at(s, t, '-') && char_at(s, t + 1, '>') {
            Ok(t + 2)
        } else {
            Err(fail(t, FailureKind::Syntactic, Expected::Arrow))
        },
    }
}

pub fn parse_char(s: &Vec<char>, pos: usize, c: char) -> (r: Result<usize, ParseFailure>)
    requires
        pos <= s.len(),
    ensures
        pos_result(r) == tok_char(s@, pos as int, c),
        r is Ok ==> pos < r->Ok_0 <= s.len(),
{
    let t = match skip_trivia(s, pos) {
        Err(f) => return Err(f),
        Ok(t) => t,
    };
    if has_char_at(s, t, c) {
        Ok(t + 1)
    } else {
        Err(make_fail(t, FailureKind::Syntactic, Expected::Char(c)))
    }
}

pub fn parse_ident_token(s: &Vec<char>, pos: usize) -> (r: Result<(usize, usize), ParseFailure>)
    requires
        pos <= s.len(),
    ensures
        match (r, tok_ident(s@, pos as int)) {
            (Ok((a, e)), Ok((a2, e2))) => a == a2 && e == e2,
            (Err(f), Err(f2)) => f == f2,
            _ => false,
        },
        r is Ok ==> pos <= r->Ok_0.0 < r->Ok_0.1 <= s.len(),
        r is Ok ==> is_ident_name(s@.subrange(r->Ok_0.0 as int, r->Ok_0.1 as int)),
{
    let t = match skip_trivia(s, pos) {
        Err(f) => return Err(f),
        Ok(t) => t,
    };
    match scan_identifier(s, t) {
        Err(f) => Err(f),
        Ok(e) => {
            proof {
                lemma_scanned_ident_legal(s@, t as int);
            }
            Ok((t, e))
        },
    }
}

pub fn parse_arrow(s: &Vec<char>, pos: usize) -> (r: Result<usize, ParseFailure>)
    requires
        pos <= s.len(),
    ensures
        pos_result(r) == tok_arrow(s@, pos as int),
        r is Ok ==> pos < r->Ok_0 <= s.len(),
{
    let t = match skip_trivia(s, pos) {
        Err(f) => return Err(f),
        Ok(t) => t,
    };
    if has_char_at(s, t, '-') && has_char_at(s, t + 1, '>') {
        Ok(t + 2)
    } else {
        Err(make_fail(t, FailureKind::Syntactic, Expected::Arrow))
    }
}

/// The identifier spanning `from..to`.
fn ident_of(s: &Vec<char>, from: usize, to: usize) -> (r: Ident)
    requires
        from <= to <= s.len(),
        is_ident_name(s@.subrange(from as int, to as int)),
    ensures
        r@ == s@.subrange(from as int, to as int),
{
    Ident::new(text_of(s, from, to))
}

// ---------------------------------------------------------------- types

/// A primitive type keyword, as a whole word.
pub open spec fn spec_type_primitive(s: Seq<char>, pos: int) -> Result<(Primitive, int), ParseFailure> {
    if keyword_at(s, pos, kw_bool()) {
        Ok((Primitive::Bool, pos + 4))
    } else if keyword_at(s, pos, kw_int()) {
        Ok((Primitive::I32, pos + 3))
    } else if keyword_at(s, pos, kw_float()) {
        Ok((Primitive::F32, pos + 3))
    } else {
        Err(fail(pos, FailureKind::Syntactic, Expected::PrimitiveType))
    }
}

/// A type. The grammar has the primitive types only.
pub open spec fn spec_type(s: Seq<char>, pos: int) -> Result<(Type, int), ParseFailure> {
    match spec_type_primitive(s, pos) {
        Ok((p, e)) => Ok((Type::Primitive(p), e)),
        Err(f) => Err(f),
    }
}

/// Whitespace and comments, then a type.
pub open spec fn tok_type(s: Seq<char>, pos: int) -> Result<(Type, int), ParseFailure> {
    match trivia(s, pos) {
        Err(f) => Err(f),
        Ok(t) => spec_type(s, t),
    }
}

pub fn parse_type_primitive_at(s: &Vec<char>, pos: usize) -> (r: Result<(Primitive, usize), ParseFailure>)
    requires
        pos <= s.len(),
    ensures
        lift(r) == spec_type_primitive(s@, pos as int),
        r is Ok ==> pos < r->Ok_0.1 <= s.len(),
{
    if match_keyword(s, pos, &kw_bool_chars()) {
        Ok((Primitive::Bool, pos + 4))
    } else if match_keyword(s, pos, &kw_int_chars()) {
        Ok((Primitive::I32, pos + 3))
    } else if match_keyword(s, pos, &kw_float_chars()) {
        Ok((Primitive::F32, pos + 3))
    } else {
        Err(make_fail(pos, FailureKind::Syntactic, Expected::PrimitiveType))
    }
}

pub fn parse_type_at(s: &Vec<char>, pos: usize) -> (r: Result<(Type, usize), ParseFailure>)
    requires
        pos <= s.len(),
    ensures
        lift(r) == spec_type(s@, pos as int),
        r is Ok ==> pos < r->Ok_0.1 <= s.len(),
{
    match parse_type_primitive_at(s, pos) {
        Ok((p, e)) => Ok((Type::Primitive(p), e)),
        Err(f) => Err(f),
    }
}

pub fn parse_type_token(s: &Vec<char>, pos: usize) -> (r: Result<(Type, usize), ParseFailure>)
    requires
        pos <= s.len(),
    ensures
        lift(r) == tok_type(s@, pos as int),
        r is Ok ==> pos < r->Ok_0.1 <= s.len(),
{
    match skip_trivia(s, pos) {
        Err(f) => Err(f),
        Ok(t) => parse_type_at(s, t),
    }
}

// ---------------------------------------------------------------- parameters

/// A parameter, after optional whitespace and comments: `<ident> : <type>`.
pub open spec fn spec_variable(s: Seq<char>, pos: int) -> Result<((Seq<char>, Type), int), ParseFailure> {
    match tok_ident(s, pos) {
        Err(f) => Err(f),
        Ok((a, e1)) => match tok_char(s, e1, ':') {
            Err(f) => Err(f),
            Ok(e2) => match tok_type(s, e2) {
                Err(f) => Err(f),
                Ok((ty, e)) => Ok(((s.subrange(a, e1), ty), e)),
            },
        },
    }
}

/// `v` in front of the list that `r` holds, if `r` holds one.
pub open spec fn cons<M>(v: M, r: Result<(Seq<M>, int), ParseFailure>) -> Result<(Seq<M>, int), ParseFailure> {
    match r {
        Ok((vs, e)) => Ok((seq![v] + vs, e)),
        Err(f) => Err(f),
    }
}

/// The rest of a parameter list after a parameter that ends at `pos`:
/// `, <variable>` repeated, then `)`.
pub open spec fn spec_params_tail(s: Seq<char>, pos: int) -> Result<(Seq<(Seq<char>, Type)>, int), ParseFailure>
    decreases s.len() - pos,
{
    match trivia(s, pos) {
        Err(f) => Err(f),
        Ok(t) => if char_at(s, t, ',') {
            match spec_variable(s, t + 1) {
                Err(f) => Err(f),
                Ok((v, e)) => if !(pos < e <= s.len()) {
                    Err(fail(e, FailureKind::Syntactic, Expected::Char(')')))
                } else {
                    cons(v, spec_params_tail(s, e))
                },
            }
        } else if char_at(s, t, ')') {
            Ok((seq![], t + 1))
        } else {
            Err(fail(t, FailureKind::Syntactic, Expected::Char(')')))
        },
    }
}

/// A parameter list after its `(`: zero or more comma-separated parameters and `)`.
pub open spec fn spec_params(s: Seq<char>, pos: int) -> Result<(Seq<(Seq<char>, Type)>, int), ParseFailure> {
    match trivia(s, pos) {
        Err(f) => Err(f),
        Ok(t) => if char_at(s, t, ')') {
            Ok((seq![], t + 1))
        } else {
            match spec_variable(s, t) {
                Err(f) => Err(f),
                Ok((v, e)) => cons(v, spec_params_tail(s, e)),
            }
        },
    }
}

pub fn parse_variable_at(s: &Vec<char>, pos: usize) -> (r: Result<(Variable, usize), ParseFailure>)
    requires
        pos <= s.len(),
    ensures
        lift_with(r, |v: Variable| param_model(v)) == spec_variable(s@, pos as int),
        r is Ok ==> pos < r->Ok_0.1 <= s.len(),
{
    let (a, e1) = match parse_ident_token(s, pos) {
        Err(f) => return Err(f),
        Ok(x) => x,
    };
    let e2 = match parse_char(s, e1, ':') {
        Err(f) => return Err(f),
        Ok(e2) => e2,
    };
    let (ty, e) = match parse_type_token(s, e2) {
        Err(f) => return Err(f),
        Ok(x) => x,
    };
    Ok((Variable { ident: ident_of(s, a, e1), ty }, e))
}

proof fn lemma_map_cons<T, M>(v: T, vs: Seq<T>, f: spec_fn(T) -> M)
    ensures
        (seq![v] + vs).map_values(f) == seq![f(v)] + vs.map_values(f),
{
    assert((seq![v] + vs).map_values(f) =~= seq![f(v)] + vs.map_values(f));
}

fn parse_params_tail(s: &Vec<char>, pos: usize) -> (r: Result<(Vec<Variable>, usize), ParseFailure>)
    requires
        pos <= s.len(),
    ensures
        lift_with(r, |vs: Vec<Variable>| vs@.map_values(|v: Variable| param_model(v)))
            == spec_params_tail(s@, pos as int),
        r is Ok ==> pos < r->Ok_0.1 <= s.len(),
    decreases s.len() - pos,
{
    let t = match skip_trivia(s, pos) {
        Err(f) => return Err(f),
        Ok(t) => t,
    };
    if has_char_at(s, t, ',') {
        let (v, e) = match parse_variable_at(s, t + 1) {
            Err(f) => return Err(f),
            Ok(x) => x,
        };
        let ghost vm = param_model(v);
        match parse_params_tail(s, e) {
            Err(f) => Err(f),
            Ok((rest, end)) => {
                let ghost rest_view = rest@;
                let mut vs = rest;
                vs.insert(0, v);
                proof {
                    assert(vs@ =~= seq![v] + rest_view);
                    lemma_map_cons(v, rest_view, |v: Variable| param_model(v));
                }
                Ok((vs, end))
            },
        }
    } else if has_char_at(s, t, ')') {
        let vs: Vec<Variable> = Vec::new();
        assert(vs@.map_values(|v: Variable| param_model(v)) =~= seq![]);
        Ok((vs, t + 1))
    } else {
        Err(make_fail(t, FailureKind::Syntactic, Expected::Char(')')))
    }
}

fn parse_params(s: &Vec<char>, pos: usize) -> (r: Result<(Vec<Variable>, usize), ParseFailure>)
    requires
        pos <= s.len(),
    ensures
        lift_with(r, |vs: Vec<Variable>| vs@.map_values(|v: Variable| param_model(v)))
            == spec_params(s@, pos as int),
        r is Ok ==> pos < r->Ok_0.1 <= s.len(),
{
    let t = match skip_trivia(s, pos) {
        Err(f) => return Err(f),
        Ok(t) => t,
    };
    if has_char_at(s, t, ')') {
        let vs: Vec<Variable> = Vec::new();
        assert(vs@.map_values(|v: Variable| param_model(v)) =~= seq![]);
        return Ok((vs, t + 1));
    }
    let (v, e) = match parse_variable_at(s, t) {
        Err(f) => return Err(f),
        Ok(x) => x,
    };
    match parse_params_tail(s, e) {
        Err(f) => Err(f),
        Ok((rest, end)) => {
            let ghost rest_view = rest@;
            let mut vs = rest;
            vs.insert(0, v);
            proof {
                assert(vs@ =~= seq![v] + rest_view);
                lemma_map_cons(v, rest_view, |v: Variable| param_model(v));
            }
            Ok((vs, end))
        },
    }
}

// ---------------------------------------------------------------- expressions

/// A call argument, after optional whitespace and comments: `<ident> : <ident>`.
pub open spec fn spec_arg(s: Seq<char>, pos: int) -> Result<((Seq<char>, Seq<char>), int), ParseFailure> {
    match tok_ident(s, pos) {
        Err(f) => Err(f),
        Ok((a, e1)) => match tok_char(s, e1, ':') {
            Err(f) => Err(f),
            Ok(e2) => match tok_ident(s, e2) {
                Err(f) => Err(f),
                Ok((b, e)) => Ok(((s.subrange(a, e1), s.subrange(b, e)), e)),
            },
        },
    }
}

/// The rest of an argument list after an argument that ends at `pos`.
pub open spec fn spec_args_tail(s: Seq<char>, pos: int) -> Result<(Seq<(Seq<char>, Seq<char>)>, int), ParseFailure>
    decreases s.len() - pos,
{
    match trivia(s, pos) {
        Err(f) => Err(f),
        Ok(t) => if char_at(s, t, ',') {
            match spec_arg(s, t + 1) {
                Err(f) => Err(f),
                Ok((v, e)) => if !(pos < e <= s.len()) {
                    Err(fail(e, FailureKind::Syntactic, Expected::Char(')')))
                } else {
                    cons(v, spec_args_tail(s, e))
                },
            }
        } else if char_at(s, t, ')') {
            Ok((seq![], t + 1))
        } else {
            Err(fail(t, FailureKind::Syntactic, Expected::Char(')')))
        },
    }
}

/// An argument list after its `(`.
pub open spec fn spec_args(s: Seq<char>, pos: int) -> Result<(Seq<(Seq<char>, Seq<char>)>, int), ParseFailure> {
    match trivia(s, pos) {
        Err(f) => Err(f),
        Ok(t) => if char_at(s, t, ')') {
            Ok((seq![], t + 1))
        } else {
            match spec_arg(s, t) {
                Err(f) => Err(f),
                Ok((v, e)) => cons(v, spec_args_tail(s, e)),
            }
        },
    }
}

/// The failure that reached further: `b` where it stands after `a`, else `a`.
pub open spec fn deeper(a: ParseFailure, b: ParseFailure) -> ParseFailure {
    if b.pos > a.pos {
        b
    } else {
        a
    }
}

/// The failure of an expression where no alternative matches: the furthest of
/// the integer and float scanners' failures, and otherwise a missing expression
/// at `pos`.
pub open spec fn expr_failure(s: Seq<char>, pos: int) -> ParseFailure {
    let base = fail(pos, FailureKind::Lexical, Expected::Expression);
    let with_int = match int_span(s, pos) {
        Err(f) => deeper(base, f),
        Ok(_) => base,
    };
    match float_span(s, pos) {
        Err(f) => deeper(with_int, f),
        Ok(_) => with_int,
    }
}

fn deeper_failure(a: ParseFailure, b: ParseFailure) -> (r: ParseFailure)
    ensures
        r == deeper(a, b),
{
    if b.pos > a.pos {
        b
    } else {
        a
    }
}

/// An expression at `pos`: a boolean, an integer (not followed by a decimal
/// point), a float, a call (a name followed by an argument list), or a variable.
pub open spec fn spec_expr(s: Seq<char>, pos: int) -> Result<(ExprModel, int), ParseFailure> {
    match spec_boolean(s, pos) {
        Ok((b, e)) => Ok((ExprModel::Boolean(b), e)),
        Err(_) => {
            if int_span(s, pos) is Ok && !char_at(s, int_span(s, pos)->Ok_0, '.') {
                match spec_int(s, pos) {
                    Ok((_, e)) => Ok((ExprModel::Integer(s.subrange(pos, e)), e)),
                    Err(f) => Err(f),
                }
            } else {
                match float_span(s, pos) {
                    Ok(e) => Ok((ExprModel::Float(s.subrange(pos, e)), e)),
                    Err(_) => match spec_identifier(s, pos) {
                        Err(_) => Err(expr_failure(s, pos)),
                        Ok(e1) => match trivia(s, e1) {
                            Err(f) => Err(f),
                            Ok(t) => if char_at(s, t, '(') {
                                match spec_args(s, t + 1) {
                                    Err(f) => Err(f),
                                    Ok((args, e)) => Ok(
                                        (ExprModel::Call(s.subrange(pos, e1), args), e),
                                    ),
                                }
                            } else {
                                Ok((ExprModel::Variable(s.subrange(pos, e1)), e1))
                            },
                        },
                    },
                }
            }
        },
    }
}

fn parse_arg(s: &Vec<char>, pos: usize) -> (r: Result<((Ident, Ident), usize), ParseFailure>)
    requires
        pos <= s.len(),
    ensures
        lift_with(r, |a: (Ident, Ident)| arg_model(a)) == spec_arg(s@, pos as int),
        r is Ok ==> pos < r->Ok_0.1 <= s.len(),
{
    let (a, e1) = match parse_ident_token(s, pos) {
        Err(f) => return Err(f),
        Ok(x) => x,
    };
    let e2 = match parse_char(s, e1, ':') {
        Err(f) => return Err(f),
        Ok(e2) => e2,
    };
    let (b, e) = match parse_ident_token(s, e2) {
        Err(f) => return Err(f),
        Ok(x) => x,
    };
    Ok(((ident_of(s, a, e1), ident_of(s, b, e)), e))
}

fn parse_args_tail(s: &Vec<char>, pos: usize) -> (r: Result<(Vec<(Ident, Ident)>, usize), ParseFailure>)
    requires
        pos <= s.len(),
    ensures
        lift_with(r, |vs: Vec<(Ident, Ident)>| vs@.map_values(|a: (Ident, Ident)| arg_model(a)))
            == spec_args_tail(s@, pos as int),
        r is Ok ==> pos < r->Ok_0.1 <= s.len(),
    decreases s.len() - pos,
{
    let t = match skip_trivia(s, pos) {
        Err(f) => return Err(f),
        Ok(t) => t,
    };
    if has_char_at(s, t, ',') {
        let (v, e) = match parse_arg(s, t + 1) {
            Err(f) => return Err(f),
            Ok(x) => x,
        };
        match parse_args_tail(s, e) {
            Err(f) => Err(f),
            Ok((rest, end)) => {
                let ghost rest_view = rest@;
                let mut vs = rest;
                vs.insert(0, v);
                proof {
                    assert(vs@ =~= seq![v] + rest_view);
                    lemma_map_cons(v, rest_view, |a: (Ident, Ident)| arg_model(a));
                }
                Ok((vs, end))
            },
        }
    } else if has_char_at(s, t, ')') {
        let vs: Vec<(Ident, Ident)> = Vec::new();
        assert(vs@.map_values(|a: (Ident, Ident)| arg_model(a)) =~= seq![]);
        Ok((vs, t + 1))
    } else {
        Err(make_fail(t, FailureKind::Syntactic, Expected::Char(')')))
    }
}

fn parse_args(s: &Vec<char>, pos: usize) -> (r: Result<(Vec<(Ident, Ident)>, usize), ParseFailure>)
    requires
        pos <= s.len(),
    ensures
        lift_with(r, |vs: Vec<(Ident, Ident)>| vs@.map_values(|a: (Ident, Ident)| arg_model(a)))
            == spec_args(s@, pos as int),
        r is Ok ==> pos < r->Ok_0.1 <= s.len(),
{
    let t = match skip_trivia(s, pos) {
        Err(f) => return Err(f),
        Ok(t) => t,
    };
    if has_char_at(s, t, ')') {
        let vs: Vec<(Ident, Ident)> = Vec::new();
        assert(vs@.map_values(|a: (Ident, Ident)| arg_model(a)) =~= seq![]);
        return Ok((vs, t + 1));
    }
    let (v, e) = match parse_arg(s, t) {
        Err(f) => return Err(f),
        Ok(x) => x,
    };
    match parse_args_tail(s, e) {
        Err(f) => Err(f),
        Ok((rest, end)) => {
            let ghost rest_view = rest@;
            let mut vs = rest;
            vs.insert(0, v);
            proof {
                assert(vs@ =~= seq![v] + rest_view);
                lemma_map_cons(v, rest_view, |a: (Ident, Ident)| arg_model(a));
            }
            Ok((vs, end))
        },
    }
}

pub fn parse_expr_at(s: &Vec<char>, pos: usize) -> (r: Result<(Expr, usize), ParseFailure>)
    requires
        pos <= s.len(),
    ensures
        lift_with(r, |e: Expr| e.model()) == spec_expr(s@, pos as int),
        r is Ok ==> pos < r->Ok_0.1 <= s.len(),
{
    if let Ok((b, e)) = scan_boolean(s, pos) {
        return Ok((Expr::Literal(Literal::Boolean(b)), e));
    }
    let mut failure = make_fail(pos, FailureKind::Lexical, Expected::Expression);
    match scan_int_span(s, pos) {
        Ok(span_end) => {
            if !has_char_at(s, span_end, '.') {
                return match scan_int(s, pos) {
                    Ok((_, e)) => Ok((Expr::Literal(Literal::Integer(text_of(s, pos, e))), e)),
                    Err(f) => Err(f),
                };
            }
        },
        Err(f) => {
            failure = deeper_failure(failure, f);
        },
    }
    match scan_float_span(s, pos) {
        Ok(e) => {
            return Ok((Expr::Literal(Literal::Float(text_of(s, pos, e))), e));
        },
        Err(f) => {
            failure = deeper_failure(failure, f);
        },
    }
    assert(failure == expr_failure(s@, pos as int));
    let e1 = match scan_identifier(s, pos) {
        Err(_) => return Err(failure),
        Ok(e1) => e1,
    };
    proof {
        lemma_scanned_ident_legal(s@, pos as int);
    }
    let t = match skip_trivia(s, e1) {
        Err(f) => return Err(f),
        Ok(t) => t,
    };
    if has_char_at(s, t, '(') {
        match parse_args(s, t + 1) {
            Err(f) => Err(f),
            Ok((args, e)) => Ok((Expr::FnCall(FnCall { ident: ident_of(s, pos, e1), args }), e)),
        }
    } else {
        Ok((Expr::Variable(ident_of(s, pos, e1)), e1))
    }
}

// ---------------------------------------------------------------- declarations

/// What follows a declaration's parameter list: `-> <type> = <expr> ;`.
pub open spec fn spec_decl_tail(s: Seq<char>, pos: int) -> Result<((Type, ExprModel), int), ParseFailure> {
    match tok_arrow(s, pos) {
        Err(f) => Err(f),
        Ok(p3) => match tok_type(s, p3) {
            Err(f) => Err(f),
            Ok((ty, p4)) => match tok_char(s, p4, '=') {
                Err(f) => Err(f),
                Ok(p5) => match trivia(s, p5) {
                    Err(f) => Err(f),
                    Ok(t) => match spec_expr(s, t) {
                        Err(f) => Err(f),
                        Ok((body, p6)) => match tok_char(s, p6, ';') {
                            Err(f) => Err(f),
                            Ok(end) => Ok(((ty, body), end)),
                        },
                    },
                },
            },
        },
    }
}

/// A declaration at `pos`: `fn <ident> ( <params> ) -> <type> = <expr> ;`, with
/// at least one whitespace character or comment after `fn`.
pub open spec fn spec_fn_decl(s: Seq<char>, pos: int) -> Result<(DeclModel, int), ParseFailure> {
    if !keyword_at(s, pos, kw_fn()) {
        Err(fail(pos, FailureKind::Syntactic, Expected::FnKeyword))
    } else {
        match trivia(s, pos + 2) {
            Err(f) => Err(f),
            Ok(t0) => if t0 == pos + 2 {
                Err(fail(t0, FailureKind::Syntactic, Expected::Separator))
            } else {
                match spec_identifier(s, t0) {
                    Err(f) => Err(f),
                    Ok(e1) => match tok_char(s, e1, '(') {
                        Err(f) => Err(f),
                        Ok(p1) => match spec_params(s, p1) {
                            Err(f) => Err(f),
                            Ok((params, p2)) => match spec_decl_tail(s, p2) {
                                Err(f) => Err(f),
                                Ok(((ret, body), end)) => Ok(
                                    (
                                        DeclModel { name: s.subrange(t0, e1), params, ret, body },
                                        end,
                                    ),
                                ),
                            },
                        },
                    },
                }
            },
        }
    }
}

/// Declarations from `pos` to the end of input, with whitespace and comments
/// around them. Text where no declaration begins is trailing input.
pub open spec fn spec_root_from(s: Seq<char>, pos: int) -> Result<Seq<DeclModel>, ParseFailure>
    decreases s.len() - pos,
{
    match trivia(s, pos) {
        Err(f) => Err(f),
        Ok(t) => if t >= s.len() {
            Ok(seq![])
        } else {
            match spec_fn_decl(s, t) {
                Err(f) => if f.expected == Expected::FnKeyword {
                    Err(fail(t, FailureKind::TrailingInput, Expected::Declaration))
                } else {
                    Err(f)
                },
                Ok((d, e)) => if !(pos < e <= s.len()) {
                    Err(fail(t, FailureKind::TrailingInput, Expected::Declaration))
                } else {
                    match spec_root_from(s, e) {
                        Ok(ds) => Ok(seq![d] + ds),
                        Err(f) => Err(f),
                    }
                },
            }
        },
    }
}

/// The program that the text `s` holds.
pub open spec fn spec_parse(s: Seq<char>) -> Result<Seq<DeclModel>, ParseFailure> {
    spec_root_from(s, 0)
}

fn parse_decl_tail(s: &Vec<char>, pos: usize) -> (r: Result<((Type, Expr), usize), ParseFailure>)
    requires
        pos <= s.len(),
    ensures
        lift_with(r, |x: (Type, Expr)| (x.0, x.1.model())) == spec_decl_tail(s@, pos as int),
        r is Ok ==> pos < r->Ok_0.1 <= s.len(),
{
    let p3 = match parse_arrow(s, pos) {
        Err(f) => return Err(f),
        Ok(p) => p,
    };
    let (ty, p4) = match parse_type_token(s, p3) {
        Err(f) => return Err(f),
        Ok(x) => x,
    };
    let p5 = match parse_char(s, p4, '=') {
        Err(f) => return Err(f),
        Ok(p) => p,
    };
    let t = match skip_trivia(s, p5) {
        Err(f) => return Err(f),
        Ok(t) => t,
    };
    let (body, p6) = match parse_expr_at(s, t) {
        Err(f) => return Err(f),
        Ok(x) => x,
    };
    let end = match parse_char(s, p6, ';') {
        Err(f) => return Err(f),
        Ok(p) => p,
    };
    Ok(((ty, body), end))
}

pub fn parse_fn_decl_at(s: &Vec<char>, pos: usize) -> (r: Result<(FnDecl, usize), ParseFailure>)
    requires
        pos <= s.len(),
    ensures
        lift_with(r, |d: FnDecl| d.model()) == spec_fn_decl(s@, pos as int),
        r is Ok ==> pos < r->Ok_0.1 <= s.len(),
{
    if !match_keyword(s, pos, &kw_fn_chars()) {
        return Err(make_fail(pos, FailureKind::Syntactic, Expected::FnKeyword));
    }
    let t0 = match skip_trivia(s, pos + 2) {
        Err(f) => return Err(f),
        Ok(t) => t,
    };
    if t0 == pos + 2 {
        return Err(make_fail(t0, FailureKind::Syntactic, Expected::Separator));
    }
    let e1 = match scan_identifier(s, t0) {
        Err(f) => return Err(f),
        Ok(e) => e,
    };
    proof {
        lemma_scanned_ident_legal(s@, t0 as int);
    }
    let p1 = match parse_char(s, e1, '(') {
        Err(f) => return Err(f),
        Ok(p) => p,
    };
    let (args, p2) = match parse_params(s, p1) {
        Err(f) => return Err(f),
        Ok(x) => x,
    };
    let ((return_ty, body), end) = match parse_decl_tail(s, p2) {
        Err(f) => return Err(f),
        Ok(x) => x,
    };
    Ok((FnDecl { ident: ident_of(s, t0, e1), args, return_ty, body }, end))
}

/// A list of items read as the list of their models.
pub open spec fn items_result(r: Result<Vec<Item>, ParseFailure>) -> Result<Seq<DeclModel>, ParseFailure> {
    match r {
        Ok(items) => Ok(items@.map_values(|i: Item| i.model())),
        Err(f) => Err(f),
    }
}

fn parse_root_from(s: &Vec<char>, pos: usize) -> (r: Result<Vec<Item>, ParseFailure>)
    requires
        pos <= s.len(),
    ensures
        items_result(r) == spec_root_from(s@, pos as int),
    decreases s.len() - pos,
{
    let t = match skip_trivia(s, pos) {
        Err(f) => return Err(f),
        Ok(t) => t,
    };
    if t >= s.len() {
        let items: Vec<Item> = Vec::new();
        assert(items@.map_values(|i: Item| i.model()) =~= seq![]);
        return Ok(items);
    }
    match parse_fn_decl_at(s, t) {
        Err(f) => {
            if f.expected == Expected::FnKeyword {
                Err(make_fail(t, FailureKind::TrailingInput, Expected::Declaration))
            } else {
                Err(f)
            }
        },
        Ok((d, e)) => {
            match parse_root_from(s, e) {
                Err(f) => Err(f),
                Ok(rest) => {
                    let ghost rest_view = rest@;
                    let item = Item::FnDecl(d);
                    let mut items = rest;
                    items.insert(0, item);
                    proof {
                        assert(items@ =~= seq![item] + rest_view);
                        lemma_map_cons(item, rest_view, |i: Item| i.model());
                    }
                    Ok(items)
                },
            }
        },
    }
}

/// Parses a whole source text into its program, or the failure where matching stopped.
pub fn parse(source: &str) -> (r: Result<Root, ParseFailure>)
    ensures
        match r {
            Ok(root) => spec_parse(source@) == Ok::<Seq<DeclModel>, ParseFailure>(root.model()),
            Err(f) => spec_parse(source@) == Err::<Seq<DeclModel>, ParseFailure>(f),
        },
{
    let s = chars_of(source);
    match parse_root_from(&s, 0) {
        Ok(items) => Ok(Root { items }),
        Err(f) => Err(f),
    }
}

// ---------------------------------------------------------------- rules on a whole text

/// A rule's result on a whole text, as the text left over and the value read through `f`.
pub open spec fn with_rest<T, M>(
    input: Seq<char>,
    r: Result<(String, T), ParseFailure>,
    f: spec_fn(T) -> M,
    expected: Result<(M, int), ParseFailure>,
) -> bool {
    match (r, expected) {
        (Ok((rest, v)), Ok((m, e))) => f(v) == m && rest@ == input.subrange(e, input.len() as int),
        (Err(x), Err(y)) => x == y,
        _ => false,
    }
}

/// A span rule's result from 0 as the text that it spans.
pub open spec fn spanned(s: Seq<char>, r: Result<int, ParseFailure>) -> Result<(Seq<char>, int), ParseFailure> {
    match r {
        Ok(e) => Ok((s.subrange(0, e), e)),
        Err(f) => Err(f),
    }
}

/// A comment at the start of `input`: the rest of the text, and the comment's text.
pub fn parse_comment(input: &str) -> (r: Result<(String, String), ParseFailure>)
    ensures
        with_rest(
            input@,
            r,
            |t: String| t@,
            match spec_comment(input@, 0) {
                Ok((a, b, e)) => Ok((input@.subrange(a, b), e)),
                Err(f) => Err(f),
            },
        ),
{
    let s = chars_of(input);
    match scan_comment(&s, 0) {
        Ok((a, b, e)) => Ok((text_of(&s, e, s.len()), text_of(&s, a, b))),
        Err(f) => Err(f),
    }
}

/// An identifier at the start of `input`: the rest of the text, and the identifier.
pub fn parse_identifier(input: &str) -> (r: Result<(String, String), ParseFailure>)
    ensures
        with_rest(input@, r, |t: String| t@, spanned(input@, spec_identifier(input@, 0))),
{
    let s = chars_of(input);
    match scan_identifier(&s, 0) {
        Ok(e) => Ok((text_of(&s, e, s.len()), text_of(&s, 0, e))),
        Err(f) => Err(f),
    }
}

/// A primitive type keyword at the start of `input`.
pub fn parse_type_primitive(input: &str) -> (r: Result<(String, Primitive), ParseFailure>)
    ensures
        with_rest(input@, r, |p: Primitive| p, spec_type_primitive(input@, 0)),
{
    let s = chars_of(input);
    match parse_type_primitive_at(&s, 0) {
        Ok((p, e)) => Ok((text_of(&s, e, s.len()), p)),
        Err(f) => Err(f),
    }
}

/// A type at the start of `input`.
pub fn parse_type(input: &str) -> (r: Result<(String, Type), ParseFailure>)
    ensures
        with_rest(input@, r, |t: Type| t, spec_type(input@, 0)),
{
    let s = chars_of(input);
    match parse_type_at(&s, 0) {
        Ok((t, e)) => Ok((text_of(&s, e, s.len()), t)),
        Err(f) => Err(f),
    }
}

/// A boolean literal at the start of `input`.
pub fn parse_boolean(input: &str) -> (r: Result<(String, bool), ParseFailure>)
    ensures
        with_rest(input@, r, |b: bool| b, spec_boolean(input@, 0)),
{
    let s = chars_of(input);
    match scan_boolean(&s, 0) {
        Ok((b, e)) => Ok((text_of(&s, e, s.len()), b)),
        Err(f) => Err(f),
    }
}

/// An integer literal at the start of `input`, converted to `i32`.
pub fn parse_i32(input: &str) -> (r: Result<(String, i32), ParseFailure>)
    ensures
        with_rest(input@, r, |v: i32| v, spec_int(input@, 0)),
{
    let s = chars_of(input);
    match scan_int(&s, 0) {
        Ok((v, e)) => Ok((text_of(&s, e, s.len()), v)),
        Err(f) => Err(f),
    }
}

/// A float literal at the start of `input`: the rest of the text, and its lexeme.
pub fn parse_float(input: &str) -> (r: Result<(String, String), ParseFailure>)
    ensures
        with_rest(input@, r, |t: String| t@, spanned(input@, float_span(input@, 0))),
{
    let s = chars_of(input);
    match scan_float_span(&s, 0) {
        Ok(e) => Ok((text_of(&s, e, s.len()), text_of(&s, 0, e))),
        Err(f) => Err(f),
    }
}

/// An expression at the start of `input`.
pub fn parse_expr(input: &str) -> (r: Result<(String, Expr), ParseFailure>)
    ensures
        with_rest(input@, r, |x: Expr| x.model(), spec_expr(input@, 0)),
{
    let s = chars_of(input);
    match parse_expr_at(&s, 0) {
        Ok((x, e)) => Ok((text_of(&s, e, s.len()), x)),
        Err(f) => Err(f),
    }
}

/// A declaration at the start of `input`.
pub fn parse_fn_decl(input: &str) -> (r: Result<(String, FnDecl), ParseFailure>)
    ensures
        with_rest(input@, r, |d: FnDecl| d.model(), spec_fn_decl(input@, 0)),
{
    let s = chars_of(input);
    match parse_fn_decl_at(&s, 0) {
        Ok((d, e)) => Ok((text_of(&s, e, s.len()), d)),
        Err(f) => Err(f),
    }
}

// ---------------------------------------------------------------- progress

/// A successful rule result ends after `pos` and within the text.
pub open spec fn advances<M>(r: Result<(M, int), ParseFailure>, pos: int, n: int) -> bool {
    r is Ok ==> pos < r->Ok_0.1 <= n
}

proof fn lemma_trivia_within(s: Seq<char>, pos: int)
    requires
        0 <= pos <= s.len(),
    ensures
        trivia(s, pos) is Ok ==> pos <= trivia(s, pos)->Ok_0 <= s.len(),
{
    lemma_trivia_bounds(s, pos, TriviaMode::Code);
}

proof fn lemma_tok_char_advances(s: Seq<char>, pos: int, c: char)
    requires
        0 <= pos <= s.len(),
    ensures
        tok_char(s, pos, c) is Ok ==> pos < tok_char(s, pos, c)->Ok_0 <= s.len(),
{
    lemma_trivia_within(s, pos);
}

proof fn lemma_tok_ident_advances(s: Seq<char>, pos: int)
    requires
        0 <= pos <= s.len(),
    ensures
        tok_ident(s, pos) is Ok ==> pos <= tok_ident(s, pos)->Ok_0.0 < tok_ident(s, pos)->Ok_0.1
            <= s.len(),
{
    lemma_trivia_within(s, pos);
    if trivia(s, pos) is Ok {
        let t = trivia(s, pos)->Ok_0;
        if t < s.len() {
            lemma_ident_end(s, t + 1);
        }
    }
}

proof fn lemma_tok_type_advances(s: Seq<char>, pos: int)
    requires
        0 <= pos <= s.len(),
    ensures
        advances(tok_type(s, pos), pos, s.len() as int),
{
    lemma_trivia_within(s, pos);
    assert(kw_bool().len() == 4 && kw_int().len() == 3 && kw_float().len() == 3);
}

proof fn lemma_variable_advances(s: Seq<char>, pos: int)
    requires
        0 <= pos <= s.len(),
    ensures
        advances(spec_variable(s, pos), pos, s.len() as int),
{
    lemma_tok_ident_advances(s, pos);
    if tok_ident(s, pos) is Ok {
        let e1 = tok_ident(s, pos)->Ok_0.1;
        lemma_tok_char_advances(s, e1, ':');
        if tok_char(s, e1, ':') is Ok {
            lemma_tok_type_advances(s, tok_char(s, e1, ':')->Ok_0);
        }
    }
}

proof fn lemma_params_tail_advances(s: Seq<char>, pos: int)
    requires
        0 <= pos <= s.len(),
    ensures
        advances(spec_params_tail(s, pos), pos, s.len() as int),
    decreases s.len() - pos,
{
    lemma_trivia_within(s, pos);
    if trivia(s, pos) is Ok {
        let t = trivia(s, pos)->Ok_0;
        if char_at(s, t, ',') {
            lemma_variable_advances(s, t + 1);
            if spec_variable(s, t + 1) is Ok {
                let e = spec_variable(s, t + 1)->Ok_0.1;
                if pos < e <= s.len() {
                    lemma_params_tail_advances(s, e);
                }
            }
        }
    }
}

proof fn lemma_params_advances(s: Seq<char>, pos: int)
    requires
        0 <= pos <= s.len(),
    ensures
        advances(spec_params(s, pos), pos, s.len() as int),
{
    lemma_trivia_within(s, pos);
    if trivia(s, pos) is Ok {
        let t = trivia(s, pos)->Ok_0;
        lemma_variable_advances(s, t);
        if spec_variable(s, t) is Ok {
            lemma_params_tail_advances(s, spec_variable(s, t)->Ok_0.1);
        }
    }
}

proof fn lemma_arg_advances(s: Seq<char>, pos: int)
    requires
        0 <= pos <= s.len(),
    ensures
        advances(spec_arg(s, pos), pos, s.len() as int),
{
    lemma_tok_ident_advances(s, pos);
    if tok_ident(s, pos) is Ok {
        let e1 = tok_ident(s, pos)->Ok_0.1;
        lemma_tok_char_advances(s, e1, ':');
        if tok_char(s, e1, ':') is Ok {
            lemma_tok_ident_advances(s, tok_char(s, e1, ':')->Ok_0);
        }
    }
}

proof fn lemma_args_tail_advances(s: Seq<char>, pos: int)
    requires
        0 <= pos <= s.len(),
    ensures
        advances(spec_args_tail(s, pos), pos, s.len() as int),
    decreases s.len() - pos,
{
    lemma_trivia_within(s, pos);
    if trivia(s, pos) is Ok {
        let t = trivia(s, pos)->Ok_0;
        if char_at(s, t, ',') {
            lemma_arg_advances(s, t + 1);
            if spec_arg(s, t + 1) is Ok {
                let e = spec_arg(s, t + 1)->Ok_0.1;
                if pos < e <= s.len() {
                    lemma_args_tail_advances(s, e);
                }
            }
        }
    }
}

proof fn lemma_args_advances(s: Seq<char>, pos: int)
    requires
        0 <= pos <= s.len(),
    ensures
        advances(spec_args(s, pos), pos, s.len() as int),
{
    lemma_trivia_within(s, pos);
    if trivia(s, pos) is Ok {
        let t = trivia(s, pos)->Ok_0;
        lemma_arg_advances(s, t);
        if spec_arg(s, t) is Ok {
            lemma_args_tail_advances(s, spec_arg(s, t)->Ok_0.1);
        }
    }
}

proof fn lemma_expr_advances(s: Seq<char>, pos: int)
    requires
        0 <= pos <= s.len(),
    ensures
        advances(spec_expr(s, pos), pos, s.len() as int),
{
    assert(kw_true().len() == 4 && kw_false().len() == 5);
    lemma_int_span_bounds(s, pos);
    lemma_float_span_bounds(s, pos);
    if pos < s.len() {
        lemma_ident_end(s, pos + 1);
        let e1 = ident_end(s, pos + 1);
        lemma_trivia_within(s, e1);
        if trivia(s, e1) is Ok && char_at(s, trivia(s, e1)->Ok_0, '(') {
            lemma_args_advances(s, trivia(s, e1)->Ok_0 + 1);
        }
    }
}

proof fn lemma_decl_tail_advances(s: Seq<char>, pos: int)
    requires
        0 <= pos <= s.len(),
    ensures
        advances(spec_decl_tail(s, pos), pos, s.len() as int),
{
    lemma_trivia_within(s, pos);
    if tok_arrow(s, pos) is Ok {
        let p3 = tok_arrow(s, pos)->Ok_0;
        lemma_tok_type_advances(s, p3);
        if tok_type(s, p3) is Ok {
            let p4 = tok_type(s, p3)->Ok_0.1;
            lemma_tok_char_advances(s, p4, '=');
            if tok_char(s, p4, '=') is Ok {
                let p5 = tok_char(s, p4, '=')->Ok_0;
                lemma_trivia_within(s, p5);
                if trivia(s, p5) is Ok {
                    let t = trivia(s, p5)->Ok_0;
                    lemma_expr_advances(s, t);
                    if spec_expr(s, t) is Ok {
                        lemma_tok_char_advances(s, spec_expr(s, t)->Ok_0.1, ';');
                    }
                }
            }
        }
    }
}

/// A declaration that parses ends after its start and within the text.
pub proof fn lemma_fn_decl_advances(s: Seq<char>, pos: int)
    requires
        0 <= pos <= s.len(),
    ensures
        advances(spec_fn_decl(s, pos), pos, s.len() as int),
{
    assert(kw_fn().len() == 2);
    if keyword_at(s, pos, kw_fn()) {
        lemma_trivia_within(s, pos + 2);
        if trivia(s, pos + 2) is Ok {
            let t0 = trivia(s, pos + 2)->Ok_0;
            if t0 < s.len() {
                lemma_ident_end(s, t0 + 1);
                let e1 = ident_end(s, t0 + 1);
                lemma_tok_char_advances(s, e1, '(');
                if tok_char(s, e1, '(') is Ok {
                    let p1 = tok_char(s, e1, '(')->Ok_0;
                    lemma_params_advances(s, p1);
                    if spec_params(s, p1) is Ok {
                        lemma_decl_tail_advances(s, spec_params(s, p1)->Ok_0.1);
                    }
                }
            }
        }
    }
}

// ---------------------------------------------------------------- whole programs

/// Where the whitespace and comments before declaration `i` begin: the start of
/// the text, or the end of declaration `i - 1`.
pub open spec fn gap_start(ends: Seq<int>, i: int) -> int {
    if i == 0 {
        0
    } else {
        ends[i - 1]
    }
}

/// Whether `s` is made of declarations, the `i`-th spanning `starts[i]..ends[i]`
/// with the value `models[i]`, and of whitespace and comments between them.
pub open spec fn declarations_text(
    s: Seq<char>,
    starts: Seq<int>,
    ends: Seq<int>,
    models: Seq<DeclModel>,
) -> bool {
    &&& starts.len() == ends.len() == models.len()
    &&& forall|i: int|
        0 <= i < starts.len() ==> #[trigger] spec_fn_decl(s, starts[i]) == Ok::<
            (DeclModel, int),
            ParseFailure,
        >((models[i], ends[i]))
    &&& forall|i: int|
        0 <= i < starts.len() ==> trivia(s, gap_start(ends, i)) == Ok::<int, ParseFailure>(
            #[trigger] starts[i],
        )
    &&& trivia(s, gap_start(ends, starts.len() as int)) == Ok::<int, ParseFailure>(s.len() as int)
}

#[verifier::rlimit(40)]
proof fn lemma_declarations_from(
    s: Seq<char>,
    starts: Seq<int>,
    ends: Seq<int>,
    models: Seq<DeclModel>,
    k: int,
)
    requires
        declarations_text(s, starts, ends, models),
        0 <= k <= starts.len(),
        0 <= gap_start(ends, k) <= s.len(),
    ensures
        spec_root_from(s, gap_start(ends, k)) == Ok::<Seq<DeclModel>, ParseFailure>(
            models.subrange(k, models.len() as int),
        ),
    decreases starts.len() - k,
{
    let g = gap_start(ends, k);
    lemma_trivia_within(s, g);
    if k == starts.len() {
        assert(models.subrange(k, models.len() as int) =~= Seq::<DeclModel>::empty());
    } else {
        let t = starts[k];
        assert(trivia(s, g) == Ok::<int, ParseFailure>(t));
        assert(spec_fn_decl(s, starts[k]) == Ok::<(DeclModel, int), ParseFailure>(
            (models[k], ends[k]),
        ));
        lemma_fn_decl_advances(s, t);
        assert(gap_start(ends, k + 1) == ends[k]);
        lemma_declarations_from(s, starts, ends, models, k + 1);
        assert(models.subrange(k, models.len() as int) =~= seq![models[k]] + models.subrange(
            k + 1,
            models.len() as int,
        ));
    }
}

/// Parsing is total over the declaration grammar: a text made of declarations
/// with only whitespace and comments before, between and after them parses to
/// one item per declaration, in source order.
pub proof fn lemma_parse_declarations(
    s: Seq<char>,
    starts: Seq<int>,
    ends: Seq<int>,
    models: Seq<DeclModel>,
)
    requires
        declarations_text(s, starts, ends, models),
    ensures
        spec_parse(s) == Ok::<Seq<DeclModel>, ParseFailure>(models),
        spec_parse(s)->Ok_0.len() == starts.len(),
{
    lemma_declarations_from(s, starts, ends, models, 0);
    assert(models.subrange(0, models.len() as int) =~= models);
}

// ---------------------------------------------------------------- names in context

/// Whether `w` is a name in the identifier scanner's alphabet that begins with a letter.
pub open spec fn is_plain_name(w: Seq<char>) -> bool {
    w.len() > 0 && crate::lexer::is_letter(w[0]) && forall|k: int|
        0 <= k < w.len() ==> crate::lexer::is_ident_continue(#[trigger] w[k])
}

proof fn lemma_ident_run(s: Seq<char>, i: int, j: int)
    requires
        0 <= i <= j <= s.len(),
        forall|k: int| i <= k < j ==> crate::lexer::is_ident_continue(#[trigger] s[k]),
        j == s.len() || !crate::lexer::is_ident_continue(s[j]),
    ensures
        ident_end(s, i) == j,
    decreases j - i,
{
    if i < j {
        lemma_ident_run(s, i + 1, j);
    }
}

/// The text `fn <id>() -> bool = <id2>;`.
pub open spec fn simple_decl_text(id: Seq<char>, id2: Seq<char>) -> Seq<char> {
    seq!['f', 'n', ' '] + id + seq!['(', ')', ' ', '-', '>', ' ', 'b', 'o', 'o', 'l', ' ', '=', ' ']
        + id2 + seq![';']
}

proof fn lemma_trivia_stops(s: Seq<char>, p: int)
    requires
        0 <= p < s.len(),
        !crate::lexer::is_ws(s[p]),
        s[p] != '/',
    ensures
        trivia(s, p) == Ok::<int, ParseFailure>(p),
{
}

proof fn lemma_trivia_one_space(s: Seq<char>, p: int)
    requires
        0 <= p,
        p + 1 < s.len(),
        s[p] == ' ',
        !crate::lexer::is_ws(s[p + 1]),
        s[p + 1] != '/',
    ensures
        trivia(s, p) == Ok::<int, ParseFailure>(p + 1),
{
    lemma_trivia_stops(s, p + 1);
}

proof fn lemma_simple_chars(id: Seq<char>, id2: Seq<char>)
    requires
        is_plain_name(id),
        is_plain_name(id2),
    ensures
        ({
            let s = simple_decl_text(id, id2);
            let b = 3 + id.len() as int;
            let c = b + 13;
            &&& s.len() == c + id2.len() + 1
            &&& forall|k: int| 0 <= k < id.len() ==> s[3 + k] == #[trigger] id[k]
            &&& forall|k: int| 0 <= k < id2.len() ==> s[c + k] == #[trigger] id2[k]
            &&& s[0] == 'f' && s[1] == 'n' && s[2] == ' '
            &&& s[b] == '(' && s[b + 1] == ')' && s[b + 2] == ' ' && s[b + 3] == '-' && s[b + 4]
                == '>'
            &&& s[b + 5] == ' ' && s[b + 6] == 'b' && s[b + 7] == 'o' && s[b + 8] == 'o' && s[b
                + 9] == 'l'
            &&& s[b + 10] == ' ' && s[b + 11] == '=' && s[b + 12] == ' ' && s[c + id2.len()]
                == ';'
        }),
{
}

proof fn lemma_simple_name(id: Seq<char>, id2: Seq<char>)
    requires
        is_plain_name(id),
        is_plain_name(id2),
    ensures
        spec_identifier(simple_decl_text(id, id2), 3) == Ok::<int, ParseFailure>(
            3 + id.len() as int,
        ),
        simple_decl_text(id, id2).subrange(3, 3 + id.len() as int) == id,
{
    let s = simple_decl_text(id, id2);
    let b = 3 + id.len() as int;
    lemma_simple_chars(id, id2);
    assert forall|k: int| 4 <= k < b implies crate::lexer::is_ident_continue(#[trigger] s[k]) by {
        assert(s[3 + (k - 3)] == id[k - 3]);
    }
    lemma_ident_run(s, 4, b);
    assert(s.subrange(3, b) =~= id);
    assert(s[3] == id[0]);
}

proof fn lemma_simple_keyword(id: Seq<char>, id2: Seq<char>)
    requires
        is_plain_name(id),
        is_plain_name(id2),
    ensures
        keyword_at(simple_decl_text(id, id2), 0, kw_fn()),
        trivia(simple_decl_text(id, id2), 2) == Ok::<int, ParseFailure>(3),
{
    let s = simple_decl_text(id, id2);
    lemma_simple_chars(id, id2);
    assert(s.subrange(0, 2) =~= kw_fn());
    assert(s[3] == id[0]);
    lemma_trivia_one_space(s, 2);
}

proof fn lemma_simple_parens(id: Seq<char>, id2: Seq<char>)
    requires
        is_plain_name(id),
        is_plain_name(id2),
    ensures
        ({
            let s = simple_decl_text(id, id2);
            let b = 3 + id.len() as int;
            &&& tok_char(s, b, '(') == Ok::<int, ParseFailure>(b + 1)
            &&& spec_params(s, b + 1) == Ok::<(Seq<(Seq<char>, Type)>, int), ParseFailure>(
                (seq![], b + 2),
            )
        }),
{
    let s = simple_decl_text(id, id2);
    let b = 3 + id.len() as int;
    lemma_simple_chars(id, id2);
    lemma_trivia_stops(s, b);
    lemma_trivia_stops(s, b + 1);
}

proof fn lemma_simple_signature(id: Seq<char>, id2: Seq<char>)
    requires
        is_plain_name(id),
        is_plain_name(id2),
    ensures
        ({
            let s = simple_decl_text(id, id2);
            let b = 3 + id.len() as int;
            &&& tok_arrow(s, b + 2) == Ok::<int, ParseFailure>(b + 5)
            &&& tok_type(s, b + 5) == Ok::<(Type, int), ParseFailure>(
                (Type::Primitive(Primitive::Bool), b + 10),
            )
            &&& tok_char(s, b + 10, '=') == Ok::<int, ParseFailure>(b + 12)
            &&& trivia(s, b + 12) == Ok::<int, ParseFailure>(b + 13)
        }),
{
    let s = simple_decl_text(id, id2);
    let b = 3 + id.len() as int;
    lemma_simple_chars(id, id2);
    assert(s[b + 13] == id2[0]);
    lemma_trivia_one_space(s, b + 2);
    lemma_trivia_one_space(s, b + 5);
    assert(s.subrange(b + 6, b + 10) =~= kw_bool());
    lemma_trivia_one_space(s, b + 10);
    lemma_trivia_one_space(s, b + 12);
}

proof fn lemma_simple_not_keyword(id: Seq<char>, id2: Seq<char>, w: Seq<char>)
    requires
        is_plain_name(id),
        is_plain_name(id2),
        id2 != w,
        forall|k: int| 0 <= k < w.len() ==> crate::lexer::is_letter(#[trigger] w[k]),
    ensures
        !keyword_at(simple_decl_text(id, id2), 3 + id.len() as int + 13, w),
{
    let s = simple_decl_text(id, id2);
    let c = 3 + id.len() as int + 13;
    let m = w.len() as int;
    lemma_simple_chars(id, id2);
    if keyword_at(s, c, w) {
        assert forall|k: int| c <= k < c + m implies #[trigger] s[k] != ';' by {
            assert(s.subrange(c, c + m)[k - c] == s[k]);
        }
        assert(id2.len() >= m);
        if id2.len() > m {
            assert(s[c + m] == id2[m]);
        } else {
            assert forall|k: int| 0 <= k < m implies id2[k] == w[k] by {
                assert(s.subrange(c, c + m)[k] == s[c + k]);
            }
            assert(id2 =~= w);
        }
    }
}

proof fn lemma_simple_body_name(id: Seq<char>, id2: Seq<char>)
    requires
        is_plain_name(id),
        is_plain_name(id2),
    ensures
        ({
            let s = simple_decl_text(id, id2);
            let c = 3 + id.len() as int + 13;
            &&& spec_identifier(s, c) == Ok::<int, ParseFailure>(c + id2.len())
            &&& s.subrange(c, c + id2.len()) == id2
            &&& trivia(s, c + id2.len()) == Ok::<int, ParseFailure>(c + id2.len())
            &&& s[c] == id2[0]
            &&& char_at(s, c + id2.len(), ';')
        }),
{
    let s = simple_decl_text(id, id2);
    let c = 3 + id.len() as int + 13;
    let n2 = id2.len() as int;
    lemma_simple_chars(id, id2);
    assert forall|k: int| c <= k < c + n2 implies crate::lexer::is_ident_continue(#[trigger] s[k]) by {
        assert(s[c + (k - c)] == id2[k - c]);
    }
    lemma_ident_run(s, c + 1, c + n2);
    assert(s.subrange(c, c + n2) =~= id2);
    assert(s[c] == id2[0]);
    lemma_trivia_stops(s, c + n2);
}

proof fn lemma_simple_body_no_literal(id: Seq<char>, id2: Seq<char>)
    requires
        is_plain_name(id),
        is_plain_name(id2),
        id2 != kw_true(),
        id2 != kw_false(),
    ensures
        spec_boolean(simple_decl_text(id, id2), 3 + id.len() as int + 13) is Err,
        int_span(simple_decl_text(id, id2), 3 + id.len() as int + 13) is Err,
        float_span(simple_decl_text(id, id2), 3 + id.len() as int + 13) is Err,
{
    let s = simple_decl_text(id, id2);
    let c = 3 + id.len() as int + 13;
    lemma_simple_chars(id, id2);
    lemma_simple_not_keyword(id, id2, kw_true());
    lemma_simple_not_keyword(id, id2, kw_false());
    assert(s[c] == id2[0]);
}

proof fn lemma_simple_body(id: Seq<char>, id2: Seq<char>)
    requires
        is_plain_name(id),
        is_plain_name(id2),
        id2 != kw_true(),
        id2 != kw_false(),
    ensures
        ({
            let s = simple_decl_text(id, id2);
            let c = 3 + id.len() as int + 13;
            &&& spec_expr(s, c) == Ok::<(ExprModel, int), ParseFailure>(
                (ExprModel::Variable(id2), c + id2.len()),
            )
            &&& tok_char(s, c + id2.len(), ';') == Ok::<int, ParseFailure>(c + id2.len() + 1)
        }),
{
    lemma_simple_body_name(id, id2);
    lemma_simple_body_no_literal(id, id2);
}

/// Names are read whole: in `fn <id>() -> bool = <id2>;` the declaration's name
/// is all of `id`, and its body is the variable `id2` (where `id2` is not a
/// boolean keyword), each being the longest identifier at its place.
pub proof fn lemma_names_read_whole(id: Seq<char>, id2: Seq<char>)
    requires
        is_plain_name(id),
        is_plain_name(id2),
        id2 != kw_true(),
        id2 != kw_false(),
    ensures
        spec_parse(simple_decl_text(id, id2)) == Ok::<Seq<DeclModel>, ParseFailure>(
            seq![
                DeclModel {
                    name: id,
                    params: seq![],
                    ret: Type::Primitive(Primitive::Bool),
                    body: ExprModel::Variable(id2),
                },
            ],
        ),
{
    let s = simple_decl_text(id, id2);
    let b = 3 + id.len() as int;
    let c = b + 13;
    lemma_simple_chars(id, id2);
    lemma_simple_keyword(id, id2);
    lemma_simple_name(id, id2);
    lemma_simple_parens(id, id2);
    lemma_simple_signature(id, id2);
    lemma_simple_body(id, id2);
    let m = DeclModel {
        name: id,
        params: seq![],
        ret: Type::Primitive(Primitive::Bool),
        body: ExprModel::Variable(id2),
    };
    assert(spec_decl_tail(s, b + 2) == Ok::<((Type, ExprModel), int), ParseFailure>(
        ((Type::Primitive(Primitive::Bool), ExprModel::Variable(id2)), s.len() as int),
    ));
    assert(spec_fn_decl(s, 0) == Ok::<(DeclModel, int), ParseFailure>((m, s.len() as int)));
    lemma_trivia_stops(s, 0);
    assert(spec_root_from(s, s.len() as int) == Ok::<Seq<DeclModel>, ParseFailure>(seq![]));
    assert(seq![m] + Seq::<DeclModel>::empty() =~= seq![m]);
}

// ---------------------------------------------------------------- digit runs

proof fn lemma_digit_run(s: Seq<char>, i: int, j: int)
    requires
        0 <= i <= j <= s.len(),
        forall|k: int| i <= k < j ==> crate::lexer::is_digit(#[trigger] s[k]),
        j == s.len() || !crate::lexer::is_digit(s[j]),
    ensures
        crate::lexer::digits_end(s, i) == j,
    decreases j - i,
{
    if i < j {
        lemma_digit_run(s, i + 1, j);
    }
}

/// A bare run of digits, not followed by a decimal point, an exponent or a type
/// suffix, is read as an integer literal spanning the run, never as a float:
/// the expression is that integer, or a numeric-conversion failure.
pub proof fn lemma_digit_run_is_integer(s: Seq<char>, pos: int, q: int)
    requires
        0 <= pos < q <= s.len(),
        forall|k: int| pos <= k < q ==> crate::lexer::is_digit(#[trigger] s[k]),
        q == s.len() || !(crate::lexer::is_digit(s[q]) || s[q] == '.' || s[q] == 'e' || s[q]
            == 'E' || s[q] == 'i'),
    ensures
        spec_expr(s, pos) is Ok ==> spec_expr(s, pos) == Ok::<(ExprModel, int), ParseFailure>(
            (ExprModel::Integer(s.subrange(pos, q)), q),
        ),
        spec_expr(s, pos) is Err ==> spec_expr(s, pos)->Err_0.kind
            == FailureKind::NumericConversion,
{
    assert(crate::lexer::is_digit(s[pos]));
    assert(!keyword_at(s, pos, kw_true())) by {
        if keyword_at(s, pos, kw_true()) {
            assert(s.subrange(pos, pos + 4)[0] == s[pos]);
        }
    }
    assert(!keyword_at(s, pos, kw_false())) by {
        if keyword_at(s, pos, kw_false()) {
            assert(s.subrange(pos, pos + 5)[0] == s[pos]);
        }
    }
    lemma_digit_run(s, pos, q);
    assert(!crate::lexer::word_at(s, q, kw_int())) by {
        if crate::lexer::word_at(s, q, kw_int()) {
            assert(s.subrange(q, q + 3)[0] == s[q]);
        }
    }
    assert(int_span(s, pos) == Ok::<int, ParseFailure>(q));
}

} // verus!
