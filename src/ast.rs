use vstd::prelude::*;
use crate::lexer::{
    chars_of, ident_continue_char, ident_start_char, is_ident_continue, is_ident_start, kw_bool,
    kw_bool_chars, kw_float, kw_float_chars, kw_int, kw_int_chars, lemma_ident_end, match_word,
    spec_identifier,
};

verus! {

/// Whether `c` has the Unicode Alphabetic property.
pub uninterp spec fn alphabetic(c: char) -> bool;

/// Whether `c` has the Unicode Alphabetic or Numeric property.
pub uninterp spec fn alphanumeric(c: char) -> bool;

/// Relies on `char::is_alphabetic`: whether `c` has the Alphabetic property.
#[verifier::external_body]
fn alphabetic_char(c: char) -> (r: bool)
    ensures
        r == alphabetic(c),
{
    c.is_alphabetic()
}

/// Relies on `char::is_alphanumeric`: whether `c` is Alphabetic or Numeric.
#[verifier::external_body]
fn alphanumeric_char(c: char) -> (r: bool)
    ensures
        r == alphanumeric(c),
{
    c.is_alphanumeric()
}

/// A character that may begin a name: an alphabetic character, or an
/// identifier-start character of the scanner (which adds the underscore).
pub open spec fn is_name_start(c: char) -> bool {
    alphabetic(c) || is_ident_start(c)
}

/// A character that may continue a name: an alphanumeric character, or an
/// identifier-continue character of the scanner.
pub open spec fn is_name_continue(c: char) -> bool {
    alphanumeric(c) || is_ident_continue(c)
}

/// Whether `s` is a legal name: a name-start character, then name-continue
/// characters. Every identifier that the scanner takes is legal; since the
/// scanner takes underscores anywhere, so does this rule, and a name made of
/// underscores alone, such as `_`, is legal too.
pub open spec fn is_ident_name(s: Seq<char>) -> bool {
    s.len() > 0 && is_name_start(s[0]) && forall|k: int|
        1 <= k < s.len() ==> is_name_continue(#[trigger] s[k])
}

/// The token that the identifier scanner takes is a legal name.
pub proof fn lemma_scanned_ident_legal(s: Seq<char>, pos: int)
    requires
        0 <= pos <= s.len(),
        spec_identifier(s, pos) is Ok,
    ensures
        pos < spec_identifier(s, pos)->Ok_0 <= s.len(),
        is_ident_name(s.subrange(pos, spec_identifier(s, pos)->Ok_0)),
{
    lemma_ident_end(s, pos + 1);
    let w = s.subrange(pos, spec_identifier(s, pos)->Ok_0);
    assert forall|k: int| 1 <= k < w.len() implies is_name_continue(#[trigger] w[k]) by {
        assert(w[k] == s[pos + k]);
    }
}

/// Relies on `String::push`: it appends one character.
#[verifier::external_body]
pub(crate) fn push_char(s: &mut String, c: char)
    ensures
        final(s)@ == old(s)@.push(c),
{
    s.push(c)
}

/// The characters `from..to` of `s` as a `String`.
pub fn text_of(s: &Vec<char>, from: usize, to: usize) -> (r: String)
    requires
        from <= to <= s.len(),
    ensures
        r@ == s@.subrange(from as int, to as int),
{
    let mut r = String::new();
    let mut i = from;
    while i < to
        invariant
            from <= i <= to <= s.len(),
            r@ == s@.subrange(from as int, i as int),
        decreases to - i,
    {
        push_char(&mut r, s[i]);
        assert(s@.subrange(from as int, i + 1) =~= s@.subrange(from as int, i as int).push(s@[i as int]));
        i = i + 1;
    }
    r
}

/// A name, always legal (see `is_ident_name`).
#[derive(Debug, PartialEq, Eq, Hash)]
pub struct Ident(pub String);

impl Ident {
    /// The identifier with the given name, which must be legal.
    pub fn new(name: String) -> (r: Self)
        requires
            is_ident_name(name@),
        ensures
            r.0@ == name@,
    {
        Ident(name)
    }

    /// The identifier with the given name, or `None` where the name is not legal.
    pub fn try_new(name: String) -> (r: Option<Self>)
        ensures
            r is Some <==> is_ident_name(name@),
            r is Some ==> r->Some_0.0@ == name@,
    {
        let cs = chars_of(name.as_str());
        if cs.len() == 0 || !(alphabetic_char(cs[0]) || ident_start_char(cs[0])) {
            return None;
        }
        let mut i: usize = 1;
        while i < cs.len()
            invariant
                cs@ == name@,
                1 <= i <= cs.len(),
                forall|k: int| 1 <= k < i ==> is_name_continue(#[trigger] cs@[k]),
            decreases cs.len() - i,
        {
            if !(alphanumeric_char(cs[i]) || ident_continue_char(cs[i])) {
                return None;
            }
            i = i + 1;
        }
        Some(Ident(name))
    }

    pub open spec fn view(&self) -> Seq<char> {
        self.0@
    }
}

/// The primitive types.
#[derive(Debug, Clone, Copy, PartialEq, Eq, Structural)]
pub enum Primitive {
    Bool,
    I32,
    F32,
}

/// The primitive type that the keyword `s` names.
pub open spec fn primitive_named(s: Seq<char>) -> Option<Primitive> {
    if s == kw_bool() {
        Some(Primitive::Bool)
    } else if s == kw_int() {
        Some(Primitive::I32)
    } else if s == kw_float() {
        Some(Primitive::F32)
    } else {
        None
    }
}

impl Primitive {
    /// The primitive type named by `s`, if any.
    pub fn from_keyword(s: &str) -> (r: Option<Primitive>)
        ensures
            r == primitive_named(s@),
    {
        let cs = chars_of(s);
        if cs.len() == 4 && match_word(&cs, 0, &kw_bool_chars()) {
            assert(cs@ =~= kw_bool());
            Some(Primitive::Bool)
        } else if cs.len() == 3 && match_word(&cs, 0, &kw_int_chars()) {
            assert(cs@ =~= kw_int());
            Some(Primitive::I32)
        } else if cs.len() == 3 && match_word(&cs, 0, &kw_float_chars()) {
            assert(cs@ =~= kw_float());
            Some(Primitive::F32)
        } else {
            assert(cs@ != kw_bool() && cs@ != kw_int() && cs@ != kw_float()) by {
                if cs@ == kw_bool() {
                    assert(cs@.subrange(0, 4) =~= cs@);
                }
                if cs@ == kw_int() {
                    assert(cs@.subrange(0, 3) =~= cs@);
                }
                if cs@ == kw_float() {
                    assert(cs@.subrange(0, 3) =~= cs@);
                }
            }
            None
        }
    }
}

impl std::str::FromStr for Primitive {
    type Err = String;

    fn from_str(other: &str) -> (r: Result<Self, Self::Err>)
        ensures
            primitive_named(other@) is Some ==> r == Ok::<Primitive, String>(
                primitive_named(other@)->Some_0,
            ),
            primitive_named(other@) is None ==> r is Err && r->Err_0@ == "No primitive type '"@
                + other@ + "' found."@,
    {
        match Primitive::from_keyword(other) {
            Some(p) => Ok(p),
            None => {
                let mut message = <String as vstd::string::StringExecFns>::from_str("No primitive type '");
                message.append(other);
                message.append("' found.");
                Err(message)
            },
        }
    }
}

/// A function type: parameter types and a return type.
#[derive(Debug, PartialEq, Eq)]
pub struct TypeFunction {
    pub args: Vec<Type>,
    pub return_ty: Box<Type>,
}

/// A named, possibly generic, type.
#[derive(Debug, PartialEq, Eq)]
pub struct TypeCustom {
    pub name: String,
    pub generics: Vec<String>,
}

#[derive(Debug, PartialEq, Eq)]
pub enum Type {
    Primitive(Primitive),
    Function(TypeFunction),
    Custom(TypeCustom),
}

/// A function's name with its type.
#[derive(Debug, PartialEq, Eq)]
pub struct FnHeader {
    pub ident: Ident,
    pub ty: TypeFunction,
}

/// A typed binding, such as a parameter.
#[derive(Debug, PartialEq, Eq)]
pub struct Variable {
    pub ident: Ident,
    pub ty: Type,
}

/// A call: the callee and `(argument name, value name)` pairs.
#[derive(Debug, PartialEq, Eq)]
pub struct FnCall {
    pub ident: Ident,
    pub args: Vec<(Ident, Ident)>,
}

/// A literal; integers and floats keep their lexeme.
#[derive(Debug, PartialEq, Eq)]
pub enum Literal {
    Boolean(bool),
    Float(String),
    Integer(String),
}

#[derive(Debug, PartialEq, Eq)]
pub enum Expr {
    Literal(Literal),
    Variable(Ident),
    FnCall(FnCall),
}

/// A function declaration.
#[derive(Debug, PartialEq, Eq)]
pub struct FnDecl {
    pub ident: Ident,
    pub args: Vec<Variable>,
    pub return_ty: Type,
    pub body: Expr,
}

#[derive(Debug, PartialEq, Eq)]
pub enum Item {
    FnDecl(FnDecl),
}

/// A whole program.
#[derive(Debug, PartialEq, Eq)]
pub struct Root {
    pub items: Vec<Item>,
}

// ---------------------------------------------------------------- models

/// The mathematical value of an expression.
pub enum ExprModel {
    Boolean(bool),
    Integer(Seq<char>),
    Float(Seq<char>),
    Variable(Seq<char>),
    Call(Seq<char>, Seq<(Seq<char>, Seq<char>)>),
}

/// The mathematical value of a declaration.
pub struct DeclModel {
    pub name: Seq<char>,
    pub params: Seq<(Seq<char>, Type)>,
    pub ret: Type,
    pub body: ExprModel,
}

pub open spec fn arg_model(a: (Ident, Ident)) -> (Seq<char>, Seq<char>) {
    (a.0@, a.1@)
}

pub open spec fn param_model(v: Variable) -> (Seq<char>, Type) {
    (v.ident@, v.ty)
}

impl Expr {
    pub open spec fn model(&self) -> ExprModel {
        match self {
            Expr::Literal(Literal::Boolean(b)) => ExprModel::Boolean(*b),
            Expr::Literal(Literal::Integer(t)) => ExprModel::Integer(t@),
            Expr::Literal(Literal::Float(t)) => ExprModel::Float(t@),
            Expr::Variable(i) => ExprModel::Variable(i@),
            Expr::FnCall(c) => ExprModel::Call(c.ident@, c.args@.map_values(|a| arg_model(a))),
        }
    }
}

impl FnDecl {
    pub open spec fn model(&self) -> DeclModel {
        DeclModel {
            name: self.ident@,
            params: self.args@.map_values(|v| param_model(v)),
            ret: self.return_ty,
            body: self.body.model(),
        }
    }
}

impl Item {
    pub open spec fn model(&self) -> DeclModel {
        match self {
            Item::FnDecl(d) => d.model(),
        }
    }
}

impl Root {
    pub open spec fn model(&self) -> Seq<DeclModel> {
        self.items@.map_values(|i: Item| i.model())
    }
}

} // verus!
