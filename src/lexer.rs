use vstd::prelude::*;
use crate::failure::{Expected, FailureKind, ParseFailure, fail, make_fail, pos_result};

verus! {

/// The characters of `s`, in order.
pub fn chars_of(s: &str) -> (r: Vec<char>)
    ensures
        r@ == s@,
{
    let n = s.unicode_len();
    let mut r: Vec<char> = Vec::new();
    let mut i: usize = 0;
    while i < n
        invariant
            n == s@.len(),
            i <= n,
            r@ == s@.subrange(0, i as int),
        decreases n - i,
    {
        r.push(s.get_char(i));
        i = i + 1;
    }
    assert(r@ =~= s@);
    r
}

// ---------------------------------------------------------------- classes

pub open spec fn is_ws(c: char) -> bool {
    c == ' ' || c == '\t' || c == '\n' || c == '\r'
}

/// Punctuation and whitespace that delimit tokens.
pub open spec fn is_separator(c: char) -> bool {
    is_ws(c) || c == ',' || c == ';' || c == ':' || c == '.' || c == '<' || c == '>'
        || c == '{' || c == '}' || c == '[' || c == ']' || c == '(' || c == ')' || c == '+'
        || c == '-' || c == '%' || c == '*' || c == '/' || c == '=' || c == '^' || c == '?'
        || c == '"' || c == '\''
}

pub open spec fn is_letter(c: char) -> bool {
    ('a' <= c && c <= 'z') || ('A' <= c && c <= 'Z')
}

pub open spec fn is_digit(c: char) -> bool {
    '0' <= c && c <= '9'
}

pub open spec fn is_ident_start(c: char) -> bool {
    is_letter(c) || c == '_'
}

pub open spec fn is_ident_continue(c: char) -> bool {
    is_ident_start(c) || is_digit(c)
}

pub fn ws_char(c: char) -> (r: bool)
    ensures
        r == is_ws(c),
{
    c == ' ' || c == '\t' || c == '\n' || c == '\r'
}

pub fn separator_char(c: char) -> (r: bool)
    ensures
        r == is_separator(c),
{
    ws_char(c) || c == ',' || c == ';' || c == ':' || c == '.' || c == '<' || c == '>' || c
        == '{' || c == '}' || c == '[' || c == ']' || c == '(' || c == ')' || c == '+' || c
        == '-' || c == '%' || c == '*' || c == '/' || c == '=' || c == '^' || c == '?' || c
        == '"' || c == '\''
}

pub fn ident_start_char(c: char) -> (r: bool)
    ensures
        r == is_ident_start(c),
{
    ('a' <= c && c <= 'z') || ('A' <= c && c <= 'Z') || c == '_'
}

pub fn ident_continue_char(c: char) -> (r: bool)
    ensures
        r == is_ident_continue(c),
{
    ident_start_char(c) || ('0' <= c && c <= '9')
}

pub fn digit_char(c: char) -> (r: bool)
    ensures
        r == is_digit(c),
{
    '0' <= c && c <= '9'
}

/// Whether `s` holds `c` at index `i`.
pub open spec fn char_at(s: Seq<char>, i: int, c: char) -> bool {
    0 <= i < s.len() && s[i] == c
}

pub fn has_char_at(s: &Vec<char>, i: usize, c: char) -> (r: bool)
    ensures
        r == char_at(s@, i as int, c),
{
    i < s.len() && s[i] == c
}

// ---------------------------------------------------------------- trivia

/// Where the trivia scanner stands: in code, in a line comment, or in a block comment.
pub enum TriviaMode {
    Code,
    Line,
    Block,
}

/// The end of the whitespace and comments starting at `pos` in `mode`; a block
/// comment without its closing marker is a failure at the end of input.
pub open spec fn trivia_from(s: Seq<char>, pos: int, mode: TriviaMode) -> Result<int, ParseFailure>
    decreases s.len() - pos,
{
    if pos < 0 || pos > s.len() {
        Ok(pos)
    } else {
        match mode {
            TriviaMode::Code => {
                if pos >= s.len() {
                    Ok(pos)
                } else if is_ws(s[pos]) {
                    trivia_from(s, pos + 1, TriviaMode::Code)
                } else if char_at(s, pos, '/') && char_at(s, pos + 1, '/') {
                    trivia_from(s, pos + 2, TriviaMode::Line)
                } else if char_at(s, pos, '/') && char_at(s, pos + 1, '*') {
                    trivia_from(s, pos + 2, TriviaMode::Block)
                } else {
                    Ok(pos)
                }
            },
            TriviaMode::Line => {
                if pos >= s.len() {
                    Ok(pos)
                } else if s[pos] == '\n' {
                    trivia_from(s, pos + 1, TriviaMode::Code)
                } else {
                    trivia_from(s, pos + 1, TriviaMode::Line)
                }
            },
            TriviaMode::Block => {
                if pos + 1 >= s.len() {
                    Err(fail(s.len() as int, FailureKind::Syntactic, Expected::CommentEnd))
                } else if s[pos] == '*' && s[pos + 1] == '/' {
                    trivia_from(s, pos + 2, TriviaMode::Code)
                } else {
                    trivia_from(s, pos + 1, TriviaMode::Block)
                }
            },
        }
    }
}

pub open spec fn trivia(s: Seq<char>, pos: int) -> Result<int, ParseFailure> {
    trivia_from(s, pos, TriviaMode::Code)
}

/// The index of the first line break at or after `i`, or the end of input.
pub open spec fn line_end(s: Seq<char>, i: int) -> int
    decreases s.len() - i,
{
    if 0 <= i < s.len() && s[i] != '\n' {
        line_end(s, i + 1)
    } else {
        i
    }
}

/// The index of the first `*/` at or after `i`, if there is one.
pub open spec fn block_close(s: Seq<char>, i: int) -> Option<int>
    decreases s.len() - i,
{
    if i < 0 || i + 1 >= s.len() {
        None
    } else if s[i] == '*' && s[i + 1] == '/' {
        Some(i)
    } else {
        block_close(s, i + 1)
    }
}

/// A comment at `pos`: the start and end of its text, and the end of the comment.
/// A line comment runs to the line break (not included) or the end of input; a
/// block comment runs to the first `*/`, and without one it is a failure.
pub open spec fn spec_comment(s: Seq<char>, pos: int) -> Result<(int, int, int), ParseFailure> {
    if char_at(s, pos, '/') && char_at(s, pos + 1, '/') {
        Ok((pos + 2, line_end(s, pos + 2), line_end(s, pos + 2)))
    } else if char_at(s, pos, '/') && char_at(s, pos + 1, '*') {
        match block_close(s, pos + 2) {
            Some(j) => Ok((pos + 2, j, j + 2)),
            None => Err(fail(s.len() as int, FailureKind::Syntactic, Expected::CommentEnd)),
        }
    } else {
        Err(fail(pos, FailureKind::Lexical, Expected::Comment))
    }
}

proof fn lemma_line_comment_trivia(s: Seq<char>, i: int)
    requires
        0 <= i <= s.len(),
    ensures
        i <= line_end(s, i) <= s.len(),
        trivia_from(s, i, TriviaMode::Line) == trivia(s, line_end(s, i)),
    decreases s.len() - i,
{
    if i < s.len() && s[i] != '\n' {
        lemma_line_comment_trivia(s, i + 1);
    }
}

proof fn lemma_block_comment_trivia(s: Seq<char>, i: int)
    requires
        0 <= i <= s.len(),
    ensures
        block_close(s, i) is Some ==> i <= block_close(s, i)->Some_0 && block_close(s, i)->Some_0
            + 2 <= s.len() && trivia_from(s, i, TriviaMode::Block) == trivia(
            s,
            block_close(s, i)->Some_0 + 2,
        ),
        block_close(s, i) is None ==> trivia_from(s, i, TriviaMode::Block) == Err::<int, ParseFailure>(
            fail(s.len() as int, FailureKind::Syntactic, Expected::CommentEnd),
        ),
    decreases s.len() - i,
{
    if i + 1 < s.len() && !(s[i] == '*' && s[i + 1] == '/') {
        lemma_block_comment_trivia(s, i + 1);
    }
}

/// Comments are transparent: skipping whitespace and comments from the start of
/// a comment ends where skipping from the end of that comment ends, so the
/// tokens before and after it are the same as without it.
pub proof fn lemma_comment_transparent(s: Seq<char>, pos: int)
    requires
        0 <= pos <= s.len(),
        spec_comment(s, pos) is Ok,
    ensures
        trivia(s, pos) == trivia(s, spec_comment(s, pos)->Ok_0.2),
{
    if char_at(s, pos, '/') && char_at(s, pos + 1, '/') {
        lemma_line_comment_trivia(s, pos + 2);
    } else {
        lemma_block_comment_trivia(s, pos + 2);
    }
}

pub proof fn lemma_trivia_bounds(s: Seq<char>, pos: int, mode: TriviaMode)
    requires
        0 <= pos <= s.len(),
    ensures
        trivia_from(s, pos, mode) is Ok ==> pos <= trivia_from(s, pos, mode)->Ok_0 <= s.len(),
    decreases s.len() - pos,
{
    match mode {
        TriviaMode::Code => {
            if pos < s.len() {
                if is_ws(s[pos]) {
                    lemma_trivia_bounds(s, pos + 1, TriviaMode::Code);
                } else if char_at(s, pos, '/') && char_at(s, pos + 1, '/') {
                    lemma_trivia_bounds(s, pos + 2, TriviaMode::Line);
                } else if char_at(s, pos, '/') && char_at(s, pos + 1, '*') {
                    lemma_trivia_bounds(s, pos + 2, TriviaMode::Block);
                }
            }
        },
        TriviaMode::Line => {
            if pos < s.len() {
                if s[pos] == '\n' {
                    lemma_trivia_bounds(s, pos + 1, TriviaMode::Code);
                } else {
                    lemma_trivia_bounds(s, pos + 1, TriviaMode::Line);
                }
            }
        },
        TriviaMode::Block => {
            if pos + 1 < s.len() {
                if s[pos] == '*' && s[pos + 1] == '/' {
                    lemma_trivia_bounds(s, pos + 2, TriviaMode::Code);
                } else {
                    lemma_trivia_bounds(s, pos + 1, TriviaMode::Block);
                }
            }
        },
    }
}

/// Skips whitespace and comments from `pos`.
pub fn skip_trivia(s: &Vec<char>, pos: usize) -> (r: Result<usize, ParseFailure>)
    requires
        pos <= s.len(),
    ensures
        pos_result(r) == trivia(s@, pos as int),
        r is Ok ==> pos <= r->Ok_0 <= s.len(),
{
    proof {
        lemma_trivia_bounds(s@, pos as int, TriviaMode::Code);
    }
    let n = s.len();
    let mut i = pos;
    let mut mode = TriviaMode::Code;
    loop
        invariant
            n == s@.len(),
            i <= n,
            pos <= i,
            trivia_from(s@, i as int, mode) == trivia(s@, pos as int),
            trivia(s@, pos as int) is Ok ==> pos <= trivia(s@, pos as int)->Ok_0 <= n,
        decreases n - i,
    {
        match mode {
            TriviaMode::Code => {
                if i >= n {
                    return Ok(i);
                } else if ws_char(s[i]) {
                    i = i + 1;
                } else if has_char_at(s, i, '/') && has_char_at(s, i + 1, '/') {
                    i = i + 2;
                    mode = TriviaMode::Line;
                } else if has_char_at(s, i, '/') && has_char_at(s, i + 1, '*') {
                    i = i + 2;
                    mode = TriviaMode::Block;
                } else {
                    return Ok(i);
                }
            },
            TriviaMode::Line => {
                if i >= n {
                    return Ok(i);
                } else if s[i] == '\n' {
                    i = i + 1;
                    mode = TriviaMode::Code;
                } else {
                    i = i + 1;
                }
            },
            TriviaMode::Block => {
                if n - i <= 1 {
                    return Err(make_fail(n, FailureKind::Syntactic, Expected::CommentEnd));
                } else if s[i] == '*' && s[i + 1] == '/' {
                    i = i + 2;
                    mode = TriviaMode::Code;
                } else {
                    i = i + 1;
                }
            },
        }
    }
}

/// A successful rule result with its end read as a mathematical position.
pub open spec fn lift<T>(r: Result<(T, usize), ParseFailure>) -> Result<(T, int), ParseFailure> {
    match r {
        Ok((v, p)) => Ok((v, p as int)),
        Err(e) => Err(e),
    }
}

// ---------------------------------------------------------------- runs

/// The end of the run of identifier-continue characters starting at `i`.
pub open spec fn ident_end(s: Seq<char>, i: int) -> int
    decreases s.len() - i,
{
    if 0 <= i < s.len() && is_ident_continue(s[i]) {
        ident_end(s, i + 1)
    } else {
        i
    }
}

/// The end of the run of decimal digits starting at `i`.
pub open spec fn digits_end(s: Seq<char>, i: int) -> int
    decreases s.len() - i,
{
    if 0 <= i < s.len() && is_digit(s[i]) {
        digits_end(s, i + 1)
    } else {
        i
    }
}

pub proof fn lemma_ident_end(s: Seq<char>, i: int)
    requires
        0 <= i <= s.len(),
    ensures
        i <= ident_end(s, i) <= s.len(),
        forall|k: int| i <= k < ident_end(s, i) ==> is_ident_continue(#[trigger] s[k]),
        ident_end(s, i) == s.len() || !is_ident_continue(s[ident_end(s, i)]),
    decreases s.len() - i,
{
    if i < s.len() && is_ident_continue(s[i]) {
        lemma_ident_end(s, i + 1);
    }
}

pub proof fn lemma_digits_end(s: Seq<char>, i: int)
    requires
        0 <= i <= s.len(),
    ensures
        i <= digits_end(s, i) <= s.len(),
        forall|k: int| i <= k < digits_end(s, i) ==> is_digit(#[trigger] s[k]),
        digits_end(s, i) == s.len() || !is_digit(s[digits_end(s, i)]),
    decreases s.len() - i,
{
    if i < s.len() && is_digit(s[i]) {
        lemma_digits_end(s, i + 1);
    }
}

pub fn scan_ident_end(s: &Vec<char>, pos: usize) -> (r: usize)
    requires
        pos <= s.len(),
    ensures
        r == ident_end(s@, pos as int),
{
    proof {
        lemma_ident_end(s@, pos as int);
    }
    let mut i = pos;
    while i < s.len() && ident_continue_char(s[i])
        invariant
            pos <= i <= s.len(),
            ident_end(s@, i as int) == ident_end(s@, pos as int),
        decreases s.len() - i,
    {
        i = i + 1;
    }
    i
}

pub fn scan_digits_end(s: &Vec<char>, pos: usize) -> (r: usize)
    requires
        pos <= s.len(),
    ensures
        r == digits_end(s@, pos as int),
{
    proof {
        lemma_digits_end(s@, pos as int);
    }
    let mut i = pos;
    while i < s.len() && digit_char(s[i])
        invariant
            pos <= i <= s.len(),
            digits_end(s@, i as int) == digits_end(s@, pos as int),
        decreases s.len() - i,
    {
        i = i + 1;
    }
    i
}

// ---------------------------------------------------------------- identifiers

/// An identifier: one identifier-start character, then the maximal run of
/// identifier-continue characters. The result is the end of the token.
pub open spec fn spec_identifier(s: Seq<char>, pos: int) -> Result<int, ParseFailure> {
    if 0 <= pos < s.len() && is_ident_start(s[pos]) {
        Ok(ident_end(s, pos + 1))
    } else {
        Err(fail(pos, FailureKind::Lexical, Expected::Identifier))
    }
}

pub fn scan_identifier(s: &Vec<char>, pos: usize) -> (r: Result<usize, ParseFailure>)
    requires
        pos <= s.len(),
    ensures
        pos_result(r) == spec_identifier(s@, pos as int),
        r is Ok ==> pos < r->Ok_0 <= s.len(),
{
    if pos < s.len() && ident_start_char(s[pos]) {
        proof {
            lemma_ident_end(s@, pos + 1);
        }
        Ok(scan_ident_end(s, pos + 1))
    } else {
        Err(make_fail(pos, FailureKind::Lexical, Expected::Identifier))
    }
}

/// The identifier scanner takes exactly the longest prefix made of an
/// identifier-start character and identifier-continue characters, and no
/// character after it.
pub proof fn lemma_identifier_maximal(s: Seq<char>, pos: int)
    requires
        0 <= pos < s.len(),
        is_ident_start(s[pos]),
    ensures
        spec_identifier(s, pos) is Ok,
        pos < spec_identifier(s, pos)->Ok_0 <= s.len(),
        forall|k: int|
            pos < k < spec_identifier(s, pos)->Ok_0 ==> is_ident_continue(#[trigger] s[k]),
        spec_identifier(s, pos)->Ok_0 == s.len() || !is_ident_continue(
            s[spec_identifier(s, pos)->Ok_0],
        ),
{
    lemma_ident_end(s, pos + 1);
}

// ---------------------------------------------------------------- fixed words

/// Whether `w` occurs in `s` at `pos`.
pub open spec fn word_at(s: Seq<char>, pos: int, w: Seq<char>) -> bool {
    0 <= pos && pos + w.len() <= s.len() && s.subrange(pos, pos + w.len()) == w
}

/// Whether `w` occurs at `pos` as a whole word: no identifier character follows it.
pub open spec fn keyword_at(s: Seq<char>, pos: int, w: Seq<char>) -> bool {
    word_at(s, pos, w) && !(pos + w.len() < s.len() && is_ident_continue(s[pos + w.len()]))
}

pub fn match_word(s: &Vec<char>, pos: usize, w: &Vec<char>) -> (r: bool)
    requires
        pos <= s.len(),
    ensures
        r == word_at(s@, pos as int, w@),
{
    let m = w.len();
    if m > s.len() - pos {
        return false;
    }
    let mut k: usize = 0;
    while k < m
        invariant
            m == w@.len(),
            pos + m <= s.len(),
            k <= m,
            forall|j: int| 0 <= j < k ==> s@[pos + j] == w@[j],
        decreases m - k,
    {
        if s[pos + k] != w[k] {
            proof {
                assert(s@.subrange(pos as int, pos + m)[k as int] != w@[k as int]);
            }
            return false;
        }
        k = k + 1;
    }
    assert(s@.subrange(pos as int, pos + m) =~= w@);
    true
}

pub fn match_keyword(s: &Vec<char>, pos: usize, w: &Vec<char>) -> (r: bool)
    requires
        pos <= s.len(),
    ensures
        r == keyword_at(s@, pos as int, w@),
{
    if !match_word(s, pos, w) {
        return false;
    }
    let e = pos + w.len();
    !(e < s.len() && ident_continue_char(s[e]))
}

// ---------------------------------------------------------------- keywords

pub open spec fn kw_true() -> Seq<char> {
    seq!['t', 'r', 'u', 'e']
}

pub open spec fn kw_false() -> Seq<char> {
    seq!['f', 'a', 'l', 's', 'e']
}

pub open spec fn kw_fn() -> Seq<char> {
    seq!['f', 'n']
}

pub open spec fn kw_bool() -> Seq<char> {
    seq!['b', 'o', 'o', 'l']
}

/// The keyword of the 32-bit integer type, also the integer literal suffix.
pub open spec fn kw_int() -> Seq<char> {
    seq!['i', '3', '2']
}

/// The keyword of the 32-bit float type, also the float literal suffix.
pub open spec fn kw_float() -> Seq<char> {
    seq!['f', '3', '2']
}

pub fn kw_true_chars() -> (r: Vec<char>)
    ensures
        r@ == kw_true(),
{
    let r = vec!['t', 'r', 'u', 'e'];
    assert(r@ =~= kw_true());
    r
}

pub fn kw_false_chars() -> (r: Vec<char>)
    ensures
        r@ == kw_false(),
{
    let r = vec!['f', 'a', 'l', 's', 'e'];
    assert(r@ =~= kw_false());
    r
}

pub fn kw_fn_chars() -> (r: Vec<char>)
    ensures
        r@ == kw_fn(),
{
    let r = vec!['f', 'n'];
    assert(r@ =~= kw_fn());
    r
}

pub fn kw_bool_chars() -> (r: Vec<char>)
    ensures
        r@ == kw_bool(),
{
    let r = vec!['b', 'o', 'o', 'l'];
    assert(r@ =~= kw_bool());
    r
}

pub fn kw_int_chars() -> (r: Vec<char>)
    ensures
        r@ == kw_int(),
{
    let r = vec!['i', '3', '2'];
    assert(r@ =~= kw_int());
    r
}

pub fn kw_float_chars() -> (r: Vec<char>)
    ensures
        r@ == kw_float(),
{
    let r = vec!['f', '3', '2'];
    assert(r@ =~= kw_float());
    r
}

// ---------------------------------------------------------------- booleans

/// A boolean literal: the keyword `true` or `false`.
pub open spec fn spec_boolean(s: Seq<char>, pos: int) -> Result<(bool, int), ParseFailure> {
    if keyword_at(s, pos, kw_true()) {
        Ok((true, pos + 4))
    } else if keyword_at(s, pos, kw_false()) {
        Ok((false, pos + 5))
    } else {
        Err(fail(pos, FailureKind::Syntactic, Expected::Boolean))
    }
}

pub fn scan_boolean(s: &Vec<char>, pos: usize) -> (r: Result<(bool, usize), ParseFailure>)
    requires
        pos <= s.len(),
    ensures
        lift(r) == spec_boolean(s@, pos as int),
        r is Ok ==> pos < r->Ok_0.1 <= s.len(),
{
    if match_keyword(s, pos, &kw_true_chars()) {
        Ok((true, pos + 4))
    } else if match_keyword(s, pos, &kw_false_chars()) {
        Ok((false, pos + 5))
    } else {
        Err(make_fail(pos, FailureKind::Syntactic, Expected::Boolean))
    }
}

/// Scans the comment at `pos`.
pub fn scan_comment(s: &Vec<char>, pos: usize) -> (r: Result<(usize, usize, usize), ParseFailure>)
    requires
        pos <= s.len(),
    ensures
        match (r, spec_comment(s@, pos as int)) {
            (Ok((a, b, e)), Ok((a2, b2, e2))) => a == a2 && b == b2 && e == e2,
            (Err(f), Err(f2)) => f == f2,
            _ => false,
        },
        r is Ok ==> pos <= r->Ok_0.0 <= r->Ok_0.1 <= r->Ok_0.2 <= s.len(),
{
    let n = s.len();
    if has_char_at(s, pos, '/') && has_char_at(s, pos + 1, '/') {
        let mut i = pos + 2;
        while i < n && s[i] != '\n'
            invariant
                pos + 2 <= i <= n == s.len(),
                line_end(s@, i as int) == line_end(s@, pos + 2),
            decreases n - i,
        {
            i = i + 1;
        }
        Ok((pos + 2, i, i))
    } else if has_char_at(s, pos, '/') && has_char_at(s, pos + 1, '*') {
        let mut i = pos + 2;
        loop
            invariant
                pos + 2 <= i <= n == s.len(),
                block_close(s@, i as int) == block_close(s@, pos + 2),
                char_at(s@, pos as int, '/') && char_at(s@, pos + 1, '*'),
            decreases n - i,
        {
            if n - i <= 1 {
                assert(block_close(s@, i as int) is None);
                return Err(make_fail(n, FailureKind::Syntactic, Expected::CommentEnd));
            }
            if s[i] == '*' && s[i + 1] == '/' {
                assert(block_close(s@, i as int) == Some(i as int));
                return Ok((pos + 2, i, i + 2));
            }
            i = i + 1;
        }
    } else {
        Err(make_fail(pos, FailureKind::Lexical, Expected::Comment))
    }
}

} // verus!
