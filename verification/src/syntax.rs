//! The concrete syntax of macro PEG grammars, as a mathematical function from
//! source characters to grammars or errors.
//!
//! Every reading function takes the source `s` and a cursor `c` (index, zero-based
//! line and column) and gives either a value with the cursor after it, or the
//! error that ends the parse.  The functions of one recursive group carry guards
//! (`moved`, `advanced`) on the cursors that inner calls hand back; the guards
//! make the termination of the recursion evident, and the lemmas at the end of
//! this file show that every call meets them, so no parse ever takes the
//! guarded-out branch.
use crate::ast::{CharClassElement, Position, SExpr, SGrammar, SParseError, SRule};
use crate::ast;
use vstd::prelude::*;

verus! {

/// A place in the source: an index into its characters, with the zero-based
/// line and column of that index.
pub struct SCursor {
    pub idx: nat,
    pub line: nat,
    pub column: nat,
}

/// The result of reading a `T` at some cursor.
pub type PRes<T> = Result<(T, SCursor), SParseError>;

pub open spec fn start_cursor() -> SCursor {
    SCursor { idx: 0, line: 0, column: 0 }
}

/// The zero-based line of index `i`: the number of line breaks before it.
pub open spec fn line_of(s: Seq<char>, i: nat) -> nat
    decreases i,
{
    if i == 0 || i > s.len() {
        0
    } else if s[i - 1] == '\n' {
        line_of(s, (i - 1) as nat) + 1
    } else {
        line_of(s, (i - 1) as nat)
    }
}

/// The zero-based column of index `i`: the number of characters since the
/// last line break before it.
pub open spec fn column_of(s: Seq<char>, i: nat) -> nat
    decreases i,
{
    if i == 0 || i > s.len() {
        0
    } else if s[i - 1] == '\n' {
        0
    } else {
        column_of(s, (i - 1) as nat) + 1
    }
}

/// `p` is the line and column of some place in the source.
pub open spec fn placed(s: Seq<char>, p: Position) -> bool {
    exists|i: nat|
        i <= s.len() && #[trigger] line_of(s, i) as usize == p.line && column_of(s, i) as usize
            == p.column
}

/// An error, if `r` is one, is placed in the source.
pub open spec fn err_placed<T>(s: Seq<char>, r: Result<T, SParseError>) -> bool {
    r matches Err(e) ==> placed(s, e.pos)
}

/// The index lies within the source, and line and column are those of the
/// index (and so within it).
pub open spec fn wf(s: Seq<char>, c: SCursor) -> bool {
    &&& c.idx <= s.len()
    &&& c.line <= c.idx
    &&& c.column <= c.idx
    &&& c.line == line_of(s, c.idx)
    &&& c.column == column_of(s, c.idx)
}

/// `b` lies at or after `a`, within the source.
pub open spec fn moved(s: Seq<char>, a: SCursor, b: SCursor) -> bool {
    a.idx <= b.idx <= s.len()
}

/// `b` lies strictly after `a`, within the source.
pub open spec fn advanced(s: Seq<char>, a: SCursor, b: SCursor) -> bool {
    a.idx < b.idx <= s.len()
}

pub open spec fn pos_of(c: SCursor) -> Position {
    Position { line: c.line as usize, column: c.column as usize }
}

pub open spec fn error_at(c: SCursor, message: Seq<char>) -> SParseError {
    SParseError { pos: pos_of(c), message }
}

/// The error of a guarded-out branch; no parse produces it.
pub open spec fn stalled(c: SCursor) -> SParseError {
    error_at(c, Seq::empty())
}

pub open spec fn peek(s: Seq<char>, c: SCursor) -> Option<char> {
    if c.idx < s.len() {
        Some(s[c.idx as int])
    } else {
        None
    }
}

pub open spec fn peek_next(s: Seq<char>, c: SCursor) -> Option<char> {
    if c.idx + 1 < s.len() {
        Some(s[c.idx + 1int])
    } else {
        None
    }
}

/// The cursor after the character under `c`: a newline starts the next line.
pub open spec fn step(s: Seq<char>, c: SCursor) -> SCursor {
    if c.idx < s.len() {
        if s[c.idx as int] == '\n' {
            SCursor { idx: c.idx + 1, line: c.line + 1, column: 0 }
        } else {
            SCursor { idx: c.idx + 1, line: c.line, column: c.column + 1 }
        }
    } else {
        c
    }
}

pub open spec fn next_char(s: Seq<char>, c: SCursor) -> (Option<char>, SCursor) {
    (peek(s, c), step(s, c))
}

pub open spec fn steps(s: Seq<char>, c: SCursor, n: nat) -> SCursor
    decreases n,
{
    if n == 0 {
        c
    } else {
        steps(s, step(s, c), (n - 1) as nat)
    }
}

pub open spec fn is_space(ch: char) -> bool {
    ch == ' ' || ch == '\t' || ch == '\r' || ch == '\n'
}

pub open spec fn is_ascii_letter(ch: char) -> bool {
    ('a' <= ch && ch <= 'z') || ('A' <= ch && ch <= 'Z')
}

pub open spec fn is_ascii_digit(ch: char) -> bool {
    '0' <= ch && ch <= '9'
}

pub open spec fn is_ident_start_char(ch: char) -> bool {
    ch == '_' || is_ascii_letter(ch)
}

pub open spec fn is_ident_continue_char(ch: char) -> bool {
    is_ident_start_char(ch) || is_ascii_digit(ch)
}

/// `n` has the shape of an identifier: a letter or `_`, then letters, digits and `_`.
pub open spec fn is_identifier(n: Seq<char>) -> bool {
    &&& n.len() > 0
    &&& is_ident_start_char(n[0])
    &&& forall|k: int| 1 <= k < n.len() ==> is_ident_continue_char(#[trigger] n[k])
}

/// Each of `names` is an identifier.
pub open spec fn all_identifiers(names: Seq<Seq<char>>) -> bool {
    forall|k: int| 0 <= k < names.len() ==> is_identifier(#[trigger] names[k])
}

pub open spec fn starts_ident(o: Option<char>) -> bool {
    o matches Some(ch) && is_ident_start_char(ch)
}

pub open spec fn continues_ident(o: Option<char>) -> bool {
    o matches Some(ch) && is_ident_continue_char(ch)
}

/// Characters that may begin another element of a sequence.
pub open spec fn starts_sequence_element(o: Option<char>) -> bool {
    o matches Some(ch) && (ch == '&' || ch == '!' || ch == '[' || ch == '(' || ch == '.' || ch
        == '_' || ch == '"' || is_ascii_letter(ch))
}

// ----------------------------------------------------------------------------
// Spacing and comments
// ----------------------------------------------------------------------------

pub open spec fn skip_blanks(s: Seq<char>, c: SCursor) -> SCursor
    decreases s.len() - c.idx,
{
    if c.idx < s.len() && is_space(s[c.idx as int]) {
        skip_blanks(s, step(s, c))
    } else {
        c
    }
}

/// Skips to the end of the line, before its line break.
pub open spec fn skip_to_line_end(s: Seq<char>, c: SCursor) -> SCursor
    decreases s.len() - c.idx,
{
    if c.idx < s.len() && s[c.idx as int] != '\r' && s[c.idx as int] != '\n' {
        skip_to_line_end(s, step(s, c))
    } else {
        c
    }
}

/// Skips a `//` comment under `c`, with the line break that ends it (`\r\n`, `\r` or `\n`).
pub open spec fn skip_comment(s: Seq<char>, c: SCursor) -> SCursor {
    let c1 = skip_to_line_end(s, step(s, step(s, c)));
    if peek(s, c1) == Some('\r') {
        let c2 = step(s, c1);
        if peek(s, c2) == Some('\n') {
            step(s, c2)
        } else {
            c2
        }
    } else if peek(s, c1) == Some('\n') {
        step(s, c1)
    } else {
        c1
    }
}

pub open spec fn comment_at(s: Seq<char>, c: SCursor) -> bool {
    peek(s, c) == Some('/') && peek_next(s, c) == Some('/')
}

/// Skips blanks and `//` comments.
pub open spec fn skip_spacing(s: Seq<char>, c: SCursor) -> SCursor
    decreases s.len() - c.idx,
{
    let c1 = skip_blanks(s, c);
    if comment_at(s, c1) {
        proof {
            lemma_skip_blanks(s, c);
            lemma_skip_comment(s, c1);
        }
        skip_spacing(s, skip_comment(s, c1))
    } else {
        c1
    }
}

// ----------------------------------------------------------------------------
// Tokens
// ----------------------------------------------------------------------------

pub open spec fn skip_ident_rest(s: Seq<char>, c: SCursor) -> SCursor
    decreases s.len() - c.idx,
{
    if c.idx < s.len() && is_ident_continue_char(s[c.idx as int]) {
        skip_ident_rest(s, step(s, c))
    } else {
        c
    }
}

/// An identifier: a letter or `_`, then letters, digits and `_`.  On a bad first
/// character the error stands after that character.
pub open spec fn identifier(s: Seq<char>, c: SCursor) -> PRes<(Position, Seq<char>)> {
    let (o, c1) = next_char(s, c);
    if starts_ident(o) {
        let c2 = skip_ident_rest(s, c1);
        Ok(((pos_of(c), s.subrange(c.idx as int, c2.idx as int)), c2))
    } else {
        Err(error_at(c1, "expected identifier"@))
    }
}

pub open spec fn identifier_spaced(s: Seq<char>, c: SCursor) -> PRes<(Position, Seq<char>)> {
    match identifier(s, c) {
        Ok((v, c1)) => Ok((v, skip_spacing(s, c1))),
        Err(e) => Err(e),
    }
}

pub open spec fn expected_message(ch: char) -> Seq<char> {
    "expected '"@ + seq![ch] + "'"@
}

pub open spec fn expect_raw(s: Seq<char>, c: SCursor, ch: char) -> Result<SCursor, SParseError> {
    let (o, c1) = next_char(s, c);
    if o == Some(ch) {
        Ok(c1)
    } else {
        Err(error_at(c1, expected_message(ch)))
    }
}

pub open spec fn expect_char(s: Seq<char>, c: SCursor, ch: char) -> Result<SCursor, SParseError> {
    match expect_raw(s, c, ch) {
        Ok(c1) => Ok(skip_spacing(s, c1)),
        Err(e) => Err(e),
    }
}

/// The keyword `kw` under `c`, not followed by an identifier character.
pub open spec fn keyword(s: Seq<char>, c: SCursor, kw: Seq<char>) -> Option<SCursor> {
    let c1 = steps(s, c, kw.len());
    if c.idx + kw.len() <= s.len() && s.subrange(c.idx as int, (c.idx + kw.len()) as int) == kw
        && !continues_ident(peek(s, c1)) {
        Some(c1)
    } else {
        None
    }
}

// ----------------------------------------------------------------------------
// Escaped characters
// ----------------------------------------------------------------------------

pub open spec fn is_hex_digit(ch: char) -> bool {
    is_ascii_digit(ch) || ('a' <= ch && ch <= 'f') || ('A' <= ch && ch <= 'F')
}

pub open spec fn hex_value(ch: char) -> nat {
    if is_ascii_digit(ch) {
        (ch as nat - '0' as nat) as nat
    } else if 'a' <= ch && ch <= 'f' {
        (ch as nat - 'a' as nat + 10) as nat
    } else {
        (ch as nat - 'A' as nat + 10) as nat
    }
}

pub open spec fn is_octal_digit(ch: char) -> bool {
    '0' <= ch && ch <= '7'
}

pub open spec fn octal_value(ch: char) -> nat {
    (ch as nat - '0' as nat) as nat
}

/// Code points that are characters: all but the surrogates and what lies above `0x10FFFF`.
pub open spec fn is_scalar(v: int) -> bool {
    (0 <= v < 0xD800) || (0xE000 <= v <= 0x10FFFF)
}

/// `k` more hexadecimal digits, folded into `acc`.
pub open spec fn hex_digits(s: Seq<char>, c: SCursor, k: nat, acc: nat) -> Result<
    (nat, SCursor),
    SParseError,
>
    decreases k,
{
    if k == 0 {
        Ok((acc, c))
    } else {
        let (o, c1) = next_char(s, c);
        match o {
            Some(ch) => if is_hex_digit(ch) {
                hex_digits(s, c1, (k - 1) as nat, acc * 16 + hex_value(ch))
            } else {
                Err(error_at(c1, "expected unicode escape"@))
            },
            None => Err(error_at(c1, "expected unicode escape"@)),
        }
    }
}

/// The four hexadecimal digits after `\u`.
pub open spec fn unicode_escape(s: Seq<char>, c: SCursor) -> PRes<char> {
    match hex_digits(s, c, 4, 0) {
        Ok((v, c1)) => if is_scalar(v as int) {
            Ok((v as char, c1))
        } else {
            Err(error_at(c1, "invalid unicode escape"@))
        },
        Err(e) => Err(e),
    }
}

/// Up to two more octal digits after the first one, `d`.
pub open spec fn octal_escape(s: Seq<char>, c: SCursor, d: char) -> PRes<char> {
    match peek(s, c) {
        Some(d2) => if is_octal_digit(d2) {
            let c1 = step(s, c);
            match peek(s, c1) {
                Some(d3) => if is_octal_digit(d3) {
                    Ok(
                        (
                            (octal_value(d) * 64 + octal_value(d2) * 8 + octal_value(d3)) as char,
                            step(s, c1),
                        ),
                    )
                } else {
                    Ok(((octal_value(d) * 8 + octal_value(d2)) as char, c1))
                },
                None => Ok(((octal_value(d) * 8 + octal_value(d2)) as char, c1)),
            }
        } else {
            Ok((octal_value(d) as char, c))
        },
        None => Ok((octal_value(d) as char, c)),
    }
}

/// One character of a literal or class: an escape sequence, or any character
/// but the closing `meta` and `\`.
pub open spec fn escaped_char(s: Seq<char>, c: SCursor, meta: Option<char>) -> PRes<char> {
    let (o, c1) = next_char(s, c);
    match o {
        Some(ch) => if ch == '\\' {
            let (o2, c2) = next_char(s, c1);
            match o2 {
                Some(e) => if e == 'n' {
                    Ok(('\n', c2))
                } else if e == 'r' {
                    Ok(('\r', c2))
                } else if e == 't' {
                    Ok(('\t', c2))
                } else if e == 'f' {
                    Ok(('\u{000C}', c2))
                } else if e == 'u' {
                    unicode_escape(s, c2)
                } else if is_octal_digit(e) {
                    octal_escape(s, c2, e)
                } else {
                    Ok((e, c2))
                },
                None => Err(error_at(c2, "unterminated escape"@)),
            }
        } else if meta != Some(ch) {
            Ok((ch, c1))
        } else {
            Err(error_at(c1, "invalid escaped character"@))
        },
        None => Err(error_at(c1, "unexpected end of input"@)),
    }
}

// ----------------------------------------------------------------------------
// Character classes and literals
// ----------------------------------------------------------------------------

/// The character of a successful [`escaped_char`] reading.
pub open spec fn read_char(v: (char, SCursor)) -> char {
    v.0
}

/// The elements of a class up to its closing `]`.  A `-` before `]` is a character.
pub open spec fn class_elements(s: Seq<char>, c: SCursor, acc: Seq<CharClassElement>) -> PRes<
    Seq<CharClassElement>,
>
    decreases s.len() - c.idx,
{
    if peek(s, c) == Some(']') {
        Ok((acc, c))
    } else if c.idx >= s.len() {
        Err(error_at(c, "unterminated character class"@))
    } else {
        match escaped_char(s, c, Some(']')) {
            Err(e) => Err(e),
            Ok(first) => {
                let c1 = first.1;
                proof {
                    lemma_escaped_char(s, c, Some(']'));
                }
                if peek(s, c1) == Some('-') && peek(s, step(s, c1)) != Some(']') {
                    match escaped_char(s, step(s, c1), Some(']')) {
                        Err(e) => Err(e),
                        Ok(second) => {
                            proof {
                                lemma_escaped_char(s, step(s, c1), Some(']'));
                            }
                            class_elements(
                                s,
                                second.1,
                                acc.push(
                                    CharClassElement::CharRange(read_char(first), read_char(second)),
                                ),
                            )
                        },
                    }
                } else {
                    class_elements(s, c1, acc.push(CharClassElement::OneChar(read_char(first))))
                }
            },
        }
    }
}

pub open spec fn char_class(s: Seq<char>, c: SCursor) -> PRes<SExpr> {
    match expect_raw(s, c, '[') {
        Err(e) => Err(e),
        Ok(c1) => {
            let positive = peek(s, c1) != Some('^');
            let c2 = if positive {
                c1
            } else {
                step(s, c1)
            };
            match class_elements(s, c2, Seq::empty()) {
                Err(e) => Err(e),
                Ok((elems, c3)) => match expect_raw(s, c3, ']') {
                    Err(e) => Err(e),
                    Ok(c4) => Ok((SExpr::CharClass(pos_of(c), positive, elems), skip_spacing(s, c4))),
                },
            }
        },
    }
}

pub open spec fn literal_chars(s: Seq<char>, c: SCursor, acc: Seq<char>) -> PRes<Seq<char>>
    decreases s.len() - c.idx,
{
    if peek(s, c) == Some('"') {
        Ok((acc, c))
    } else if c.idx >= s.len() {
        Err(error_at(c, "unterminated string literal"@))
    } else {
        match escaped_char(s, c, Some('"')) {
            Err(e) => Err(e),
            Ok((ch, c1)) => {
                proof {
                    lemma_escaped_char(s, c, Some('"'));
                }
                literal_chars(s, c1, acc.push(ch))
            },
        }
    }
}

pub open spec fn literal(s: Seq<char>, c: SCursor) -> PRes<SExpr> {
    match expect_raw(s, c, '"') {
        Err(e) => Err(e),
        Ok(c1) => match literal_chars(s, c1, Seq::empty()) {
            Err(e) => Err(e),
            Ok((out, c2)) => match expect_raw(s, c2, '"') {
                Err(e) => Err(e),
                Ok(c3) => Ok((SExpr::StringLiteral(pos_of(c), out), skip_spacing(s, c3))),
            },
        },
    }
}

// ----------------------------------------------------------------------------
// Type annotations of rule parameters (read and dropped)
// ----------------------------------------------------------------------------

/// `?`, or `(T, ...)` optionally followed by `-> T`.
pub open spec fn type_tree(s: Seq<char>, c: SCursor) -> Result<SCursor, SParseError>
    decreases s.len() - c.idx, 0nat,
{
    let c1 = skip_spacing(s, c);
    proof {
        lemma_skip_spacing(s, c);
    }
    if peek(s, c1) == Some('(') {
        match expect_char(s, c1, '(') {
            Err(e) => Err(e),
            Ok(c2) => {
                proof {
                    lemma_expect_char(s, c1, '(');
                }
                let inner = if peek(s, c2) != Some(')') {
                    type_list(s, c2)
                } else {
                    Ok(c2)
                };
                match inner {
                    Err(e) => Err(e),
                    Ok(c3) => if !moved(s, c2, c3) {
                        Err(stalled(c3))
                    } else {
                        match expect_char(s, c3, ')') {
                            Err(e) => Err(e),
                            Ok(c4) => {
                                proof {
                                    lemma_expect_char(s, c3, ')');
                                }
                                if peek(s, c4) == Some('-') {
                                    match expect_raw(s, step(s, c4), '>') {
                                        Err(e) => Err(e),
                                        Ok(c5) => {
                                            proof {
                                                lemma_skip_spacing(s, c5);
                                            }
                                            type_tree(s, skip_spacing(s, c5))
                                        },
                                    }
                                } else {
                                    Ok(c4)
                                }
                            },
                        }
                    },
                }
            },
        }
    } else if peek(s, c1) == Some('?') {
        Ok(skip_spacing(s, step(s, c1)))
    } else {
        Err(error_at(c1, "expected type"@))
    }
}

/// Types separated by commas.
pub open spec fn type_list(s: Seq<char>, c: SCursor) -> Result<SCursor, SParseError>
    decreases s.len() - c.idx, 1nat,
{
    match type_tree(s, c) {
        Err(e) => Err(e),
        Ok(c1) => if !moved(s, c, c1) {
            Err(stalled(c1))
        } else if peek(s, c1) == Some(',') {
            proof {
                lemma_skip_spacing(s, step(s, c1));
            }
            type_list(s, skip_spacing(s, step(s, c1)))
        } else {
            Ok(c1)
        },
    }
}

// ----------------------------------------------------------------------------
// Expressions
// ----------------------------------------------------------------------------

/// Alternatives separated by `/` or `|`, grouped to the left.
pub open spec fn expression(s: Seq<char>, c: SCursor) -> PRes<SExpr>
    decreases s.len() - c.idx, 10nat,
{
    match sequence(s, c) {
        Err(e) => Err(e),
        Ok((first, c1)) => if !moved(s, c, c1) {
            Err(stalled(c1))
        } else {
            alternatives(s, c1, first)
        },
    }
}

pub open spec fn alternatives(s: Seq<char>, c: SCursor, acc: SExpr) -> PRes<SExpr>
    decreases s.len() - c.idx, 9nat,
{
    if peek(s, c) == Some('/') || peek(s, c) == Some('|') {
        let c1 = skip_spacing(s, step(s, c));
        proof {
            lemma_skip_spacing(s, step(s, c));
        }
        match sequence(s, c1) {
            Err(e) => Err(e),
            Ok((rhs, c2)) => if !moved(s, c1, c2) {
                Err(stalled(c2))
            } else {
                alternatives(
                    s,
                    c2,
                    SExpr::Alternation(ast::spec_pos(rhs), Box::new(acc), Box::new(rhs)),
                )
            },
        }
    } else {
        Ok((acc, c))
    }
}

/// Prefixed elements, grouped to the left.
pub open spec fn sequence(s: Seq<char>, c: SCursor) -> PRes<SExpr>
    decreases s.len() - c.idx, 8nat,
{
    match prefixed(s, c) {
        Err(e) => Err(e),
        Ok((first, c1)) => if !moved(s, c, c1) {
            Err(stalled(c1))
        } else {
            sequence_rest(s, c1, first)
        },
    }
}

pub open spec fn sequence_rest(s: Seq<char>, c: SCursor, acc: SExpr) -> PRes<SExpr>
    decreases s.len() - c.idx, 7nat,
{
    let c1 = skip_spacing(s, c);
    proof {
        lemma_skip_spacing(s, c);
    }
    if starts_sequence_element(peek(s, c1)) {
        match prefixed(s, c1) {
            Err(e) => Err(e),
            Ok((next, c2)) => if !advanced(s, c, c2) {
                Err(stalled(c2))
            } else {
                sequence_rest(s, c2, SExpr::Sequence(ast::spec_pos(next), Box::new(acc), Box::new(next)))
            },
        }
    } else {
        Ok((acc, c1))
    }
}

/// An element, optionally under `&` or `!`.
pub open spec fn prefixed(s: Seq<char>, c: SCursor) -> PRes<SExpr>
    decreases s.len() - c.idx, 6nat,
{
    if peek(s, c) == Some('&') || peek(s, c) == Some('!') {
        let c1 = skip_spacing(s, step(s, c));
        proof {
            lemma_skip_spacing(s, step(s, c));
        }
        match suffixed(s, c1) {
            Err(e) => Err(e),
            Ok((body, c2)) => if peek(s, c) == Some('&') {
                Ok((SExpr::AndPredicate(pos_of(c), Box::new(body)), c2))
            } else {
                Ok((SExpr::NotPredicate(pos_of(c), Box::new(body)), c2))
            },
        }
    } else {
        suffixed(s, c)
    }
}

/// A primary expression, optionally followed by `?`, `*` or `+`.
pub open spec fn suffixed(s: Seq<char>, c: SCursor) -> PRes<SExpr>
    decreases s.len() - c.idx, 5nat,
{
    match primary(s, c) {
        Err(e) => Err(e),
        Ok((e, c1)) => {
            let c2 = skip_spacing(s, step(s, c1));
            if peek(s, c1) == Some('?') {
                Ok((SExpr::Optional(pos_of(c1), Box::new(e)), c2))
            } else if peek(s, c1) == Some('*') {
                Ok((SExpr::Repeat0(pos_of(c1), Box::new(e)), c2))
            } else if peek(s, c1) == Some('+') {
                Ok((SExpr::Repeat1(pos_of(c1), Box::new(e)), c2))
            } else {
                Ok((e, c1))
            }
        },
    }
}

/// `Debug(e)`, a call, an identifier, a class, a group or function, `.`, `_` or a literal.
pub open spec fn primary(s: Seq<char>, c: SCursor) -> PRes<SExpr>
    decreases s.len() - c.idx, 4nat,
{
    match keyword(s, c, "Debug"@) {
        Some(c1) => {
            proof {
                lemma_keyword_debug(s, c);
                lemma_skip_spacing(s, c1);
            }
            match expect_char(s, skip_spacing(s, c1), '(') {
                Err(e) => Err(e),
                Ok(c2) => {
                    proof {
                        lemma_expect_char(s, skip_spacing(s, c1), '(');
                    }
                    match expression(s, c2) {
                        Err(e) => Err(e),
                        Ok((body, c3)) => match expect_char(s, c3, ')') {
                            Err(e) => Err(e),
                            Ok(c4) => Ok((SExpr::Debug(pos_of(c1), Box::new(body)), c4)),
                        },
                    }
                },
            }
        },
        None => match call(s, c) {
            Err(e) => Err(e),
            Ok((Some(e), c1)) => Ok((e, c1)),
            Ok((None, _)) => if starts_ident(peek(s, c)) {
                match identifier_spaced(s, c) {
                    Err(e) => Err(e),
                    Ok(((p, name), c1)) => Ok((SExpr::Identifier(p, name), c1)),
                }
            } else if peek(s, c) == Some('[') {
                char_class(s, c)
            } else if peek(s, c) == Some('(') {
                group_or_function(s, c)
            } else if peek(s, c) == Some('.') {
                Ok((SExpr::Wildcard(pos_of(c)), skip_spacing(s, step(s, c))))
            } else if peek(s, c) == Some('_') {
                Ok((SExpr::StringLiteral(pos_of(c), Seq::empty()), skip_spacing(s, step(s, c))))
            } else if peek(s, c) == Some('"') {
                literal(s, c)
            } else {
                Err(error_at(c, "expected primary expression"@))
            },
        },
    }
}

/// `name(args)` with no space before `(`; `None` (and no input read) when no call stands here.
pub open spec fn call(s: Seq<char>, c: SCursor) -> PRes<Option<SExpr>>
    decreases s.len() - c.idx, 3nat,
{
    if !starts_ident(peek(s, c)) {
        Ok((None, c))
    } else {
        match identifier(s, c) {
            Err(e) => Err(e),
            Ok(((p, name), c1)) => if peek(s, c1) != Some('(') {
                Ok((None, c))
            } else {
                match expect_char(s, c1, '(') {
                    Err(e) => Err(e),
                    Ok(c2) => {
                        proof {
                            lemma_identifier(s, c);
                            lemma_expect_char(s, c1, '(');
                        }
                        let args = if peek(s, c2) != Some(')') {
                            call_arguments(s, c2, Seq::empty())
                        } else {
                            Ok((Seq::empty(), c2))
                        };
                        match args {
                            Err(e) => Err(e),
                            Ok((args, c3)) => match expect_char(s, c3, ')') {
                                Err(e) => Err(e),
                                Ok(c4) => Ok((Some(SExpr::Call(p, name, args)), c4)),
                            },
                        }
                    },
                }
            },
        }
    }
}

/// Expressions separated by commas.
pub open spec fn call_arguments(s: Seq<char>, c: SCursor, acc: Seq<SExpr>) -> PRes<Seq<SExpr>>
    decreases s.len() - c.idx, 11nat,
{
    match expression(s, c) {
        Err(e) => Err(e),
        Ok((e, c1)) => if !moved(s, c, c1) {
            Err(stalled(c1))
        } else if peek(s, c1) == Some(',') {
            proof {
                lemma_skip_spacing(s, step(s, c1));
            }
            call_arguments(s, skip_spacing(s, step(s, c1)), acc.push(e))
        } else {
            Ok((acc.push(e), c1))
        },
    }
}

/// Parameter names of `(a, b -> body)`; the flag is false when a comma is not
/// followed by a name, which rules out a function.
pub open spec fn function_params(s: Seq<char>, c: SCursor, acc: Seq<Seq<char>>) -> PRes<
    (Seq<Seq<char>>, bool),
>
    decreases s.len() - c.idx,
{
    match identifier_spaced(s, c) {
        Err(e) => Err(e),
        Ok(((_, name), c1)) => {
            let acc2 = acc.push(name);
            if peek(s, c1) == Some(',') {
                let c2 = skip_spacing(s, step(s, c1));
                if starts_ident(peek(s, c2)) {
                    proof {
                        lemma_identifier(s, c);
                        lemma_skip_spacing(s, c1);
                        lemma_skip_spacing(s, step(s, c1));
                    }
                    function_params(s, c2, acc2)
                } else {
                    Ok(((acc2, false), c2))
                }
            } else {
                Ok(((acc2, true), c1))
            }
        },
    }
}

/// `(params -> body)`, else a parenthesized expression read again from `c`.
pub open spec fn group_or_function(s: Seq<char>, c: SCursor) -> PRes<SExpr>
    decreases s.len() - c.idx, 2nat,
{
    match expect_char(s, c, '(') {
        Err(e) => Err(e),
        Ok(c1) => {
            let params = if peek(s, c1) != Some(')') {
                if starts_ident(peek(s, c1)) {
                    function_params(s, c1, Seq::empty())
                } else {
                    Ok(((Seq::empty(), false), c1))
                }
            } else {
                Ok(((Seq::empty(), true), c1))
            };
            match params {
                Err(e) => Err(e),
                Ok(((names, lambda), c2)) => if lambda && peek(s, c2) == Some('-') {
                    let c3 = step(s, c2);
                    if peek(s, c3) != Some('>') {
                        group(s, c)
                    } else {
                        let c4 = skip_spacing(s, step(s, c3));
                        proof {
                            lemma_expect_char(s, c, '(');
                            lemma_function_params(s, c1, Seq::empty());
                            lemma_skip_spacing(s, step(s, c3));
                        }
                        match expression(s, c4) {
                            Err(e) => Err(e),
                            Ok((body, c5)) => match expect_char(s, c5, ')') {
                                Err(e) => Err(e),
                                Ok(c6) => Ok(
                                    (SExpr::Function(pos_of(c), names, Box::new(body)), c6),
                                ),
                            },
                        }
                    }
                } else {
                    group(s, c)
                },
            }
        },
    }
}

/// `( expression )`.
pub open spec fn group(s: Seq<char>, c: SCursor) -> PRes<SExpr>
    decreases s.len() - c.idx, 1nat,
{
    match expect_char(s, c, '(') {
        Err(e) => Err(e),
        Ok(c1) => {
            proof {
                lemma_expect_char(s, c, '(');
            }
            match expression(s, c1) {
                Err(e) => Err(e),
                Ok((body, c2)) => match expect_char(s, c2, ')') {
                    Err(e) => Err(e),
                    Ok(c3) => Ok((body, c3)),
                },
            }
        },
    }
}

// ----------------------------------------------------------------------------
// Rules and grammars
// ----------------------------------------------------------------------------

/// Rule parameters `a, b: T, ...` (types are read and dropped).
pub open spec fn rule_params(s: Seq<char>, c: SCursor, acc: Seq<Seq<char>>) -> PRes<Seq<Seq<char>>>
    decreases s.len() - c.idx,
{
    match identifier_spaced(s, c) {
        Err(e) => Err(e),
        Ok(((_, name), c1)) => {
            let typed = if peek(s, c1) == Some(':') {
                type_tree(s, skip_spacing(s, step(s, c1)))
            } else {
                Ok(c1)
            };
            match typed {
                Err(e) => Err(e),
                Ok(c2) => if peek(s, c2) == Some(',') {
                    proof {
                        lemma_identifier(s, c);
                        lemma_skip_spacing(s, c1);
                        if peek(s, c1) == Some(':') {
                            lemma_skip_spacing(s, step(s, c1));
                            lemma_type_tree(s, skip_spacing(s, step(s, c1)));
                        }
                        lemma_skip_spacing(s, step(s, c2));
                    }
                    rule_params(s, skip_spacing(s, step(s, c2)), acc.push(name))
                } else {
                    Ok((acc.push(name), c2))
                },
            }
        },
    }
}

/// The parameter list `(a, b: T)` of a rule, or none where no `(` follows its name.
pub open spec fn definition_params(s: Seq<char>, c: SCursor) -> PRes<Seq<Seq<char>>> {
    if peek(s, c) == Some('(') {
        match expect_char(s, c, '(') {
            Err(e) => Err(e),
            Ok(c1) => {
                let inner = if peek(s, c1) != Some(')') {
                    rule_params(s, c1, Seq::empty())
                } else {
                    Ok((Seq::empty(), c1))
                };
                match inner {
                    Err(e) => Err(e),
                    Ok((args, c2)) => match expect_char(s, c2, ')') {
                        Err(e) => Err(e),
                        Ok(c3) => Ok((args, c3)),
                    },
                }
            },
        }
    } else {
        Ok((Seq::empty(), c))
    }
}

/// `name = body;` or `name(params) = body;`.
pub open spec fn definition(s: Seq<char>, c: SCursor) -> PRes<SRule> {
    match identifier_spaced(s, c) {
        Err(e) => Err(e),
        Ok(((pos, name), c1)) => match definition_params(s, c1) {
            Err(e) => Err(e),
            Ok((args, c5)) => match expect_char(s, c5, '=') {
                Err(e) => Err(e),
                Ok(c6) => match expression(s, c6) {
                    Err(e) => Err(e),
                    Ok((body, c7)) => match expect_char(s, c7, ';') {
                        Err(e) => Err(e),
                        Ok(c8) => Ok((SRule { pos, name, body, args }, c8)),
                    },
                },
            },
        },
    }
}

/// Definitions up to the end of the source, each followed by spacing.
pub open spec fn definitions(s: Seq<char>, c: SCursor, acc: Seq<SRule>) -> PRes<Seq<SRule>>
    decreases s.len() - c.idx,
{
    if c.idx >= s.len() {
        Ok((acc, c))
    } else {
        match definition(s, c) {
            Err(e) => Err(e),
            Ok((rule, c1)) => {
                proof {
                    lemma_definition(s, c);
                    lemma_skip_spacing(s, c1);
                }
                definitions(s, skip_spacing(s, c1), acc.push(rule))
            },
        }
    }
}

/// The grammar that a source describes, or the error that stops its reading.
pub open spec fn spec_parse_grammar(s: Seq<char>) -> Result<SGrammar, SParseError> {
    let c0 = start_cursor();
    match definitions(s, skip_spacing(s, c0), Seq::empty()) {
        Ok((rules, _)) => Ok(SGrammar { pos: pos_of(c0), rules }),
        Err(e) => Err(e),
    }
}

// ----------------------------------------------------------------------------
// Progress lemmas
// ----------------------------------------------------------------------------

pub proof fn lemma_step(s: Seq<char>, c: SCursor)
    ensures
        c.idx < s.len() ==> step(s, c).idx == c.idx + 1,
        c.idx >= s.len() ==> step(s, c) == c,
        wf(s, c) ==> wf(s, step(s, c)),
{
}

pub proof fn lemma_skip_blanks(s: Seq<char>, c: SCursor)
    ensures
        c.idx <= skip_blanks(s, c).idx,
        c.idx <= s.len() ==> skip_blanks(s, c).idx <= s.len(),
        wf(s, c) ==> wf(s, skip_blanks(s, c)),
    decreases s.len() - c.idx,
{
    if c.idx < s.len() && is_space(s[c.idx as int]) {
        lemma_skip_blanks(s, step(s, c));
    }
}

pub proof fn lemma_skip_to_line_end(s: Seq<char>, c: SCursor)
    ensures
        c.idx <= skip_to_line_end(s, c).idx,
        c.idx <= s.len() ==> skip_to_line_end(s, c).idx <= s.len(),
        wf(s, c) ==> wf(s, skip_to_line_end(s, c)),
    decreases s.len() - c.idx,
{
    if c.idx < s.len() && s[c.idx as int] != '\r' && s[c.idx as int] != '\n' {
        lemma_skip_to_line_end(s, step(s, c));
    }
}

pub proof fn lemma_skip_comment(s: Seq<char>, c: SCursor)
    requires
        comment_at(s, c),
    ensures
        c.idx + 2 <= skip_comment(s, c).idx <= s.len(),
        wf(s, c) ==> wf(s, skip_comment(s, c)),
{
    lemma_step(s, c);
    lemma_step(s, step(s, c));
    lemma_skip_to_line_end(s, step(s, step(s, c)));
    let c1 = skip_to_line_end(s, step(s, step(s, c)));
    lemma_step(s, c1);
    lemma_step(s, step(s, c1));
}

pub proof fn lemma_skip_spacing(s: Seq<char>, c: SCursor)
    ensures
        c.idx <= skip_spacing(s, c).idx,
        c.idx <= s.len() ==> skip_spacing(s, c).idx <= s.len(),
        wf(s, c) ==> wf(s, skip_spacing(s, c)),
    decreases s.len() - c.idx,
{
    lemma_skip_blanks(s, c);
    let c1 = skip_blanks(s, c);
    if comment_at(s, c1) {
        lemma_skip_comment(s, c1);
        lemma_skip_spacing(s, skip_comment(s, c1));
    }
}

pub proof fn lemma_expect_char(s: Seq<char>, c: SCursor, ch: char)
    ensures
        expect_raw(s, c, ch) matches Ok(c1) ==> advanced(s, c, c1) && (wf(s, c) ==> wf(s, c1)),
        expect_char(s, c, ch) matches Ok(c1) ==> advanced(s, c, c1) && (wf(s, c) ==> wf(s, c1)),
        wf(s, c) ==> err_placed(s, expect_raw(s, c, ch)),
        wf(s, c) ==> err_placed(s, expect_char(s, c, ch)),
{
    lemma_step(s, c);
    if c.idx < s.len() {
        lemma_skip_spacing(s, step(s, c));
    }
}

pub proof fn lemma_skip_ident_rest(s: Seq<char>, c: SCursor)
    ensures
        c.idx <= skip_ident_rest(s, c).idx,
        c.idx <= s.len() ==> skip_ident_rest(s, c).idx <= s.len(),
        wf(s, c) ==> wf(s, skip_ident_rest(s, c)),
        forall|k: int|
            c.idx <= k < skip_ident_rest(s, c).idx ==> is_ident_continue_char(#[trigger] s[k]),
    decreases s.len() - c.idx,
{
    if c.idx < s.len() && is_ident_continue_char(s[c.idx as int]) {
        lemma_step(s, c);
        lemma_skip_ident_rest(s, step(s, c));
    }
}

pub proof fn lemma_identifier(s: Seq<char>, c: SCursor)
    ensures
        identifier(s, c) matches Ok((_, c1)) ==> advanced(s, c, c1) && (wf(s, c) ==> wf(s, c1)),
        identifier_spaced(s, c) matches Ok((_, c1)) ==> advanced(s, c, c1) && (wf(s, c) ==> wf(
            s,
            c1,
        )),
        wf(s, c) ==> err_placed(s, identifier(s, c)),
        wf(s, c) ==> err_placed(s, identifier_spaced(s, c)),
        identifier(s, c) matches Ok(((_, name), _)) ==> is_identifier(name),
        identifier_spaced(s, c) matches Ok(((_, name), _)) ==> is_identifier(name),
{
    lemma_step(s, c);
    if c.idx < s.len() {
        lemma_skip_ident_rest(s, step(s, c));
        lemma_skip_spacing(s, skip_ident_rest(s, step(s, c)));
        if let Ok(((_, name), _)) = identifier(s, c) {
            let c2 = skip_ident_rest(s, step(s, c));
            assert forall|k: int| 1 <= k < name.len() implies is_ident_continue_char(
                #[trigger] name[k],
            ) by {
                assert(name[k] == s[c.idx + k]);
            }
        }
    }
}

pub proof fn lemma_steps(s: Seq<char>, c: SCursor, n: nat)
    requires
        c.idx + n <= s.len(),
    ensures
        steps(s, c, n).idx == c.idx + n,
        wf(s, c) ==> wf(s, steps(s, c, n)),
    decreases n,
{
    if n > 0 {
        lemma_steps(s, step(s, c), (n - 1) as nat);
    }
}

pub proof fn lemma_steps_push(s: Seq<char>, c: SCursor, n: nat)
    ensures
        steps(s, c, n + 1) == step(s, steps(s, c, n)),
    decreases n,
{
    assert(steps(s, c, n + 1) == steps(s, step(s, c), n));
    if n > 0 {
        lemma_steps_push(s, step(s, c), (n - 1) as nat);
        assert(steps(s, c, n) == steps(s, step(s, c), (n - 1) as nat));
    }
}

pub proof fn lemma_keyword_debug(s: Seq<char>, c: SCursor)
    ensures
        keyword(s, c, "Debug"@) matches Some(c1) ==> advanced(s, c, c1) && (wf(s, c) ==> wf(s, c1)),
{
    reveal_strlit("Debug");
    if c.idx + 5 <= s.len() {
        lemma_steps(s, c, 5);
    }
}

pub proof fn lemma_hex_digits(s: Seq<char>, c: SCursor, k: nat, acc: nat)
    ensures
        hex_digits(s, c, k, acc) matches Ok((_, c1)) ==> c1.idx == c.idx + k && c1.idx <= s.len()
            || k == 0 && c1 == c,
        hex_digits(s, c, k, acc) matches Ok((_, c1)) ==> (wf(s, c) ==> wf(s, c1)),
        wf(s, c) ==> err_placed(s, hex_digits(s, c, k, acc)),
    decreases k,
{
    lemma_step(s, c);
    if k > 0 && c.idx < s.len() {
        lemma_hex_digits(s, step(s, c), (k - 1) as nat, acc * 16 + hex_value(s[c.idx as int]));
    }
}

pub proof fn lemma_escaped_char(s: Seq<char>, c: SCursor, meta: Option<char>)
    ensures
        escaped_char(s, c, meta) matches Ok((_, c1)) ==> advanced(s, c, c1) && (wf(s, c) ==> wf(
            s,
            c1,
        )),
        wf(s, c) ==> err_placed(s, escaped_char(s, c, meta)),
{
    let c1 = step(s, c);
    let c2 = step(s, c1);
    lemma_step(s, c);
    lemma_step(s, c1);
    lemma_step(s, c2);
    lemma_step(s, step(s, c2));
    if c.idx < s.len() && c1.idx < s.len() {
        lemma_hex_digits(s, c2, 4, 0);
    }
}

pub proof fn lemma_type_tree(s: Seq<char>, c: SCursor)
    ensures
        type_tree(s, c) matches Ok(c1) ==> advanced(s, c, c1) && (wf(s, c) ==> wf(s, c1)),
        type_list(s, c) matches Ok(c1) ==> advanced(s, c, c1) && (wf(s, c) ==> wf(s, c1)),
        wf(s, c) ==> err_placed(s, type_tree(s, c)),
        wf(s, c) ==> err_placed(s, type_list(s, c)),
    decreases s.len() - c.idx,
{
    lemma_skip_spacing(s, c);
    let c1 = skip_spacing(s, c);
    if peek(s, c1) == Some('(') {
        lemma_expect_char(s, c1, '(');
        if let Ok(c2) = expect_char(s, c1, '(') {
            if peek(s, c2) != Some(')') {
                lemma_type_tree(s, c2);
            }
            let inner = if peek(s, c2) != Some(')') {
                type_list(s, c2)
            } else {
                Ok(c2)
            };
            if let Ok(c3) = inner {
                lemma_expect_char(s, c3, ')');
                if let Ok(c4) = expect_char(s, c3, ')') {
                    if peek(s, c4) == Some('-') {
                        lemma_expect_char(s, step(s, c4), '>');
                        if let Ok(c5) = expect_raw(s, step(s, c4), '>') {
                            lemma_skip_spacing(s, c5);
                            lemma_type_tree(s, skip_spacing(s, c5));
                        }
                    }
                }
            }
        }
    } else if peek(s, c1) == Some('?') {
        lemma_skip_spacing(s, step(s, c1));
    }
    // the list
    if let Ok(c1) = type_tree(s, c) {
        if moved(s, c, c1) && peek(s, c1) == Some(',') {
            lemma_skip_spacing(s, step(s, c1));
            lemma_type_tree(s, skip_spacing(s, step(s, c1)));
        }
    }
}

pub proof fn lemma_function_params(s: Seq<char>, c: SCursor, acc: Seq<Seq<char>>)
    ensures
        function_params(s, c, acc) matches Ok((_, c1)) ==> advanced(s, c, c1) && (wf(s, c) ==> wf(
            s,
            c1,
        )),
        wf(s, c) ==> err_placed(s, function_params(s, c, acc)),
    decreases s.len() - c.idx,
{
    lemma_identifier(s, c);
    if let Ok(((_, name), c1)) = identifier_spaced(s, c) {
        if peek(s, c1) == Some(',') {
            lemma_skip_spacing(s, step(s, c1));
            let c2 = skip_spacing(s, step(s, c1));
            if starts_ident(peek(s, c2)) {
                lemma_function_params(s, c2, acc.push(name));
            }
        }
    }
}

pub proof fn lemma_class_elements(s: Seq<char>, c: SCursor, acc: Seq<CharClassElement>)
    ensures
        class_elements(s, c, acc) matches Ok((_, c1)) ==> moved(s, c, c1) && (wf(s, c) ==> wf(
            s,
            c1,
        )),
        wf(s, c) ==> err_placed(s, class_elements(s, c, acc)),
    decreases s.len() - c.idx,
{
    if peek(s, c) != Some(']') && c.idx < s.len() {
        lemma_escaped_char(s, c, Some(']'));
        if let Ok(first) = escaped_char(s, c, Some(']')) {
            let c1 = first.1;
            lemma_step(s, c1);
            if peek(s, c1) == Some('-') && peek(s, step(s, c1)) != Some(']') {
                lemma_escaped_char(s, step(s, c1), Some(']'));
                if let Ok(second) = escaped_char(s, step(s, c1), Some(']')) {
                    lemma_class_elements(
                        s,
                        second.1,
                        acc.push(CharClassElement::CharRange(read_char(first), read_char(second))),
                    );
                }
            } else {
                lemma_class_elements(s, c1, acc.push(CharClassElement::OneChar(read_char(first))));
            }
        }
    }
}

pub proof fn lemma_char_class(s: Seq<char>, c: SCursor)
    ensures
        char_class(s, c) matches Ok((_, c1)) ==> advanced(s, c, c1) && (wf(s, c) ==> wf(s, c1)),
        wf(s, c) ==> err_placed(s, char_class(s, c)),
{
    lemma_expect_char(s, c, '[');
    if let Ok(c1) = expect_raw(s, c, '[') {
        lemma_step(s, c1);
        let c2 = if peek(s, c1) != Some('^') {
            c1
        } else {
            step(s, c1)
        };
        lemma_class_elements(s, c2, Seq::empty());
        if let Ok((elems, c3)) = class_elements(s, c2, Seq::empty()) {
            lemma_expect_char(s, c3, ']');
            if let Ok(c4) = expect_raw(s, c3, ']') {
                lemma_skip_spacing(s, c4);
            }
        }
    }
}

pub proof fn lemma_literal_chars(s: Seq<char>, c: SCursor, acc: Seq<char>)
    ensures
        literal_chars(s, c, acc) matches Ok((_, c1)) ==> moved(s, c, c1) && (wf(s, c) ==> wf(
            s,
            c1,
        )),
        wf(s, c) ==> err_placed(s, literal_chars(s, c, acc)),
    decreases s.len() - c.idx,
{
    if peek(s, c) != Some('"') && c.idx < s.len() {
        lemma_escaped_char(s, c, Some('"'));
        if let Ok((ch, c1)) = escaped_char(s, c, Some('"')) {
            lemma_literal_chars(s, c1, acc.push(ch));
        }
    }
}

pub proof fn lemma_literal(s: Seq<char>, c: SCursor)
    ensures
        literal(s, c) matches Ok((_, c1)) ==> advanced(s, c, c1) && (wf(s, c) ==> wf(s, c1)),
        wf(s, c) ==> err_placed(s, literal(s, c)),
{
    lemma_expect_char(s, c, '"');
    if let Ok(c1) = expect_raw(s, c, '"') {
        lemma_literal_chars(s, c1, Seq::empty());
        if let Ok((out, c2)) = literal_chars(s, c1, Seq::empty()) {
            lemma_expect_char(s, c2, '"');
            if let Ok(c3) = expect_raw(s, c2, '"') {
                lemma_skip_spacing(s, c3);
            }
        }
    }
}

pub proof fn lemma_expression(s: Seq<char>, c: SCursor)
    ensures
        expression(s, c) matches Ok((_, c1)) ==> advanced(s, c, c1) && (wf(s, c) ==> wf(s, c1)),
        wf(s, c) ==> err_placed(s, expression(s, c)),
    decreases s.len() - c.idx, 10nat,
{
    lemma_sequence(s, c);
    if let Ok((first, c1)) = sequence(s, c) {
        lemma_alternatives(s, c1, first);
    }
}

pub proof fn lemma_alternatives(s: Seq<char>, c: SCursor, acc: SExpr)
    ensures
        alternatives(s, c, acc) matches Ok((_, c1)) ==> c.idx <= c1.idx && (c.idx <= s.len()
            ==> c1.idx <= s.len()) && (wf(s, c) ==> wf(s, c1)),
        wf(s, c) ==> err_placed(s, alternatives(s, c, acc)),
    decreases s.len() - c.idx, 9nat,
{
    if peek(s, c) == Some('/') || peek(s, c) == Some('|') {
        let c1 = skip_spacing(s, step(s, c));
        lemma_skip_spacing(s, step(s, c));
        lemma_sequence(s, c1);
        if let Ok((rhs, c2)) = sequence(s, c1) {
            lemma_alternatives(
                s,
                c2,
                SExpr::Alternation(ast::spec_pos(rhs), Box::new(acc), Box::new(rhs)),
            );
        }
    }
}

pub proof fn lemma_sequence(s: Seq<char>, c: SCursor)
    ensures
        sequence(s, c) matches Ok((_, c1)) ==> advanced(s, c, c1) && (wf(s, c) ==> wf(s, c1)),
        wf(s, c) ==> err_placed(s, sequence(s, c)),
    decreases s.len() - c.idx, 8nat,
{
    lemma_prefixed(s, c);
    if let Ok((first, c1)) = prefixed(s, c) {
        lemma_sequence_rest(s, c1, first);
    }
}

pub proof fn lemma_sequence_rest(s: Seq<char>, c: SCursor, acc: SExpr)
    ensures
        sequence_rest(s, c, acc) matches Ok((_, c1)) ==> c.idx <= c1.idx && (c.idx <= s.len()
            ==> c1.idx <= s.len()) && (wf(s, c) ==> wf(s, c1)),
        wf(s, c) ==> err_placed(s, sequence_rest(s, c, acc)),
    decreases s.len() - c.idx, 7nat,
{
    let c1 = skip_spacing(s, c);
    lemma_skip_spacing(s, c);
    if starts_sequence_element(peek(s, c1)) {
        lemma_prefixed(s, c1);
        if let Ok((next, c2)) = prefixed(s, c1) {
            if advanced(s, c, c2) {
                lemma_sequence_rest(
                    s,
                    c2,
                    SExpr::Sequence(ast::spec_pos(next), Box::new(acc), Box::new(next)),
                );
            }
        }
    }
}

pub proof fn lemma_prefixed(s: Seq<char>, c: SCursor)
    ensures
        prefixed(s, c) matches Ok((_, c1)) ==> advanced(s, c, c1) && (wf(s, c) ==> wf(s, c1)),
        wf(s, c) ==> err_placed(s, prefixed(s, c)),
    decreases s.len() - c.idx, 6nat,
{
    if peek(s, c) == Some('&') || peek(s, c) == Some('!') {
        lemma_skip_spacing(s, step(s, c));
        lemma_suffixed(s, skip_spacing(s, step(s, c)));
    } else {
        lemma_suffixed(s, c);
    }
}

pub proof fn lemma_suffixed(s: Seq<char>, c: SCursor)
    ensures
        suffixed(s, c) matches Ok((_, c1)) ==> advanced(s, c, c1) && (wf(s, c) ==> wf(s, c1)),
        wf(s, c) ==> err_placed(s, suffixed(s, c)),
    decreases s.len() - c.idx, 5nat,
{
    lemma_primary(s, c);
    if let Ok((e, c1)) = primary(s, c) {
        lemma_skip_spacing(s, step(s, c1));
    }
}

pub proof fn lemma_primary(s: Seq<char>, c: SCursor)
    ensures
        primary(s, c) matches Ok((_, c1)) ==> advanced(s, c, c1) && (wf(s, c) ==> wf(s, c1)),
        wf(s, c) ==> err_placed(s, primary(s, c)),
    decreases s.len() - c.idx, 4nat,
{
    lemma_keyword_debug(s, c);
    match keyword(s, c, "Debug"@) {
        Some(c1) => {
            lemma_skip_spacing(s, c1);
            lemma_expect_char(s, skip_spacing(s, c1), '(');
            if let Ok(c2) = expect_char(s, skip_spacing(s, c1), '(') {
                lemma_expression(s, c2);
                if let Ok((body, c3)) = expression(s, c2) {
                    lemma_expect_char(s, c3, ')');
                }
            }
        },
        None => {
            lemma_call(s, c);
            lemma_identifier(s, c);
            lemma_char_class(s, c);
            lemma_group_or_function(s, c);
            lemma_literal(s, c);
            lemma_skip_spacing(s, step(s, c));
        },
    }
}

pub proof fn lemma_call(s: Seq<char>, c: SCursor)
    ensures
        call(s, c) matches Ok((Some(_), c1)) ==> advanced(s, c, c1) && (wf(s, c) ==> wf(s, c1)),
        call(s, c) matches Ok((None, c1)) ==> c1 == c,
        wf(s, c) ==> err_placed(s, call(s, c)),
    decreases s.len() - c.idx, 3nat,
{
    if starts_ident(peek(s, c)) {
        lemma_identifier(s, c);
        if let Ok(((p, name), c1)) = identifier(s, c) {
            if peek(s, c1) == Some('(') {
                lemma_expect_char(s, c1, '(');
                if let Ok(c2) = expect_char(s, c1, '(') {
                    if peek(s, c2) != Some(')') {
                        lemma_call_arguments(s, c2, Seq::empty());
                    }
                    let args = if peek(s, c2) != Some(')') {
                        call_arguments(s, c2, Seq::empty())
                    } else {
                        Ok((Seq::empty(), c2))
                    };
                    if let Ok((args, c3)) = args {
                        lemma_expect_char(s, c3, ')');
                    }
                }
            }
        }
    }
}

pub proof fn lemma_call_arguments(s: Seq<char>, c: SCursor, acc: Seq<SExpr>)
    ensures
        call_arguments(s, c, acc) matches Ok((_, c1)) ==> moved(s, c, c1) && (wf(s, c) ==> wf(
            s,
            c1,
        )),
        wf(s, c) ==> err_placed(s, call_arguments(s, c, acc)),
    decreases s.len() - c.idx, 11nat,
{
    lemma_expression(s, c);
    if let Ok((e, c1)) = expression(s, c) {
        if peek(s, c1) == Some(',') {
            lemma_skip_spacing(s, step(s, c1));
            lemma_call_arguments(s, skip_spacing(s, step(s, c1)), acc.push(e));
        }
    }
}

pub proof fn lemma_group_or_function(s: Seq<char>, c: SCursor)
    ensures
        group_or_function(s, c) matches Ok((_, c1)) ==> advanced(s, c, c1) && (wf(s, c) ==> wf(
            s,
            c1,
        )),
        wf(s, c) ==> err_placed(s, group_or_function(s, c)),
    decreases s.len() - c.idx, 2nat,
{
    lemma_expect_char(s, c, '(');
    lemma_group(s, c);
    if let Ok(c1) = expect_char(s, c, '(') {
        lemma_function_params(s, c1, Seq::empty());
        let params = if peek(s, c1) != Some(')') {
            if starts_ident(peek(s, c1)) {
                function_params(s, c1, Seq::empty())
            } else {
                Ok(((Seq::empty(), false), c1))
            }
        } else {
            Ok(((Seq::empty(), true), c1))
        };
        if let Ok(((names, lambda), c2)) = params {
            if lambda && peek(s, c2) == Some('-') {
                let c3 = step(s, c2);
                lemma_step(s, c2);
                if peek(s, c3) == Some('>') {
                    lemma_step(s, c3);
                    let c4 = skip_spacing(s, step(s, c3));
                    lemma_skip_spacing(s, step(s, c3));
                    lemma_expression(s, c4);
                    if let Ok((body, c5)) = expression(s, c4) {
                        lemma_expect_char(s, c5, ')');
                        assert(wf(s, c) ==> err_placed(s, group_or_function(s, c)));
                    } else {
                        assert(wf(s, c) ==> err_placed(s, group_or_function(s, c)));
                    }
                }
            }
        }
    }
}

pub proof fn lemma_group(s: Seq<char>, c: SCursor)
    ensures
        group(s, c) matches Ok((_, c1)) ==> advanced(s, c, c1) && (wf(s, c) ==> wf(s, c1)),
        wf(s, c) ==> err_placed(s, group(s, c)),
    decreases s.len() - c.idx, 1nat,
{
    lemma_expect_char(s, c, '(');
    if let Ok(c1) = expect_char(s, c, '(') {
        lemma_expression(s, c1);
        if let Ok((body, c2)) = expression(s, c1) {
            lemma_expect_char(s, c2, ')');
        }
    }
}

pub proof fn lemma_rule_params(s: Seq<char>, c: SCursor, acc: Seq<Seq<char>>)
    ensures
        rule_params(s, c, acc) matches Ok((_, c1)) ==> advanced(s, c, c1) && (wf(s, c) ==> wf(
            s,
            c1,
        )),
        wf(s, c) ==> err_placed(s, rule_params(s, c, acc)),
        all_identifiers(acc) ==> (rule_params(s, c, acc) matches Ok((names, _)) ==> all_identifiers(
            names,
        )),
    decreases s.len() - c.idx,
{
    lemma_identifier(s, c);
    if let Ok(((_, name), c1)) = identifier_spaced(s, c) {
        if peek(s, c1) == Some(':') {
            lemma_skip_spacing(s, step(s, c1));
            lemma_type_tree(s, skip_spacing(s, step(s, c1)));
        }
        let typed = if peek(s, c1) == Some(':') {
            type_tree(s, skip_spacing(s, step(s, c1)))
        } else {
            Ok(c1)
        };
        if let Ok(c2) = typed {
            let acc2 = acc.push(name);
            if all_identifiers(acc) {
                assert forall|k: int| 0 <= k < acc2.len() implies is_identifier(
                    #[trigger] acc2[k],
                ) by {
                    if k < acc.len() {
                        assert(acc2[k] == acc[k]);
                    }
                }
            }
            if peek(s, c2) == Some(',') {
                lemma_skip_spacing(s, step(s, c2));
                lemma_rule_params(s, skip_spacing(s, step(s, c2)), acc2);
            }
        }
    }
}

pub proof fn lemma_definition_params(s: Seq<char>, c: SCursor)
    ensures
        definition_params(s, c) matches Ok((_, c1)) ==> c.idx <= c1.idx && (c.idx <= s.len()
            ==> c1.idx <= s.len()) && (wf(s, c) ==> wf(s, c1)),
        wf(s, c) ==> err_placed(s, definition_params(s, c)),
        definition_params(s, c) matches Ok((names, _)) ==> all_identifiers(names),
{
    if peek(s, c) == Some('(') {
        lemma_expect_char(s, c, '(');
        if let Ok(c1) = expect_char(s, c, '(') {
            lemma_rule_params(s, c1, Seq::empty());
            let inner = if peek(s, c1) != Some(')') {
                rule_params(s, c1, Seq::empty())
            } else {
                Ok((Seq::empty(), c1))
            };
            if let Ok((args, c2)) = inner {
                lemma_expect_char(s, c2, ')');
            }
        }
    }
}

pub proof fn lemma_definition(s: Seq<char>, c: SCursor)
    ensures
        definition(s, c) matches Ok((_, c1)) ==> advanced(s, c, c1) && (wf(s, c) ==> wf(s, c1)),
        wf(s, c) ==> err_placed(s, definition(s, c)),
        definition(s, c) matches Ok((r, _)) ==> (wf(s, c) ==> placed(s, r.pos)),
        definition(s, c) matches Ok((r, _)) ==> is_identifier(r.name) && all_identifiers(r.args),
{
    lemma_identifier(s, c);
    if let Ok(((pos, name), c1)) = identifier_spaced(s, c) {
        lemma_definition_params(s, c1);
        if let Ok((args, c5)) = definition_params(s, c1) {
            lemma_expect_char(s, c5, '=');
            if let Ok(c6) = expect_char(s, c5, '=') {
                lemma_expression(s, c6);
                if let Ok((body, c7)) = expression(s, c6) {
                    lemma_expect_char(s, c7, ';');
                }
            }
        }
    }
}

/// Rules read from a well-formed cursor, and the error that stops the
/// reading, are placed in the source.
pub proof fn lemma_definitions(s: Seq<char>, c: SCursor, acc: Seq<SRule>)
    requires
        wf(s, c),
        forall|k: int| 0 <= k < acc.len() ==> placed(s, (#[trigger] acc[k]).pos),
        forall|k: int|
            0 <= k < acc.len() ==> is_identifier((#[trigger] acc[k]).name) && all_identifiers(
                acc[k].args,
            ),
    ensures
        err_placed(s, definitions(s, c, acc)),
        definitions(s, c, acc) matches Ok((rules, _)) ==> forall|k: int|
            0 <= k < rules.len() ==> placed(s, (#[trigger] rules[k]).pos),
        definitions(s, c, acc) matches Ok((rules, _)) ==> forall|k: int|
            0 <= k < rules.len() ==> is_identifier((#[trigger] rules[k]).name) && all_identifiers(
                rules[k].args,
            ),
    decreases s.len() - c.idx,
{
    if c.idx < s.len() {
        lemma_definition(s, c);
        if let Ok((rule, c1)) = definition(s, c) {
            lemma_skip_spacing(s, c1);
            let acc2 = acc.push(rule);
            assert forall|k: int| 0 <= k < acc2.len() implies placed(s, (#[trigger] acc2[k]).pos)
                && is_identifier(acc2[k].name) && all_identifiers(acc2[k].args) by {
                if k < acc.len() {
                    assert(acc2[k] == acc[k]);
                }
            }
            lemma_definitions(s, skip_spacing(s, c1), acc2);
        }
    }
}

} // verus!
