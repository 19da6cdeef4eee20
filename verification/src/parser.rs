//! The recursive-descent reader of macro PEG grammars.  Each reading method
//! gives exactly what its counterpart in [`crate::syntax`] describes.
use crate::ast::{CharClassElement, Expr, Grammar, ParseError, Position, Rule, SParseError};
use crate::ast;
use crate::syntax::{PRes, SCursor};
use crate::syntax;
use crate::text::{char_from_u32, str_chars, string_push};
use vstd::prelude::*;

verus! {

/// An index into the source characters with its zero-based line and column.
#[derive(Clone, Copy)]
pub struct Cursor {
    pub idx: usize,
    pub line: usize,
    pub column: usize,
}

impl View for Cursor {
    type V = SCursor;

    open spec fn view(&self) -> SCursor {
        SCursor { idx: self.idx as nat, line: self.line as nat, column: self.column as nat }
    }
}

/// `r` is what `sr` describes, its value taken through `f`.
pub open spec fn agrees<T, V>(
    r: Result<(T, Cursor), ParseError>,
    sr: PRes<V>,
    f: spec_fn(T) -> V,
) -> bool {
    match r {
        Ok((v, c)) => sr == Ok::<(V, SCursor), SParseError>((f(v), c@)),
        Err(e) => sr == Err::<(V, SCursor), SParseError>(e@),
    }
}

pub open spec fn agrees_cursor(
    r: Result<Cursor, ParseError>,
    sr: Result<SCursor, SParseError>,
) -> bool {
    match r {
        Ok(c) => sr == Ok::<SCursor, SParseError>(c@),
        Err(e) => sr == Err::<SCursor, SParseError>(e@),
    }
}

pub open spec fn ok_wf<T>(s: Seq<char>, r: Result<(T, Cursor), ParseError>) -> bool {
    r matches Ok((_, c)) ==> syntax::wf(s, c@)
}

pub open spec fn id_char(ch: char) -> char {
    ch
}

pub open spec fn view_named(v: (Position, String)) -> (Position, Seq<char>) {
    (v.0, v.1@)
}

pub open spec fn view_of_expr(e: Expr) -> ast::SExpr {
    e@
}

pub open spec fn view_of_called(o: Option<Expr>) -> Option<ast::SExpr> {
    match o {
        Some(e) => Some(e@),
        None => None,
    }
}

pub open spec fn view_of_rule(r: Rule) -> ast::SRule {
    r@
}

pub open spec fn view_of_names(v: Vec<String>) -> Seq<Seq<char>> {
    ast::view_strings(v@)
}

struct Parser {
    src: Vec<char>,
}

impl Parser {
    fn new(src: &str) -> (p: Parser)
        ensures
            p.src@ == src@,
    {
        Parser { src: str_chars(src) }
    }

    fn is_eof(&self, c: Cursor) -> (b: bool)
        ensures
            b == (c.idx >= self.src@.len()),
    {
        c.idx >= self.src.len()
    }

    fn peek_char(&self, c: Cursor) -> (r: Option<char>)
        ensures
            r == syntax::peek(self.src@, c@),
    {
        if c.idx < self.src.len() {
            Some(self.src[c.idx])
        } else {
            None
        }
    }

    fn peek_next_char(&self, c: Cursor) -> (r: Option<char>)
        ensures
            r == syntax::peek_next(self.src@, c@),
    {
        if c.idx < self.src.len() && self.src.len() - c.idx > 1 {
            Some(self.src[c.idx + 1])
        } else {
            None
        }
    }

    fn next_char(&self, c: Cursor) -> (r: (Option<char>, Cursor))
        requires
            syntax::wf(self.src@, c@),
        ensures
            r.0 == syntax::peek(self.src@, c@),
            r.1@ == syntax::step(self.src@, c@),
            syntax::wf(self.src@, r.1@),
    {
        if c.idx < self.src.len() {
            let ch = self.src[c.idx];
            if ch == '\n' {
                (Some(ch), Cursor { idx: c.idx + 1, line: c.line + 1, column: 0 })
            } else {
                (Some(ch), Cursor { idx: c.idx + 1, line: c.line, column: c.column + 1 })
            }
        } else {
            (None, c)
        }
    }

    fn pos(&self, c: Cursor) -> (p: Position)
        ensures
            p == syntax::pos_of(c@),
    {
        Position { line: c.line, column: c.column }
    }

    fn error(&self, c: Cursor, message: &str) -> (e: ParseError)
        ensures
            e@ == syntax::error_at(c@, message@),
    {
        ParseError { pos: self.pos(c), message: message.to_owned() }
    }

    fn skip_spacing(&self, c: Cursor) -> (r: Cursor)
        requires
            syntax::wf(self.src@, c@),
        ensures
            r@ == syntax::skip_spacing(self.src@, c@),
            syntax::wf(self.src@, r@),
    {
        let ghost s = self.src@;
        let mut cur = c;
        loop
            invariant
                s == self.src@,
                syntax::wf(s, cur@),
                syntax::skip_spacing(s, c@) == syntax::skip_spacing(s, cur@),
            decreases s.len() - cur.idx,
        {
            let ghost start = cur;
            while self.peek_char(cur) == Some(' ') || self.peek_char(cur) == Some('\t')
                || self.peek_char(cur) == Some('\r') || self.peek_char(cur) == Some('\n')
                invariant
                    s == self.src@,
                    syntax::wf(s, cur@),
                    start.idx <= cur.idx,
                    syntax::skip_blanks(s, start@) == syntax::skip_blanks(s, cur@),
                decreases s.len() - cur.idx,
            {
                cur = self.next_char(cur).1;
            }
            proof {
                syntax::lemma_skip_blanks(s, start@);
            }
            if self.peek_char(cur) == Some('/') && self.peek_next_char(cur) == Some('/') {
                let ghost at = cur;
                cur = self.next_char(cur).1;
                cur = self.next_char(cur).1;
                while !(self.peek_char(cur) == None::<char> || self.peek_char(cur) == Some('\r')
                    || self.peek_char(cur) == Some('\n'))
                    invariant
                        s == self.src@,
                        syntax::wf(s, cur@),
                        syntax::skip_to_line_end(s, syntax::step(s, syntax::step(s, at@)))
                            == syntax::skip_to_line_end(s, cur@),
                    decreases s.len() - cur.idx,
                {
                    cur = self.next_char(cur).1;
                }
                if self.peek_char(cur) == Some('\r') {
                    cur = self.next_char(cur).1;
                    if self.peek_char(cur) == Some('\n') {
                        cur = self.next_char(cur).1;
                    }
                } else if self.peek_char(cur) == Some('\n') {
                    cur = self.next_char(cur).1;
                }
                proof {
                    syntax::lemma_skip_comment(s, at@);
                    assert(cur@ == syntax::skip_comment(s, at@));
                }
            } else {
                return cur;
            }
        }
    }

    fn is_ident_start_char(ch: char) -> (b: bool)
        ensures
            b == syntax::is_ident_start_char(ch),
    {
        ch == '_' || ('a' <= ch && ch <= 'z') || ('A' <= ch && ch <= 'Z')
    }

    fn is_ident_continue_char(ch: char) -> (b: bool)
        ensures
            b == syntax::is_ident_continue_char(ch),
    {
        Self::is_ident_start_char(ch) || ('0' <= ch && ch <= '9')
    }

    fn continues_ident_at(&self, c: Cursor) -> (b: bool)
        ensures
            b == syntax::continues_ident(syntax::peek(self.src@, c@)),
    {
        match self.peek_char(c) {
            Some(ch) => Self::is_ident_continue_char(ch),
            None => false,
        }
    }

    fn is_ident_start(&self, c: Cursor) -> (b: bool)
        ensures
            b == syntax::starts_ident(syntax::peek(self.src@, c@)),
    {
        match self.peek_char(c) {
            Some(ch) => Self::is_ident_start_char(ch),
            None => false,
        }
    }

    fn parse_identifier_no_spacing(&self, c: Cursor) -> (r: Result<
        ((Position, String), Cursor),
        ParseError,
    >)
        requires
            syntax::wf(self.src@, c@),
        ensures
            agrees(r, syntax::identifier(self.src@, c@), |v: (Position, String)| view_named(v)),
            ok_wf(self.src@, r),
    {
        let ghost s = self.src@;
        let pos = self.pos(c);
        let (first, c1) = self.next_char(c);
        let ch = match first {
            Some(ch) => {
                if Self::is_ident_start_char(ch) {
                    ch
                } else {
                    return Err(self.error(c1, "expected identifier"));
                }
            },
            None => {
                return Err(self.error(c1, "expected identifier"));
            },
        };
        let mut out = String::new();
        string_push(&mut out, ch);
        let mut cur = c1;
        while self.continues_ident_at(cur)
            invariant
                s == self.src@,
                syntax::wf(s, cur@),
                c.idx < cur.idx,
                syntax::skip_ident_rest(s, c1@) == syntax::skip_ident_rest(s, cur@),
                out@ == s.subrange(c.idx as int, cur.idx as int),
            decreases s.len() - cur.idx,
        {
            string_push(&mut out, self.src[cur.idx]);
            cur = self.next_char(cur).1;
            assert(out@ == s.subrange(c.idx as int, cur.idx as int));
        }
        proof {
            assert(syntax::skip_ident_rest(s, cur@) == cur@);
            assert(syntax::identifier(s, c@) == Ok::<((Position, Seq<char>), SCursor), SParseError>(((pos, out@), cur@)));
        }
        Ok(((pos, out), cur))
    }

    fn parse_identifier_with_spacing(&self, c: Cursor) -> (r: Result<
        ((Position, String), Cursor),
        ParseError,
    >)
        requires
            syntax::wf(self.src@, c@),
        ensures
            agrees(
                r,
                syntax::identifier_spaced(self.src@, c@),
                |v: (Position, String)| view_named(v),
            ),
            ok_wf(self.src@, r),
    {
        let (result, c1) = self.parse_identifier_no_spacing(c)?;
        let c2 = self.skip_spacing(c1);
        Ok((result, c2))
    }

    fn expect_raw(&self, c: Cursor, expected: char) -> (r: Result<Cursor, ParseError>)
        requires
            syntax::wf(self.src@, c@),
        ensures
            agrees_cursor(r, syntax::expect_raw(self.src@, c@, expected)),
            r matches Ok(c1) ==> syntax::wf(self.src@, c1@),
    {
        let (got, c1) = self.next_char(c);
        if got == Some(expected) {
            Ok(c1)
        } else {
            let mut message = "expected '".to_owned();
            string_push(&mut message, expected);
            string_push(&mut message, '\'');
            proof {
                reveal_strlit("'");
                assert(message@ == syntax::expected_message(expected));
            }
            Err(ParseError { pos: self.pos(c1), message })
        }
    }

    fn expect_char(&self, c: Cursor, expected: char) -> (r: Result<Cursor, ParseError>)
        requires
            syntax::wf(self.src@, c@),
        ensures
            agrees_cursor(r, syntax::expect_char(self.src@, c@, expected)),
            r matches Ok(c1) ==> syntax::wf(self.src@, c1@),
    {
        let c1 = self.expect_raw(c, expected)?;
        Ok(self.skip_spacing(c1))
    }

    fn try_keyword(&self, c: Cursor, keyword: &str) -> (r: Option<Cursor>)
        requires
            syntax::wf(self.src@, c@),
        ensures
            match syntax::keyword(self.src@, c@, keyword@) {
                Some(sc) => r matches Some(c1) && c1@ == sc && syntax::wf(self.src@, c1@),
                None => r is None,
            },
    {
        let ghost s = self.src@;
        let kw = str_chars(keyword);
        let mut cur = c;
        let mut i: usize = 0;
        while i < kw.len()
            invariant
                s == self.src@,
                kw@ == keyword@,
                i <= kw.len(),
                c.idx + i <= s.len(),
                cur@ == syntax::steps(s, c@, i as nat),
                cur.idx == c.idx + i,
                syntax::wf(s, cur@),
                s.subrange(c.idx as int, c.idx + i) == kw@.take(i as int),
            decreases kw.len() - i,
        {
            if self.peek_char(cur) != Some(kw[i]) {
                proof {
                    if c.idx + kw@.len() <= s.len() {
                        assert(s.subrange(c.idx as int, c.idx + kw@.len())[i as int] != kw@[i as int]);
                    }
                }
                return None;
            }
            proof {
                syntax::lemma_steps_push(s, c@, i as nat);
                assert(s.subrange(c.idx as int, c.idx + i + 1) == kw@.take(i + 1));
            }
            cur = self.next_char(cur).1;
            i += 1;
        }
        proof {
            assert(kw@.take(kw@.len() as int) == kw@);
        }
        if self.continues_ident_at(cur) {
            return None;
        }
        Some(cur)
    }

    fn hex_digit_value(ch: char) -> (v: u32)
        requires
            syntax::is_hex_digit(ch),
        ensures
            v == syntax::hex_value(ch),
            v < 16,
    {
        if '0' <= ch && ch <= '9' {
            (ch as u32) - ('0' as u32)
        } else if 'a' <= ch && ch <= 'f' {
            (ch as u32) - ('a' as u32) + 10
        } else {
            (ch as u32) - ('A' as u32) + 10
        }
    }

    fn is_hex_digit(ch: char) -> (b: bool)
        ensures
            b == syntax::is_hex_digit(ch),
    {
        ('0' <= ch && ch <= '9') || ('a' <= ch && ch <= 'f') || ('A' <= ch && ch <= 'F')
    }

    fn is_octal_digit(ch: char) -> (b: bool)
        ensures
            b == syntax::is_octal_digit(ch),
    {
        '0' <= ch && ch <= '7'
    }

    /// The four hexadecimal digits of a `\u` escape.
    #[verifier::loop_isolation(false)]
    fn parse_unicode_escape(&self, c: Cursor) -> (r: Result<(char, Cursor), ParseError>)
        requires
            syntax::wf(self.src@, c@),
        ensures
            agrees(r, syntax::unicode_escape(self.src@, c@), |v: char| id_char(v)),
            ok_wf(self.src@, r),
    {
        let ghost s = self.src@;
        let mut cur = c;
        let mut value: u32 = 0;
        let mut i: usize = 0;
        while i < 4
            invariant
                s == self.src@,
                i <= 4,
                syntax::wf(s, cur@),
                syntax::hex_digits(s, c@, 4, 0) == syntax::hex_digits(
                    s,
                    cur@,
                    (4 - i) as nat,
                    value as nat,
                ),
                i == 0 ==> value == 0,
                i == 1 ==> value < 0x10,
                i == 2 ==> value < 0x100,
                i == 3 ==> value < 0x1000,
                i == 4 ==> value < 0x10000,
            decreases 4 - i,
        {
            let (got, c1) = self.next_char(cur);
            match got {
                Some(ch) => {
                    if Self::is_hex_digit(ch) {
                        value = value * 16 + Self::hex_digit_value(ch);
                        cur = c1;
                    } else {
                        return Err(self.error(c1, "expected unicode escape"));
                    }
                },
                None => {
                    return Err(self.error(c1, "expected unicode escape"));
                },
            }
            i += 1;
        }
        match char_from_u32(value) {
            Some(ch) => {
                Ok((ch, cur))
            },
            None => Err(self.error(cur, "invalid unicode escape")),
        }
    }

    /// Up to two more octal digits after the first one, `d`.
    fn parse_octal_escape(&self, c: Cursor, d: char) -> (r: Result<(char, Cursor), ParseError>)
        requires
            syntax::wf(self.src@, c@),
            syntax::is_octal_digit(d),
        ensures
            agrees(r, syntax::octal_escape(self.src@, c@, d), |v: char| id_char(v)),
            ok_wf(self.src@, r),
    {
        let mut value: u32 = (d as u32) - ('0' as u32);
        let mut cur = c;
        match self.peek_char(cur) {
            Some(d2) => {
                if Self::is_octal_digit(d2) {
                    value = value * 8 + ((d2 as u32) - ('0' as u32));
                    cur = self.next_char(cur).1;
                    match self.peek_char(cur) {
                        Some(d3) => {
                            if Self::is_octal_digit(d3) {
                                value = value * 8 + ((d3 as u32) - ('0' as u32));
                                cur = self.next_char(cur).1;
                            }
                        },
                        None => {},
                    }
                }
            },
            None => {},
        }
        match char_from_u32(value) {
            Some(ch) => {
                Ok((ch, cur))
            },
            None => Err(self.error(cur, "invalid octal escape")),
        }
    }

    /// One character of a literal or class, escapes decoded; `meta_char` closes
    /// the literal or class and cannot stand unescaped.
    fn parse_escaped_char(&self, c: Cursor, meta_char: Option<char>) -> (r: Result<
        (char, Cursor),
        ParseError,
    >)
        requires
            syntax::wf(self.src@, c@),
        ensures
            agrees(r, syntax::escaped_char(self.src@, c@, meta_char), |v: char| id_char(v)),
            ok_wf(self.src@, r),
    {
        let (first, c1) = self.next_char(c);
        match first {
            Some(ch) => {
                if ch == '\\' {
                    let (second, c2) = self.next_char(c1);
                    match second {
                        Some(e) => {
                            if e == 'n' {
                                Ok(('\n', c2))
                            } else if e == 'r' {
                                Ok(('\r', c2))
                            } else if e == 't' {
                                Ok(('\t', c2))
                            } else if e == 'f' {
                                Ok(('\u{000C}', c2))
                            } else if e == 'u' {
                                self.parse_unicode_escape(c2)
                            } else if Self::is_octal_digit(e) {
                                self.parse_octal_escape(c2, e)
                            } else {
                                Ok((e, c2))
                            }
                        },
                        None => Err(self.error(c2, "unterminated escape")),
                    }
                } else if meta_char != Some(ch) {
                    Ok((ch, c1))
                } else {
                    Err(self.error(c1, "invalid escaped character"))
                }
            },
            None => Err(self.error(c1, "unexpected end of input")),
        }
    }

    fn parse_char_in_class(&self, c: Cursor) -> (r: Result<(char, Cursor), ParseError>)
        requires
            syntax::wf(self.src@, c@),
        ensures
            agrees(r, syntax::escaped_char(self.src@, c@, Some(']')), |v: char| id_char(v)),
            ok_wf(self.src@, r),
    {
        self.parse_escaped_char(c, Some(']'))
    }

    #[verifier::loop_isolation(false)]
    fn parse_char_class(&self, c: Cursor) -> (r: Result<(Expr, Cursor), ParseError>)
        requires
            syntax::wf(self.src@, c@),
        ensures
            agrees(r, syntax::char_class(self.src@, c@), |v: Expr| view_of_expr(v)),
            ok_wf(self.src@, r),
    {
        let ghost s = self.src@;
        let pos = self.pos(c);
        let c1 = self.expect_raw(c, '[')?;
        let (positive, c2) = if self.peek_char(c1) == Some('^') {
            (false, self.next_char(c1).1)
        } else {
            (true, c1)
        };
        let mut elems: Vec<CharClassElement> = Vec::new();
        let mut cur = c2;
        while self.peek_char(cur) != Some(']')
            invariant
                s == self.src@,
                syntax::wf(s, cur@),
                syntax::class_elements(s, c2@, Seq::empty()) == syntax::class_elements(
                    s,
                    cur@,
                    elems@,
                ),
            decreases s.len() - cur.idx,
        {
            if self.is_eof(cur) {
                return Err(self.error(cur, "unterminated character class"));
            }
            let (first, c3) = self.parse_char_in_class(cur)?;
            proof {
                syntax::lemma_escaped_char(s, cur@, Some(']'));
            }
            if self.peek_char(c3) == Some('-') && self.peek_char(self.next_char(c3).1) != Some(']') {
                let c4 = self.next_char(c3).1;
                let (second, c5) = self.parse_char_in_class(c4)?;
                proof {
                    syntax::lemma_escaped_char(s, c4@, Some(']'));
                }
                elems.push(CharClassElement::CharRange(first, second));
                cur = c5;
            } else {
                elems.push(CharClassElement::OneChar(first));
                cur = c3;
            }
        }
        let c6 = self.expect_raw(cur, ']')?;
        let c7 = self.skip_spacing(c6);
        Ok((Expr::CharClass(pos, positive, elems), c7))
    }

    #[verifier::loop_isolation(false)]
    fn parse_literal(&self, c: Cursor) -> (r: Result<(Expr, Cursor), ParseError>)
        requires
            syntax::wf(self.src@, c@),
        ensures
            agrees(r, syntax::literal(self.src@, c@), |v: Expr| view_of_expr(v)),
            ok_wf(self.src@, r),
    {
        let ghost s = self.src@;
        let pos = self.pos(c);
        let c1 = self.expect_raw(c, '"')?;
        let mut out = String::new();
        let mut cur = c1;
        while self.peek_char(cur) != Some('"')
            invariant
                s == self.src@,
                syntax::wf(s, cur@),
                syntax::literal_chars(s, c1@, Seq::empty()) == syntax::literal_chars(
                    s,
                    cur@,
                    out@,
                ),
            decreases s.len() - cur.idx,
        {
            if self.is_eof(cur) {
                return Err(self.error(cur, "unterminated string literal"));
            }
            let (ch, c2) = self.parse_escaped_char(cur, Some('"'))?;
            proof {
                syntax::lemma_escaped_char(s, cur@, Some('"'));
            }
            string_push(&mut out, ch);
            cur = c2;
        }
        let c3 = self.expect_raw(cur, '"')?;
        let c4 = self.skip_spacing(c3);
        Ok((Expr::StringLiteral(pos, out), c4))
    }

    /// Reads a parameter type (`?`, or `(T, ...)` with an optional `-> T`) and drops it.
    #[verifier::loop_isolation(false)]
    fn skip_type_tree(&self, c: Cursor) -> (r: Result<Cursor, ParseError>)
        requires
            syntax::wf(self.src@, c@),
        ensures
            agrees_cursor(r, syntax::type_tree(self.src@, c@)),
            r matches Ok(c1) ==> syntax::wf(self.src@, c1@),
        decreases self.src@.len() - c.idx,
    {
        let ghost s = self.src@;
        let c1 = self.skip_spacing(c);
        proof {
            syntax::lemma_skip_spacing(s, c@);
        }
        if self.peek_char(c1) == Some('(') {
            let c2 = self.expect_char(c1, '(')?;
            proof {
                syntax::lemma_expect_char(s, c1@, '(');
            }
            let mut cur = c2;
            if self.peek_char(c2) != Some(')') {
                let mut more = true;
                while more
                    invariant
                        s == self.src@,
                        syntax::wf(s, cur@),
                        c.idx < c2.idx <= cur.idx,
                        more ==> syntax::type_list(s, c2@) == syntax::type_list(s, cur@),
                        !more ==> syntax::type_list(s, c2@) == Ok::<SCursor, SParseError>(cur@),
                    decreases s.len() - cur.idx,
                {
                    proof {
                        syntax::lemma_type_tree(s, cur@);
                    }
                    let c3 = self.skip_type_tree(cur)?;
                    if self.peek_char(c3) == Some(',') {
                        cur = self.skip_spacing(self.next_char(c3).1);
                        proof {
                            syntax::lemma_skip_spacing(s, syntax::step(s, c3@));
                        }
                    } else {
                        cur = c3;
                        more = false;
                    }
                }
            }
            let c4 = self.expect_char(cur, ')')?;
            if self.peek_char(c4) == Some('-') {
                let c5 = self.expect_raw(self.next_char(c4).1, '>')?;
                let c6 = self.skip_spacing(c5);
                proof {
                    syntax::lemma_expect_char(s, cur@, ')');
                    syntax::lemma_expect_char(s, syntax::step(s, c4@), '>');
                    syntax::lemma_skip_spacing(s, c5@);
                }
                self.skip_type_tree(c6)
            } else {
                Ok(c4)
            }
        } else if self.peek_char(c1) == Some('?') {
            Ok(self.skip_spacing(self.next_char(c1).1))
        } else {
            Err(self.error(c1, "expected type"))
        }
    }

    #[verifier::loop_isolation(false)]
    fn parse_expression(&self, c: Cursor) -> (r: Result<(Expr, Cursor), ParseError>)
        requires
            syntax::wf(self.src@, c@),
        ensures
            agrees(r, syntax::expression(self.src@, c@), |v: Expr| view_of_expr(v)),
            ok_wf(self.src@, r),
        decreases self.src@.len() - c.idx, 10nat,
    {
        let ghost s = self.src@;
        let (first, c1) = self.parse_sequence(c)?;
        proof {
            syntax::lemma_sequence(s, c@);
        }
        let mut acc = first;
        let mut cur = c1;
        while self.peek_char(cur) == Some('/') || self.peek_char(cur) == Some('|')
            invariant
                syntax::wf(s, cur@),
                c.idx < cur.idx,
                syntax::expression(s, c@) == syntax::alternatives(s, cur@, acc@),
            decreases s.len() - cur.idx,
        {
            let c2 = self.skip_spacing(self.next_char(cur).1);
            proof {
                syntax::lemma_skip_spacing(s, syntax::step(s, cur@));
                syntax::lemma_sequence(s, c2@);
            }
            let (rhs, c3) = self.parse_sequence(c2)?;
            let p = rhs.pos();
            acc = Expr::Alternation(p, Box::new(acc), Box::new(rhs));
            cur = c3;
        }
        Ok((acc, cur))
    }

    /// Skips spacing and tells whether another element of a sequence starts there.
    fn is_sequence_start(&self, c: Cursor) -> (r: (bool, Cursor))
        requires
            syntax::wf(self.src@, c@),
        ensures
            r.1@ == syntax::skip_spacing(self.src@, c@),
            syntax::wf(self.src@, r.1@),
            r.0 == syntax::starts_sequence_element(syntax::peek(self.src@, r.1@)),
    {
        let c1 = self.skip_spacing(c);
        let starts = match self.peek_char(c1) {
            Some(ch) => (ch == '&' || ch == '!' || ch == '[' || ch == '(' || ch == '.' || ch == '_'
                || ch == '"' || ('a' <= ch && ch <= 'z') || ('A' <= ch && ch <= 'Z')) && !(ch
                == '/' || ch == '|' || ch == ')' || ch == ';'),
            None => false,
        };
        (starts, c1)
    }

    #[verifier::loop_isolation(false)]
    fn parse_sequence(&self, c: Cursor) -> (r: Result<(Expr, Cursor), ParseError>)
        requires
            syntax::wf(self.src@, c@),
        ensures
            agrees(r, syntax::sequence(self.src@, c@), |v: Expr| view_of_expr(v)),
            ok_wf(self.src@, r),
        decreases self.src@.len() - c.idx, 8nat,
    {
        let ghost s = self.src@;
        let (first, c1) = self.parse_prefix(c)?;
        proof {
            syntax::lemma_prefixed(s, c@);
        }
        let mut acc = first;
        let mut cur = c1;
        let (mut more, mut next) = self.is_sequence_start(cur);
        while more
            invariant
                syntax::wf(s, cur@),
                syntax::wf(s, next@),
                c.idx < cur.idx,
                next@ == syntax::skip_spacing(s, cur@),
                more == syntax::starts_sequence_element(syntax::peek(s, next@)),
                syntax::sequence(s, c@) == syntax::sequence_rest(s, cur@, acc@),
            decreases s.len() - cur.idx,
        {
            proof {
                syntax::lemma_skip_spacing(s, cur@);
                syntax::lemma_prefixed(s, next@);
            }
            let (element, c2) = self.parse_prefix(next)?;
            let p = element.pos();
            acc = Expr::Sequence(p, Box::new(acc), Box::new(element));
            cur = c2;
            let (m, n) = self.is_sequence_start(cur);
            more = m;
            next = n;
        }
        Ok((acc, next))
    }

    fn parse_prefix(&self, c: Cursor) -> (r: Result<(Expr, Cursor), ParseError>)
        requires
            syntax::wf(self.src@, c@),
        ensures
            agrees(r, syntax::prefixed(self.src@, c@), |v: Expr| view_of_expr(v)),
            ok_wf(self.src@, r),
        decreases self.src@.len() - c.idx, 6nat,
    {
        let ghost s = self.src@;
        let head = self.peek_char(c);
        if head == Some('&') || head == Some('!') {
            let pos = self.pos(c);
            let c1 = self.skip_spacing(self.next_char(c).1);
            proof {
                syntax::lemma_skip_spacing(s, syntax::step(s, c@));
            }
            let (body, c2) = self.parse_suffix(c1)?;
            if head == Some('&') {
                Ok((Expr::AndPredicate(pos, Box::new(body)), c2))
            } else {
                Ok((Expr::NotPredicate(pos, Box::new(body)), c2))
            }
        } else {
            self.parse_suffix(c)
        }
    }

    fn parse_suffix(&self, c: Cursor) -> (r: Result<(Expr, Cursor), ParseError>)
        requires
            syntax::wf(self.src@, c@),
        ensures
            agrees(r, syntax::suffixed(self.src@, c@), |v: Expr| view_of_expr(v)),
            ok_wf(self.src@, r),
        decreases self.src@.len() - c.idx, 5nat,
    {
        let (primary, c1) = self.parse_primary(c)?;
        let next = self.peek_char(c1);
        if next == Some('?') {
            let pos = self.pos(c1);
            let c2 = self.skip_spacing(self.next_char(c1).1);
            Ok((Expr::Optional(pos, Box::new(primary)), c2))
        } else if next == Some('*') {
            let pos = self.pos(c1);
            let c2 = self.skip_spacing(self.next_char(c1).1);
            Ok((Expr::Repeat0(pos, Box::new(primary)), c2))
        } else if next == Some('+') {
            let pos = self.pos(c1);
            let c2 = self.skip_spacing(self.next_char(c1).1);
            Ok((Expr::Repeat1(pos, Box::new(primary)), c2))
        } else {
            Ok((primary, c1))
        }
    }

    fn parse_primary(&self, c: Cursor) -> (r: Result<(Expr, Cursor), ParseError>)
        requires
            syntax::wf(self.src@, c@),
        ensures
            agrees(r, syntax::primary(self.src@, c@), |v: Expr| view_of_expr(v)),
            ok_wf(self.src@, r),
        decreases self.src@.len() - c.idx, 4nat,
    {
        let ghost s = self.src@;
        proof {
            syntax::lemma_keyword_debug(s, c@);
        }
        match self.try_keyword(c, "Debug") {
            Some(c1) => {
                let pos = self.pos(c1);
                let c2 = self.skip_spacing(c1);
                let c3 = self.expect_char(c2, '(')?;
                proof {
                    syntax::lemma_skip_spacing(s, c1@);
                    syntax::lemma_expect_char(s, c2@, '(');
                }
                let (body, c4) = self.parse_expression(c3)?;
                let c5 = self.expect_char(c4, ')')?;
                return Ok((Expr::Debug(pos, Box::new(body)), c5));
            },
            None => {},
        }
        let (called, c1) = self.try_parse_call(c)?;
        if let Some(e) = called {
            return Ok((e, c1));
        }
        if self.is_ident_start(c) {
            let ((pos, name), c2) = self.parse_identifier_with_spacing(c)?;
            return Ok((Expr::Identifier(pos, name), c2));
        }
        let head = self.peek_char(c);
        if head == Some('[') {
            self.parse_char_class(c)
        } else if head == Some('(') {
            self.parse_group_or_function(c)
        } else if head == Some('.') {
            let pos = self.pos(c);
            let c2 = self.skip_spacing(self.next_char(c).1);
            Ok((Expr::Wildcard(pos), c2))
        } else if head == Some('_') {
            let pos = self.pos(c);
            let c2 = self.skip_spacing(self.next_char(c).1);
            Ok((Expr::StringLiteral(pos, String::new()), c2))
        } else if head == Some('"') {
            self.parse_literal(c)
        } else {
            Err(self.error(c, "expected primary expression"))
        }
    }

    /// A call `name(args)`; `None`, with the cursor unmoved, where no call stands.
    #[verifier::loop_isolation(false)]
    fn try_parse_call(&self, c: Cursor) -> (r: Result<(Option<Expr>, Cursor), ParseError>)
        requires
            syntax::wf(self.src@, c@),
        ensures
            agrees(r, syntax::call(self.src@, c@), |v: Option<Expr>| view_of_called(v)),
            ok_wf(self.src@, r),
        decreases self.src@.len() - c.idx, 3nat,
    {
        let ghost s = self.src@;
        if !self.is_ident_start(c) {
            return Ok((None, c));
        }
        let ((pos, name), c1) = self.parse_identifier_no_spacing(c)?;
        if self.peek_char(c1) != Some('(') {
            return Ok((None, c));
        }
        let c2 = self.expect_char(c1, '(')?;
        proof {
            syntax::lemma_identifier(s, c@);
            syntax::lemma_expect_char(s, c1@, '(');
        }
        let mut args: Vec<Expr> = Vec::new();
        let mut cur = c2;
        if self.peek_char(c2) != Some(')') {
            let mut more = true;
            while more
                invariant
                    syntax::wf(s, cur@),
                    c.idx < cur.idx,
                    more ==> syntax::call_arguments(s, c2@, Seq::empty())
                        == syntax::call_arguments(s, cur@, ast::view_exprs(args@)),
                    !more ==> syntax::call_arguments(s, c2@, Seq::empty()) == Ok::<
                        (Seq<ast::SExpr>, SCursor),
                        SParseError,
                    >((ast::view_exprs(args@), cur@)),
                decreases s.len() - cur.idx,
            {
                proof {
                    syntax::lemma_expression(s, cur@);
                }
                let (e, c3) = self.parse_expression(cur)?;
                proof {
                    ast::lemma_view_exprs_push(args@, e);
                }
                args.push(e);
                if self.peek_char(c3) == Some(',') {
                    cur = self.skip_spacing(self.next_char(c3).1);
                    proof {
                        syntax::lemma_skip_spacing(s, syntax::step(s, c3@));
                    }
                } else {
                    cur = c3;
                    more = false;
                }
            }
        }
        let c4 = self.expect_char(cur, ')')?;
        Ok((Some(Expr::Call(pos, name, args)), c4))
    }

    /// `(a, b -> body)`, or else a parenthesized expression.
    #[verifier::loop_isolation(false)]
    fn parse_group_or_function(&self, c: Cursor) -> (r: Result<(Expr, Cursor), ParseError>)
        requires
            syntax::wf(self.src@, c@),
        ensures
            agrees(r, syntax::group_or_function(self.src@, c@), |v: Expr| view_of_expr(v)),
            ok_wf(self.src@, r),
        decreases self.src@.len() - c.idx, 2nat,
    {
        let ghost s = self.src@;
        let open_pos = self.pos(c);
        let c1 = self.expect_char(c, '(')?;
        proof {
            syntax::lemma_expect_char(s, c@, '(');
        }
        let mut params: Vec<String> = Vec::new();
        let mut lambda = true;
        let mut cur = c1;
        if self.peek_char(c1) != Some(')') {
            if self.is_ident_start(c1) {
                let mut more = true;
                assert(ast::view_strings(params@) =~= Seq::<Seq<char>>::empty());
                while more
                    invariant
                        syntax::wf(s, cur@),
                        c1.idx <= cur.idx,
                        more ==> lambda,
                        more ==> syntax::starts_ident(syntax::peek(s, cur@)),
                        more ==> syntax::function_params(s, c1@, Seq::empty())
                            == syntax::function_params(s, cur@, ast::view_strings(params@)),
                        !more ==> syntax::function_params(s, c1@, Seq::empty()) == Ok::<
                            ((Seq<Seq<char>>, bool), SCursor),
                            SParseError,
                        >(((ast::view_strings(params@), lambda), cur@)),
                    decreases s.len() - cur.idx,
                {
                    proof {
                        syntax::lemma_identifier(s, cur@);
                    }
                    let ((_, name), c2) = self.parse_identifier_with_spacing(cur)?;
                    proof {
                        assert(ast::view_strings(params@.push(name)) =~= ast::view_strings(
                            params@,
                        ).push(name@));
                    }
                    params.push(name);
                    if self.peek_char(c2) == Some(',') {
                        let c3 = self.skip_spacing(self.next_char(c2).1);
                        proof {
                            syntax::lemma_skip_spacing(s, syntax::step(s, c2@));
                        }
                        cur = c3;
                        if !self.is_ident_start(c3) {
                            lambda = false;
                            more = false;
                        }
                    } else {
                        cur = c2;
                        more = false;
                    }
                }
            } else {
                lambda = false;
            }
        }
        if lambda && self.peek_char(cur) == Some('-') {
            let c3 = self.next_char(cur).1;
            if self.peek_char(c3) != Some('>') {
                return self.parse_group_expression(c);
            }
            let c4 = self.skip_spacing(self.next_char(c3).1);
            proof {
                syntax::lemma_function_params(s, c1@, Seq::empty());
                syntax::lemma_skip_spacing(s, syntax::step(s, c3@));
            }
            let (body, c5) = self.parse_expression(c4)?;
            let c6 = self.expect_char(c5, ')')?;
            return Ok((Expr::Function(open_pos, params, Box::new(body)), c6));
        }
        self.parse_group_expression(c)
    }

    fn parse_group_expression(&self, c: Cursor) -> (r: Result<(Expr, Cursor), ParseError>)
        requires
            syntax::wf(self.src@, c@),
        ensures
            agrees(r, syntax::group(self.src@, c@), |v: Expr| view_of_expr(v)),
            ok_wf(self.src@, r),
        decreases self.src@.len() - c.idx, 1nat,
    {
        let c1 = self.expect_char(c, '(')?;
        proof {
            syntax::lemma_expect_char(self.src@, c@, '(');
        }
        let (body, c2) = self.parse_expression(c1)?;
        let c3 = self.expect_char(c2, ')')?;
        Ok((body, c3))
    }

    /// The parameter list of a rule; parameter types are read and dropped.
    #[verifier::loop_isolation(false)]
    fn parse_definition_params(&self, c1: Cursor) -> (r: Result<(Vec<String>, Cursor), ParseError>)
        requires
            syntax::wf(self.src@, c1@),
        ensures
            agrees(r, syntax::definition_params(self.src@, c1@), |v: Vec<String>| view_of_names(v)),
            ok_wf(self.src@, r),
    {
        let ghost s = self.src@;
        let mut args: Vec<String> = Vec::new();
        assert(ast::view_strings(args@) =~= Seq::<Seq<char>>::empty());
        if self.peek_char(c1) != Some('(') {
            return Ok((args, c1));
        }
        let c2 = self.expect_char(c1, '(')?;
        let mut cur = c2;
        if self.peek_char(c2) != Some(')') {
            let mut more = true;
            while more
                invariant
                    syntax::wf(s, cur@),
                    more ==> syntax::rule_params(s, c2@, Seq::empty()) == syntax::rule_params(
                        s,
                        cur@,
                        ast::view_strings(args@),
                    ),
                    !more ==> syntax::rule_params(s, c2@, Seq::empty()) == Ok::<
                        (Seq<Seq<char>>, SCursor),
                        SParseError,
                    >((ast::view_strings(args@), cur@)),
                decreases s.len() - cur.idx,
            {
                proof {
                    syntax::lemma_rule_params(s, cur@, ast::view_strings(args@));
                    syntax::lemma_identifier(s, cur@);
                }
                let ((_, arg_name), c3) = self.parse_identifier_with_spacing(cur)?;
                let mut c4 = c3;
                if self.peek_char(c3) == Some(':') {
                    let c5 = self.skip_spacing(self.next_char(c3).1);
                    c4 = self.skip_type_tree(c5)?;
                    proof {
                        syntax::lemma_skip_spacing(s, syntax::step(s, c3@));
                        syntax::lemma_type_tree(s, c5@);
                    }
                }
                proof {
                    assert(ast::view_strings(args@.push(arg_name)) =~= ast::view_strings(
                        args@,
                    ).push(arg_name@));
                }
                args.push(arg_name);
                if self.peek_char(c4) == Some(',') {
                    cur = self.skip_spacing(self.next_char(c4).1);
                    proof {
                        syntax::lemma_skip_spacing(s, syntax::step(s, c4@));
                    }
                } else {
                    cur = c4;
                    more = false;
                }
            }
        }
        let c6 = self.expect_char(cur, ')')?;
        Ok((args, c6))
    }

    /// `name = body;` or `name(params) = body;`.
    fn parse_definition(&self, c: Cursor) -> (r: Result<(Rule, Cursor), ParseError>)
        requires
            syntax::wf(self.src@, c@),
        ensures
            agrees(r, syntax::definition(self.src@, c@), |v: Rule| view_of_rule(v)),
            ok_wf(self.src@, r),
    {
        let ((pos, name), c1) = self.parse_identifier_with_spacing(c)?;
        let (args, c5) = self.parse_definition_params(c1)?;
        let c6 = self.expect_char(c5, '=')?;
        let (body, c7) = self.parse_expression(c6)?;
        let c8 = self.expect_char(c7, ';')?;
        Ok((Rule { pos, name, body, args }, c8))
    }

    #[verifier::loop_isolation(false)]
    fn parse_grammar(&self) -> (r: Result<Grammar, ParseError>)
        ensures
            match syntax::spec_parse_grammar(self.src@) {
                Ok(g) => r matches Ok(g2) && g2@ == g,
                Err(e) => r matches Err(e2) && e2@ == e,
            },
    {
        let ghost s = self.src@;
        let c0 = Cursor { idx: 0, line: 0, column: 0 };
        let pos = self.pos(c0);
        let mut cur = self.skip_spacing(c0);
        let mut rules: Vec<Rule> = Vec::new();
        assert(ast::view_rules(rules@) =~= Seq::<ast::SRule>::empty());
        while !self.is_eof(cur)
            invariant
                syntax::wf(s, cur@),
                syntax::definitions(s, syntax::skip_spacing(s, c0@), Seq::empty())
                    == syntax::definitions(s, cur@, ast::view_rules(rules@)),
            decreases s.len() - cur.idx,
        {
            let (rule, c1) = self.parse_definition(cur)?;
            proof {
                syntax::lemma_definition(s, cur@);
                syntax::lemma_skip_spacing(s, c1@);
                assert(ast::view_rules(rules@.push(rule)) =~= ast::view_rules(rules@).push(rule@));
            }
            rules.push(rule);
            cur = self.skip_spacing(c1);
        }
        Ok(Grammar { pos, rules })
    }
}

/// Reads a macro PEG grammar: rules `name = body;` or `name(params) = body;`,
/// separated by spacing and `//` comments.
pub fn parse_macro_peg(input: &str) -> (r: Result<Grammar, ParseError>)
    ensures
        match syntax::spec_parse_grammar(input@) {
            Ok(g) => r matches Ok(g2) && g2@ == g,
            Err(e) => r matches Err(e2) && e2@ == e,
        },
{
    Parser::new(input).parse_grammar()
}

} // verus!
