//! Syntax trees of macro PEG grammars, together with their mathematical views.
use crate::text;
use vstd::prelude::*;

verus! {

/// A zero-based line and column in a grammar source.
#[derive(Clone, Copy, Debug, PartialEq, Eq)]
pub struct Position {
    pub line: usize,
    pub column: usize,
}

impl Position {
    /// The position given to values that do not come from a source text.
    pub fn dummy() -> (p: Position)
        ensures
            p == dummy_position(),
    {
        Position { line: usize::MAX, column: usize::MAX }
    }
}

pub open spec fn dummy_position() -> Position {
    Position { line: usize::MAX, column: usize::MAX }
}

/// A parsed grammar: its rules in source order.
#[derive(Debug, PartialEq, Eq)]
pub struct Grammar {
    pub pos: Position,
    pub rules: Vec<Rule>,
}

/// One rule `name(args) = body;`.
#[derive(Debug, PartialEq, Eq)]
pub struct Rule {
    pub pos: Position,
    pub name: String,
    pub body: Expr,
    pub args: Vec<String>,
}

/// A parsing expression.  `CharSet` is the expanded form of `CharClass`:
/// the characters it accepts.  Two character sets are equal when they hold
/// the same characters, in whatever order.
#[derive(Debug, Eq)]
pub enum Expr {
    Sequence(Position, Box<Expr>, Box<Expr>),
    Alternation(Position, Box<Expr>, Box<Expr>),
    Repeat0(Position, Box<Expr>),
    Repeat1(Position, Box<Expr>),
    Optional(Position, Box<Expr>),
    AndPredicate(Position, Box<Expr>),
    NotPredicate(Position, Box<Expr>),
    StringLiteral(Position, String),
    Wildcard(Position),
    CharClass(Position, bool, Vec<CharClassElement>),
    CharSet(Position, bool, Vec<char>),
    Debug(Position, Box<Expr>),
    Call(Position, String, Vec<Expr>),
    Identifier(Position, String),
    Function(Position, Vec<String>, Box<Expr>),
}

#[derive(Clone, Copy, Debug, PartialEq, Eq)]
pub enum CharClassElement {
    OneChar(char),
    CharRange(char, char),
}

#[derive(Clone, Copy, Debug, PartialEq, Eq)]
pub enum EvaluationStrategy {
    CallByName,
    CallByValueSeq,
    CallByValuePar,
}

/// The outcome of matching a grammar against an input: the unconsumed rest, or failure.
#[derive(Debug, PartialEq, Eq)]
pub enum EvaluationResult {
    Success(String),
    Failure,
}

#[derive(Debug, PartialEq, Eq)]
pub struct ParseError {
    pub pos: Position,
    pub message: String,
}

// ----------------------------------------------------------------------------
// Mathematical views
// ----------------------------------------------------------------------------

/// The view of an [`Expr`]: strings become character sequences.
pub enum SExpr {
    Sequence(Position, Box<SExpr>, Box<SExpr>),
    Alternation(Position, Box<SExpr>, Box<SExpr>),
    Repeat0(Position, Box<SExpr>),
    Repeat1(Position, Box<SExpr>),
    Optional(Position, Box<SExpr>),
    AndPredicate(Position, Box<SExpr>),
    NotPredicate(Position, Box<SExpr>),
    StringLiteral(Position, Seq<char>),
    Wildcard(Position),
    CharClass(Position, bool, Seq<CharClassElement>),
    CharSet(Position, bool, Seq<char>),
    Debug(Position, Box<SExpr>),
    Call(Position, Seq<char>, Seq<SExpr>),
    Identifier(Position, Seq<char>),
    Function(Position, Seq<Seq<char>>, Box<SExpr>),
}

pub struct SRule {
    pub pos: Position,
    pub name: Seq<char>,
    pub body: SExpr,
    pub args: Seq<Seq<char>>,
}

pub struct SGrammar {
    pub pos: Position,
    pub rules: Seq<SRule>,
}

pub struct SParseError {
    pub pos: Position,
    pub message: Seq<char>,
}

pub open spec fn view_strings(s: Seq<String>) -> Seq<Seq<char>> {
    s.map_values(|x: String| x@)
}

pub open spec fn view_expr(e: Expr) -> SExpr
    decreases e,
{
    match e {
        Expr::Sequence(p, a, b) => SExpr::Sequence(p, Box::new(view_expr(*a)), Box::new(view_expr(*b))),
        Expr::Alternation(p, a, b) => SExpr::Alternation(
            p,
            Box::new(view_expr(*a)),
            Box::new(view_expr(*b)),
        ),
        Expr::Repeat0(p, a) => SExpr::Repeat0(p, Box::new(view_expr(*a))),
        Expr::Repeat1(p, a) => SExpr::Repeat1(p, Box::new(view_expr(*a))),
        Expr::Optional(p, a) => SExpr::Optional(p, Box::new(view_expr(*a))),
        Expr::AndPredicate(p, a) => SExpr::AndPredicate(p, Box::new(view_expr(*a))),
        Expr::NotPredicate(p, a) => SExpr::NotPredicate(p, Box::new(view_expr(*a))),
        Expr::StringLiteral(p, s) => SExpr::StringLiteral(p, s@),
        Expr::Wildcard(p) => SExpr::Wildcard(p),
        Expr::CharClass(p, b, elems) => SExpr::CharClass(p, b, elems@),
        Expr::CharSet(p, b, set) => SExpr::CharSet(p, b, set@),
        Expr::Debug(p, a) => SExpr::Debug(p, Box::new(view_expr(*a))),
        Expr::Call(p, n, args) => SExpr::Call(p, n@, view_exprs(args@)),
        Expr::Identifier(p, n) => SExpr::Identifier(p, n@),
        Expr::Function(p, ps, b) => SExpr::Function(p, view_strings(ps@), Box::new(view_expr(*b))),
    }
}

pub open spec fn view_exprs(s: Seq<Expr>) -> Seq<SExpr>
    decreases s,
{
    if s.len() == 0 {
        Seq::empty()
    } else {
        view_exprs(s.drop_last()).push(view_expr(s.last()))
    }
}

pub proof fn lemma_view_exprs_len(s: Seq<Expr>)
    ensures
        view_exprs(s).len() == s.len(),
    decreases s.len(),
{
    if s.len() > 0 {
        lemma_view_exprs_len(s.drop_last());
    }
}

pub proof fn lemma_view_exprs_index(s: Seq<Expr>, i: int)
    requires
        0 <= i < s.len(),
    ensures
        view_exprs(s).len() == s.len(),
        view_exprs(s)[i] == view_expr(s[i]),
    decreases s.len(),
{
    lemma_view_exprs_len(s);
    if i < s.len() - 1 {
        lemma_view_exprs_index(s.drop_last(), i);
    }
}

pub proof fn lemma_view_exprs_push(s: Seq<Expr>, e: Expr)
    ensures
        view_exprs(s.push(e)) == view_exprs(s).push(view_expr(e)),
{
    assert(s.push(e).drop_last() == s);
}

impl View for Expr {
    type V = SExpr;

    open spec fn view(&self) -> SExpr {
        view_expr(*self)
    }
}

impl View for Rule {
    type V = SRule;

    open spec fn view(&self) -> SRule {
        SRule { pos: self.pos, name: self.name@, body: self.body@, args: view_strings(self.args@) }
    }
}

pub open spec fn view_rules(s: Seq<Rule>) -> Seq<SRule> {
    s.map_values(|r: Rule| r@)
}

impl View for Grammar {
    type V = SGrammar;

    open spec fn view(&self) -> SGrammar {
        SGrammar { pos: self.pos, rules: view_rules(self.rules@) }
    }
}

impl View for ParseError {
    type V = SParseError;

    open spec fn view(&self) -> SParseError {
        SParseError { pos: self.pos, message: self.message@ }
    }
}

impl View for EvaluationResult {
    type V = Option<Seq<char>>;

    /// `Some(rest)` for a success that leaves `rest` unconsumed.
    open spec fn view(&self) -> Option<Seq<char>> {
        match self {
            EvaluationResult::Success(rest) => Some(rest@),
            EvaluationResult::Failure => None,
        }
    }
}

/// The position stored in an expression.
pub open spec fn spec_pos(e: SExpr) -> Position {
    match e {
        SExpr::Sequence(p, ..) => p,
        SExpr::Alternation(p, ..) => p,
        SExpr::Repeat0(p, ..) => p,
        SExpr::Repeat1(p, ..) => p,
        SExpr::Optional(p, ..) => p,
        SExpr::AndPredicate(p, ..) => p,
        SExpr::NotPredicate(p, ..) => p,
        SExpr::StringLiteral(p, ..) => p,
        SExpr::Wildcard(p) => p,
        SExpr::CharClass(p, ..) => p,
        SExpr::CharSet(p, ..) => p,
        SExpr::Debug(p, ..) => p,
        SExpr::Call(p, ..) => p,
        SExpr::Identifier(p, ..) => p,
        SExpr::Function(p, ..) => p,
    }
}

impl Expr {
    /// The position where this expression was recorded.
    pub fn pos(&self) -> (p: Position)
        ensures
            p == spec_pos(self@),
    {
        match self {
            Expr::Sequence(pos, ..) => *pos,
            Expr::Alternation(pos, ..) => *pos,
            Expr::Repeat0(pos, ..) => *pos,
            Expr::Repeat1(pos, ..) => *pos,
            Expr::Optional(pos, ..) => *pos,
            Expr::AndPredicate(pos, ..) => *pos,
            Expr::NotPredicate(pos, ..) => *pos,
            Expr::StringLiteral(pos, ..) => *pos,
            Expr::Wildcard(pos) => *pos,
            Expr::CharClass(pos, ..) => *pos,
            Expr::CharSet(pos, ..) => *pos,
            Expr::Debug(pos, ..) => *pos,
            Expr::Call(pos, ..) => *pos,
            Expr::Identifier(pos, ..) => *pos,
            Expr::Function(pos, ..) => *pos,
        }
    }
}

impl ParseError {
    /// The error as text: `line, column: message`.
    pub fn to_string(&self) -> (s: String)
        ensures
            s@ == text::decimal(self.pos.line as nat) + seq![',', ' '] + text::decimal(
                self.pos.column as nat,
            ) + seq![':', ' '] + self.message@,
    {
        let mut s = String::new();
        text::push_decimal(&mut s, self.pos.line);
        text::string_push(&mut s, ',');
        text::string_push(&mut s, ' ');
        text::push_decimal(&mut s, self.pos.column);
        text::string_push(&mut s, ':');
        text::string_push(&mut s, ' ');
        text::push_all(&mut s, self.message.as_str());
        proof {
            assert(s@ =~= text::decimal(self.pos.line as nat) + seq![',', ' '] + text::decimal(
                self.pos.column as nat,
            ) + seq![':', ' '] + self.message@);
        }
        s
    }
}

impl EvaluationResult {
    pub fn is_success(&self) -> (b: bool)
        ensures
            b == (self@ is Some),
    {
        match self {
            EvaluationResult::Success(_) => true,
            EvaluationResult::Failure => false,
        }
    }
}

// ----------------------------------------------------------------------------
// Copies with known views
// ----------------------------------------------------------------------------

pub fn clone_strings(v: &Vec<String>) -> (r: Vec<String>)
    ensures
        view_strings(r@) == view_strings(v@),
{
    let mut r: Vec<String> = Vec::new();
    let mut i: usize = 0;
    while i < v.len()
        invariant
            i <= v.len(),
            view_strings(r@) == view_strings(v@.take(i as int)),
        decreases v.len() - i,
    {
        let ghost prev = r@;
        r.push(v[i].clone());
        assert(view_strings(r@) =~= view_strings(prev).push(v@[i as int]@));
        assert(view_strings(v@.take(i + 1)) =~= view_strings(v@.take(i as int)).push(v@[i as int]@));
        i += 1;
    }
    assert(v@.take(v.len() as int) == v@);
    r
}

pub fn clone_exprs(v: &Vec<Expr>) -> (r: Vec<Expr>)
    ensures
        view_exprs(r@) == view_exprs(v@),
    decreases v,
{
    let mut r: Vec<Expr> = Vec::new();
    let mut i: usize = 0;
    while i < v.len()
        invariant
            i <= v.len(),
            view_exprs(r@) == view_exprs(v@.take(i as int)),
        decreases v.len() - i,
    {
        assert(decreases_to!(v => v@[i as int]));
        let e = v[i].clone();
        proof {
            lemma_view_exprs_push(r@, e);
            assert(v@.take(i + 1).drop_last() == v@.take(i as int));
        }
        r.push(e);
        i += 1;
    }
    assert(v@.take(v.len() as int) == v@);
    r
}

fn clone_elements(v: &Vec<CharClassElement>) -> (r: Vec<CharClassElement>)
    ensures
        r@ == v@,
{
    let mut r: Vec<CharClassElement> = Vec::new();
    let mut i: usize = 0;
    while i < v.len()
        invariant
            i <= v.len(),
            r@ == v@.take(i as int),
        decreases v.len() - i,
    {
        r.push(v[i]);
        assert(r@ == v@.take(i + 1));
        i += 1;
    }
    assert(v@.take(v.len() as int) == v@);
    r
}

fn clone_chars(v: &Vec<char>) -> (r: Vec<char>)
    ensures
        r@ == v@,
{
    let mut r: Vec<char> = Vec::new();
    let mut i: usize = 0;
    while i < v.len()
        invariant
            i <= v.len(),
            r@ == v@.take(i as int),
        decreases v.len() - i,
    {
        r.push(v[i]);
        assert(r@ == v@.take(i + 1));
        i += 1;
    }
    assert(v@.take(v.len() as int) == v@);
    r
}

impl Clone for Expr {
    fn clone(&self) -> (r: Self)
        ensures
            r@ == self@,
        decreases self,
    {
        match self {
            Expr::Sequence(p, a, b) => Expr::Sequence(
                *p,
                Box::new((**a).clone()),
                Box::new((**b).clone()),
            ),
            Expr::Alternation(p, a, b) => Expr::Alternation(
                *p,
                Box::new((**a).clone()),
                Box::new((**b).clone()),
            ),
            Expr::Repeat0(p, a) => Expr::Repeat0(*p, Box::new((**a).clone())),
            Expr::Repeat1(p, a) => Expr::Repeat1(*p, Box::new((**a).clone())),
            Expr::Optional(p, a) => Expr::Optional(*p, Box::new((**a).clone())),
            Expr::AndPredicate(p, a) => Expr::AndPredicate(*p, Box::new((**a).clone())),
            Expr::NotPredicate(p, a) => Expr::NotPredicate(*p, Box::new((**a).clone())),
            Expr::StringLiteral(p, s) => Expr::StringLiteral(*p, s.clone()),
            Expr::Wildcard(p) => Expr::Wildcard(*p),
            Expr::CharClass(p, b, elems) => Expr::CharClass(*p, *b, clone_elements(elems)),
            Expr::CharSet(p, b, set) => Expr::CharSet(*p, *b, clone_chars(set)),
            Expr::Debug(p, a) => Expr::Debug(*p, Box::new((**a).clone())),
            Expr::Call(p, n, args) => Expr::Call(*p, n.clone(), clone_exprs(args)),
            Expr::Identifier(p, n) => Expr::Identifier(*p, n.clone()),
            Expr::Function(p, ps, b) => Expr::Function(
                *p,
                clone_strings(ps),
                Box::new((**b).clone()),
            ),
        }
    }
}

impl Clone for Rule {
    fn clone(&self) -> (r: Self)
        ensures
            r@ == self@,
    {
        Rule {
            pos: self.pos,
            name: self.name.clone(),
            body: self.body.clone(),
            args: clone_strings(&self.args),
        }
    }
}

fn clone_rules(v: &Vec<Rule>) -> (r: Vec<Rule>)
    ensures
        view_rules(r@) == view_rules(v@),
{
    let mut r: Vec<Rule> = Vec::new();
    let mut i: usize = 0;
    while i < v.len()
        invariant
            i <= v@.len(),
            r@.len() == i,
            forall|j: int| 0 <= j < i ==> (#[trigger] r@[j])@ == v@[j]@,
        decreases v@.len() - i,
    {
        r.push(v[i].clone());
        i = i + 1;
    }
    assert(view_rules(r@) =~= view_rules(v@));
    r
}

impl Clone for Grammar {
    fn clone(&self) -> (r: Self)
        ensures
            r@ == self@,
    {
        Grammar { pos: self.pos, rules: clone_rules(&self.rules) }
    }
}

impl Clone for EvaluationResult {
    fn clone(&self) -> (r: Self)
        ensures
            r@ == self@,
    {
        match self {
            EvaluationResult::Success(rest) => EvaluationResult::Success(rest.clone()),
            EvaluationResult::Failure => EvaluationResult::Failure,
        }
    }
}

impl Clone for ParseError {
    fn clone(&self) -> (r: Self)
        ensures
            r@ == self@,
    {
        ParseError { pos: self.pos, message: self.message.clone() }
    }
}

} // verus!
