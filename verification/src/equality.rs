//! Equality of expressions.  Two character sets are equal when they hold the
//! same characters, in whatever order.
use crate::ast::{CharClassElement, Expr, Position, SExpr};
use crate::ast;
use vstd::prelude::*;
use vstd::std_specs::cmp::PartialEqSpecImpl;

verus! {

/// `a` and `b` are the same expression; character sets are compared as sets.
pub open spec fn same_expr(a: SExpr, b: SExpr) -> bool
    decreases a,
{
    match a {
        SExpr::Sequence(p, l, r) => match b {
            SExpr::Sequence(q, l2, r2) => p == q && same_expr(*l, *l2) && same_expr(*r, *r2),
            _ => false,
        },
        SExpr::Alternation(p, l, r) => match b {
            SExpr::Alternation(q, l2, r2) => p == q && same_expr(*l, *l2) && same_expr(*r, *r2),
            _ => false,
        },
        SExpr::Repeat0(p, x) => match b {
            SExpr::Repeat0(q, y) => p == q && same_expr(*x, *y),
            _ => false,
        },
        SExpr::Repeat1(p, x) => match b {
            SExpr::Repeat1(q, y) => p == q && same_expr(*x, *y),
            _ => false,
        },
        SExpr::Optional(p, x) => match b {
            SExpr::Optional(q, y) => p == q && same_expr(*x, *y),
            _ => false,
        },
        SExpr::AndPredicate(p, x) => match b {
            SExpr::AndPredicate(q, y) => p == q && same_expr(*x, *y),
            _ => false,
        },
        SExpr::NotPredicate(p, x) => match b {
            SExpr::NotPredicate(q, y) => p == q && same_expr(*x, *y),
            _ => false,
        },
        SExpr::Debug(p, x) => match b {
            SExpr::Debug(q, y) => p == q && same_expr(*x, *y),
            _ => false,
        },
        SExpr::StringLiteral(p, t) => match b {
            SExpr::StringLiteral(q, u) => p == q && t == u,
            _ => false,
        },
        SExpr::Wildcard(p) => match b {
            SExpr::Wildcard(q) => p == q,
            _ => false,
        },
        SExpr::CharClass(p, x, es) => match b {
            SExpr::CharClass(q, y, fs) => p == q && x == y && es == fs,
            _ => false,
        },
        SExpr::CharSet(p, x, cs) => match b {
            SExpr::CharSet(q, y, ds) => p == q && x == y && cs.to_set() == ds.to_set(),
            _ => false,
        },
        SExpr::Call(p, n, args) => match b {
            SExpr::Call(q, m, args2) => p == q && n == m && same_exprs(args, args2),
            _ => false,
        },
        SExpr::Identifier(p, n) => match b {
            SExpr::Identifier(q, m) => p == q && n == m,
            _ => false,
        },
        SExpr::Function(p, ps, x) => match b {
            SExpr::Function(q, qs, y) => p == q && ps == qs && same_expr(*x, *y),
            _ => false,
        },
    }
}

/// `a` and `b` have the same length and are the same expression at each index.
pub open spec fn same_exprs(a: Seq<SExpr>, b: Seq<SExpr>) -> bool
    decreases a,
{
    if a.len() != b.len() {
        false
    } else if a.len() == 0 {
        true
    } else {
        same_exprs(a.drop_last(), b.drop_last()) && same_expr(a.last(), b.last())
    }
}

proof fn lemma_same_exprs(a: Seq<SExpr>, b: Seq<SExpr>)
    requires
        a.len() == b.len(),
    ensures
        same_exprs(a, b) <==> forall|k: int| 0 <= k < a.len() ==> same_expr(a[k], b[k]),
    decreases a.len(),
{
    if a.len() > 0 {
        lemma_same_exprs(a.drop_last(), b.drop_last());
        if forall|k: int| 0 <= k < a.len() ==> same_expr(a[k], b[k]) {
            assert forall|k: int| 0 <= k < a.len() - 1 implies same_expr(
                a.drop_last()[k],
                b.drop_last()[k],
            ) by {
                assert(same_expr(a[k], b[k]));
            }
        }
        if same_exprs(a, b) {
            assert forall|k: int| 0 <= k < a.len() implies same_expr(a[k], b[k]) by {
                if k < a.len() - 1 {
                    assert(same_expr(a.drop_last()[k], b.drop_last()[k]));
                }
            }
        }
    }
}

fn same_position(a: Position, b: Position) -> (r: bool)
    ensures
        r == (a == b),
{
    a.line == b.line && a.column == b.column
}

fn same_strings(a: &Vec<String>, b: &Vec<String>) -> (r: bool)
    ensures
        r == (ast::view_strings(a@) == ast::view_strings(b@)),
{
    if a.len() != b.len() {
        return false;
    }
    let mut i: usize = 0;
    while i < a.len()
        invariant
            i <= a@.len(),
            a@.len() == b@.len(),
            forall|k: int| 0 <= k < i ==> a@[k]@ == b@[k]@,
        decreases a@.len() - i,
    {
        if a[i] != b[i] {
            proof {
                assert(ast::view_strings(a@)[i as int] != ast::view_strings(b@)[i as int]);
            }
            return false;
        }
        i = i + 1;
    }
    proof {
        assert(ast::view_strings(a@) =~= ast::view_strings(b@));
    }
    true
}

fn same_element(a: CharClassElement, b: CharClassElement) -> (r: bool)
    ensures
        r == (a == b),
{
    match a {
        CharClassElement::OneChar(x) => match b {
            CharClassElement::OneChar(y) => x == y,
            _ => false,
        },
        CharClassElement::CharRange(x1, x2) => match b {
            CharClassElement::CharRange(y1, y2) => x1 == y1 && x2 == y2,
            _ => false,
        },
    }
}

fn same_elements(a: &Vec<CharClassElement>, b: &Vec<CharClassElement>) -> (r: bool)
    ensures
        r == (a@ == b@),
{
    if a.len() != b.len() {
        return false;
    }
    let mut i: usize = 0;
    while i < a.len()
        invariant
            i <= a@.len(),
            a@.len() == b@.len(),
            forall|k: int| 0 <= k < i ==> a@[k] == b@[k],
        decreases a@.len() - i,
    {
        if !same_element(a[i], b[i]) {
            return false;
        }
        i = i + 1;
    }
    proof {
        assert(a@ =~= b@);
    }
    true
}

/// Whether every character of `a` occurs in `b`.
fn chars_within(a: &Vec<char>, b: &Vec<char>) -> (r: bool)
    ensures
        r == (forall|x: char| a@.contains(x) ==> b@.contains(x)),
{
    let mut i: usize = 0;
    while i < a.len()
        invariant
            i <= a@.len(),
            forall|k: int| 0 <= k < i ==> b@.contains(#[trigger] a@[k]),
        decreases a@.len() - i,
    {
        let ch = a[i];
        let mut found = false;
        let mut j: usize = 0;
        while j < b.len()
            invariant
                j <= b@.len(),
                found ==> b@.contains(ch),
                !found ==> forall|k: int| 0 <= k < j ==> b@[k] != ch,
            decreases b@.len() - j,
        {
            if b[j] == ch {
                found = true;
            }
            j = j + 1;
        }
        if !found {
            proof {
                assert(a@.contains(ch) && !b@.contains(ch));
            }
            return false;
        }
        i = i + 1;
    }
    proof {
        assert forall|x: char| a@.contains(x) implies b@.contains(x) by {
            let k = choose|k: int| 0 <= k < a@.len() && a@[k] == x;
            assert(b@.contains(a@[k]));
        }
    }
    true
}

fn same_char_sets(a: &Vec<char>, b: &Vec<char>) -> (r: bool)
    ensures
        r == (a@.to_set() == b@.to_set()),
{
    let r = chars_within(a, b) && chars_within(b, a);
    proof {
        if r {
            assert(a@.to_set() =~= b@.to_set());
        } else if a@.to_set() == b@.to_set() {
            assert forall|x: char| a@.contains(x) implies b@.contains(x) by {
                assert(a@.to_set().contains(x));
            }
            assert forall|x: char| b@.contains(x) implies a@.contains(x) by {
                assert(b@.to_set().contains(x));
            }
        }
    }
    r
}

fn same_expr_vecs(a: &Vec<Expr>, b: &Vec<Expr>) -> (r: bool)
    ensures
        r == same_exprs(ast::view_exprs(a@), ast::view_exprs(b@)),
    decreases a,
{
    proof {
        ast::lemma_view_exprs_len(a@);
        ast::lemma_view_exprs_len(b@);
    }
    if a.len() != b.len() {
        return false;
    }
    proof {
        lemma_same_exprs(ast::view_exprs(a@), ast::view_exprs(b@));
    }
    let mut i: usize = 0;
    while i < a.len()
        invariant
            i <= a@.len(),
            a@.len() == b@.len(),
            ast::view_exprs(a@).len() == a@.len(),
            ast::view_exprs(b@).len() == b@.len(),
            same_exprs(ast::view_exprs(a@), ast::view_exprs(b@)) <==> forall|k: int|
                0 <= k < a@.len() ==> same_expr(ast::view_exprs(a@)[k], ast::view_exprs(b@)[k]),
            forall|k: int|
                0 <= k < i ==> same_expr(ast::view_exprs(a@)[k], ast::view_exprs(b@)[k]),
        decreases a@.len() - i,
    {
        assert(decreases_to!(a => a@[i as int]));
        proof {
            ast::lemma_view_exprs_index(a@, i as int);
            ast::lemma_view_exprs_index(b@, i as int);
        }
        if !a[i].eq(&b[i]) {
            return false;
        }
        i = i + 1;
    }
    true
}

impl PartialEq for Expr {
    fn eq(&self, other: &Self) -> (r: bool)
        decreases self,
    {
        match self {
            Expr::Sequence(p, l, r) => match other {
                Expr::Sequence(q, l2, r2) => same_position(*p, *q) && (**l).eq(&**l2) && (
                **r).eq(&**r2),
                _ => false,
            },
            Expr::Alternation(p, l, r) => match other {
                Expr::Alternation(q, l2, r2) => same_position(*p, *q) && (**l).eq(&**l2) && (
                **r).eq(&**r2),
                _ => false,
            },
            Expr::Repeat0(p, x) => match other {
                Expr::Repeat0(q, y) => same_position(*p, *q) && (**x).eq(&**y),
                _ => false,
            },
            Expr::Repeat1(p, x) => match other {
                Expr::Repeat1(q, y) => same_position(*p, *q) && (**x).eq(&**y),
                _ => false,
            },
            Expr::Optional(p, x) => match other {
                Expr::Optional(q, y) => same_position(*p, *q) && (**x).eq(&**y),
                _ => false,
            },
            Expr::AndPredicate(p, x) => match other {
                Expr::AndPredicate(q, y) => same_position(*p, *q) && (**x).eq(&**y),
                _ => false,
            },
            Expr::NotPredicate(p, x) => match other {
                Expr::NotPredicate(q, y) => same_position(*p, *q) && (**x).eq(&**y),
                _ => false,
            },
            Expr::Debug(p, x) => match other {
                Expr::Debug(q, y) => same_position(*p, *q) && (**x).eq(&**y),
                _ => false,
            },
            Expr::StringLiteral(p, t) => match other {
                Expr::StringLiteral(q, u) => same_position(*p, *q) && *t == *u,
                _ => false,
            },
            Expr::Wildcard(p) => match other {
                Expr::Wildcard(q) => same_position(*p, *q),
                _ => false,
            },
            Expr::CharClass(p, x, es) => match other {
                Expr::CharClass(q, y, fs) => same_position(*p, *q) && *x == *y && same_elements(
                    es,
                    fs,
                ),
                _ => false,
            },
            Expr::CharSet(p, x, cs) => match other {
                Expr::CharSet(q, y, ds) => same_position(*p, *q) && *x == *y && same_char_sets(
                    cs,
                    ds,
                ),
                _ => false,
            },
            Expr::Call(p, n, args) => match other {
                Expr::Call(q, m, args2) => same_position(*p, *q) && *n == *m && same_expr_vecs(
                    args,
                    args2,
                ),
                _ => false,
            },
            Expr::Identifier(p, n) => match other {
                Expr::Identifier(q, m) => same_position(*p, *q) && *n == *m,
                _ => false,
            },
            Expr::Function(p, ps, x) => match other {
                Expr::Function(q, qs, y) => same_position(*p, *q) && same_strings(ps, qs) && (
                **x).eq(&**y),
                _ => false,
            },
        }
    }
}

impl PartialEqSpecImpl for Expr {
    open spec fn obeys_eq_spec() -> bool {
        true
    }

    open spec fn eq_spec(&self, other: &Expr) -> bool {
        same_expr(self@, other@)
    }
}

} // verus!
