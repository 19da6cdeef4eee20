//! The executable evaluator.  Every function here computes what its
//! counterpart in [`crate::semantics`] describes.
use crate::ast::{CharClassElement, EvaluationResult, EvaluationStrategy, Expr, Grammar, Position};
use crate::ast;
use crate::semantics;
use crate::text::{char_from_u32, str_chars, string_of};
use vstd::prelude::*;

verus! {

/// The view of one binding: its name and expression as mathematical values.
pub open spec fn view_binding(b: (String, Expr)) -> (Seq<char>, ast::SExpr) {
    (b.0@, b.1@)
}

/// The view of a list of bindings.
pub open spec fn env_view(s: Seq<(String, Expr)>) -> semantics::Env {
    s.map_values(|b: (String, Expr)| view_binding(b))
}

/// The index of the last binding of `name`.
fn lookup_index(env: &Vec<(String, Expr)>, name: &String) -> (r: Option<usize>)
    ensures
        match r {
            Some(i) => i < env@.len() && semantics::lookup(env_view(env@), name@) == Some(
                env@[i as int].1@,
            ),
            None => semantics::lookup(env_view(env@), name@) is None,
        },
{
    let ghost ev = env_view(env@);
    let mut i: usize = env.len();
    proof {
        assert(ev.take(i as int) =~= ev);
    }
    while i > 0
        invariant
            i <= env@.len(),
            ev == env_view(env@),
            semantics::lookup(ev, name@) == semantics::lookup(ev.take(i as int), name@),
        decreases i,
    {
        if env[i - 1].0 == *name {
            return Some(i - 1);
        }
        proof {
            assert(ev.take(i as int).drop_last() =~= ev.take(i - 1));
        }
        i = i - 1;
    }
    None
}

/// A copy of the bindings.
fn clone_env(env: &Vec<(String, Expr)>) -> (r: Vec<(String, Expr)>)
    ensures
        env_view(r@) == env_view(env@),
{
    let mut r: Vec<(String, Expr)> = Vec::new();
    let mut i: usize = 0;
    while i < env.len()
        invariant
            i <= env@.len(),
            r@.len() == i,
            env_view(r@) == env_view(env@.take(i as int)),
        decreases env@.len() - i,
    {
        let name = env[i].0.clone();
        let body = env[i].1.clone();
        let ghost prev = r@;
        r.push((name, body));
        proof {
            assert(r@ == prev.push((name, body)));
            assert(view_binding((name, body)) == view_binding(env@[i as int]));
            assert forall|j: int| 0 <= j < i + 1 implies env_view(r@)[j] == env_view(
                env@.take(i + 1),
            )[j] by {
                if j < i {
                    assert(env_view(prev)[j] == env_view(env@.take(i as int))[j]);
                    assert(env_view(prev)[j] == view_binding(prev[j]));
                    assert(r@[j] == prev[j]);
                }
            }
            assert(env_view(r@) =~= env_view(env@.take(i + 1)));
        }
        i = i + 1;
    }
    proof {
        assert(env@.take(env@.len() as int) =~= env@);
    }
    r
}

// ----------------------------------------------------------------------------
// Character classes
// ----------------------------------------------------------------------------

/// Whether `ch` occurs in `set`.
fn contains_char(set: &Vec<char>, ch: char) -> (b: bool)
    ensures
        b == set@.contains(ch),
{
    let mut k: usize = 0;
    while k < set.len()
        invariant
            k <= set@.len(),
            forall|j: int| 0 <= j < k ==> set@[j] != ch,
        decreases set@.len() - k,
    {
        if set[k] == ch {
            return true;
        }
        k = k + 1;
    }
    false
}

/// Every character of `acc` has a code point below `bound`.
pub open spec fn below(acc: Seq<char>, bound: u32) -> bool {
    forall|j: int| 0 <= j < acc.len() ==> (acc[j] as u32) < bound
}

/// Adds `ch` unless it is there already.  A character at or above `bound`
/// cannot be there, so it is added without a search.
fn add_char(acc: &mut Vec<char>, bound: &mut u32, ch: char)
    requires
        below(old(acc)@, *old(bound)),
    ensures
        final(acc)@ == semantics::add_char(old(acc)@, ch),
        below(final(acc)@, *final(bound)),
{
    let code = ch as u32;
    if code >= *bound {
        proof {
            assert(!old(acc)@.contains(ch)) by {
                if old(acc)@.contains(ch) {
                    let j = choose|j: int| 0 <= j < old(acc)@.len() && old(acc)@[j] == ch;
                    assert((old(acc)@[j] as u32) < *old(bound));
                }
            }
        }
        acc.push(ch);
        *bound = code + 1;
    } else if !contains_char(acc, ch) {
        acc.push(ch);
    }
}

/// Adds the characters of the code points `lo..=hi`.
fn add_range(acc: &mut Vec<char>, bound: &mut u32, lo: char, hi: char)
    requires
        below(old(acc)@, *old(bound)),
    ensures
        final(acc)@ == semantics::add_range(old(acc)@, lo as int, hi as int),
        below(final(acc)@, *final(bound)),
{
    let last = hi as u32;
    let mut code = lo as u32;
    if code > last {
        return;
    }
    while code <= last
        invariant
            last == hi as u32,
            code <= last + 1,
            below(acc@, *bound),
            semantics::add_range(old(acc)@, lo as int, hi as int) == semantics::add_range(
                acc@,
                code as int,
                hi as int,
            ),
        decreases last + 1 - code,
    {
        match char_from_u32(code) {
            Some(ch) => {
                add_char(acc, bound, ch);
            },
            None => {},
        }
        code = code + 1;
    }
}

/// The characters of a class, each once: the set an expanded class matches against.
fn class_chars(elems: &Vec<CharClassElement>) -> (r: Vec<char>)
    ensures
        r@ == semantics::class_chars(elems@),
{
    let mut acc: Vec<char> = Vec::new();
    let mut bound: u32 = 0;
    let mut i: usize = 0;
    while i < elems.len()
        invariant
            i <= elems@.len(),
            below(acc@, bound),
            acc@ == semantics::class_chars(elems@.take(i as int)),
        decreases elems@.len() - i,
    {
        proof {
            assert(elems@.take(i + 1).drop_last() =~= elems@.take(i as int));
        }
        match elems[i] {
            CharClassElement::OneChar(ch) => add_char(&mut acc, &mut bound, ch),
            CharClassElement::CharRange(lo, hi) => add_range(&mut acc, &mut bound, lo, hi),
        }
        i = i + 1;
    }
    proof {
        assert(elems@.take(elems@.len() as int) =~= elems@);
    }
    acc
}

// ----------------------------------------------------------------------------
// Preparing rules
// ----------------------------------------------------------------------------

/// Replaces each character class by the characters it names.
fn expand(e: &Expr) -> (r: Expr)
    ensures
        r@ == semantics::expand(e@),
    decreases e,
{
    match e {
        Expr::CharClass(p, positive, elems) => Expr::CharSet(*p, *positive, class_chars(elems)),
        Expr::Alternation(p, l, r) => Expr::Alternation(
            *p,
            Box::new(expand(&**l)),
            Box::new(expand(&**r)),
        ),
        Expr::Sequence(p, l, r) => Expr::Sequence(
            *p,
            Box::new(expand(&**l)),
            Box::new(expand(&**r)),
        ),
        Expr::Repeat0(p, b) => Expr::Repeat0(*p, Box::new(expand(&**b))),
        Expr::Repeat1(p, b) => Expr::Repeat1(*p, Box::new(expand(&**b))),
        Expr::Optional(p, b) => Expr::Optional(*p, Box::new(expand(&**b))),
        Expr::AndPredicate(p, b) => Expr::AndPredicate(*p, Box::new(expand(&**b))),
        Expr::NotPredicate(p, b) => Expr::NotPredicate(*p, Box::new(expand(&**b))),
        Expr::Debug(p, b) => Expr::Debug(*p, Box::new(expand(&**b))),
        Expr::Call(p, name, args) => Expr::Call(*p, name.clone(), expand_all(args)),
        _ => e.clone(),
    }
}

proof fn lemma_expand_all_push(s: Seq<ast::SExpr>, e: ast::SExpr)
    ensures
        semantics::expand_all(s.push(e)) == semantics::expand_all(s).push(semantics::expand(e)),
{
    assert(s.push(e).drop_last() =~= s);
}

proof fn lemma_extract_all_push(s: Seq<ast::SExpr>, e: ast::SExpr, env: semantics::Env)
    ensures
        semantics::extract_all(s.push(e), env) == semantics::extract_all(s, env).push(
            semantics::extract(e, env),
        ),
{
    assert(s.push(e).drop_last() =~= s);
}

fn expand_all(v: &Vec<Expr>) -> (r: Vec<Expr>)
    ensures
        ast::view_exprs(r@) == semantics::expand_all(ast::view_exprs(v@)),
    decreases v,
{
    let mut r: Vec<Expr> = Vec::new();
    let mut i: usize = 0;
    while i < v.len()
        invariant
            i <= v@.len(),
            ast::view_exprs(r@) == semantics::expand_all(ast::view_exprs(v@.take(i as int))),
        decreases v@.len() - i,
    {
        assert(decreases_to!(v => v@[i as int]));
        let e = expand(&v[i]);
        proof {
            ast::lemma_view_exprs_push(r@, e);
            assert(v@.take(i + 1) =~= v@.take(i as int).push(v@[i as int]));
            ast::lemma_view_exprs_push(v@.take(i as int), v@[i as int]);
            lemma_expand_all_push(ast::view_exprs(v@.take(i as int)), v@[i as int]@);
        }
        r.push(e);
        i = i + 1;
    }
    proof {
        assert(v@.take(v@.len() as int) =~= v@);
    }
    r
}

/// Replaces each name bound in `env` by its binding.
fn extract(e: &Expr, env: &Vec<(String, Expr)>) -> (r: Expr)
    ensures
        r@ == semantics::extract(e@, env_view(env@)),
    decreases e,
{
    match e {
        Expr::Debug(p, b) => Expr::Debug(*p, Box::new(extract(&**b, env))),
        Expr::Alternation(p, l, r) => Expr::Alternation(
            *p,
            Box::new(extract(&**l, env)),
            Box::new(extract(&**r, env)),
        ),
        Expr::Sequence(p, l, r) => Expr::Sequence(
            *p,
            Box::new(extract(&**l, env)),
            Box::new(extract(&**r, env)),
        ),
        Expr::AndPredicate(p, b) => Expr::AndPredicate(*p, Box::new(extract(&**b, env))),
        Expr::NotPredicate(p, b) => Expr::NotPredicate(*p, Box::new(extract(&**b, env))),
        Expr::Call(p, name, params) => Expr::Call(*p, name.clone(), extract_all(params, env)),
        Expr::Identifier(_, name) => match lookup_index(env, name) {
            Some(i) => env[i].1.clone(),
            None => e.clone(),
        },
        Expr::Optional(p, b) => Expr::Optional(*p, Box::new(extract(&**b, env))),
        Expr::Repeat0(p, b) => Expr::Repeat0(*p, Box::new(extract(&**b, env))),
        Expr::Repeat1(p, b) => Expr::Repeat1(*p, Box::new(extract(&**b, env))),
        _ => e.clone(),
    }
}

fn extract_all(v: &Vec<Expr>, env: &Vec<(String, Expr)>) -> (r: Vec<Expr>)
    ensures
        r@.len() == v@.len(),
        ast::view_exprs(r@) == semantics::extract_all(ast::view_exprs(v@), env_view(env@)),
    decreases v,
{
    let mut r: Vec<Expr> = Vec::new();
    let mut i: usize = 0;
    while i < v.len()
        invariant
            r@.len() == i,
            i <= v@.len(),
            ast::view_exprs(r@) == semantics::extract_all(
                ast::view_exprs(v@.take(i as int)),
                env_view(env@),
            ),
        decreases v@.len() - i,
    {
        assert(decreases_to!(v => v@[i as int]));
        let e = extract(&v[i], env);
        proof {
            ast::lemma_view_exprs_push(r@, e);
            assert(v@.take(i + 1) =~= v@.take(i as int).push(v@[i as int]));
            ast::lemma_view_exprs_push(v@.take(i as int), v@[i as int]);
            lemma_extract_all_push(ast::view_exprs(v@.take(i as int)), v@[i as int]@, env_view(env@));
        }
        r.push(e);
        i = i + 1;
    }
    proof {
        assert(v@.take(v@.len() as int) =~= v@);
    }
    r
}

// ----------------------------------------------------------------------------
// Evaluation
// ----------------------------------------------------------------------------

proof fn lemma_env_view_push(s: Seq<(String, Expr)>, b: (String, Expr))
    ensures
        env_view(s.push(b)) == env_view(s).push(view_binding(b)),
{
    assert forall|j: int| 0 <= j < s.len() + 1 implies env_view(s.push(b))[j] == env_view(
        s,
    ).push(view_binding(b))[j] by {
        if j < s.len() {
            assert(s.push(b)[j] == s[j]);
        }
    }
    assert(env_view(s.push(b)) =~= env_view(s).push(view_binding(b)));
}

/// What one evaluation step gives: the position after the match, failure, an
/// expression that cannot be evaluated, or an exhausted depth budget.
enum Outcome {
    Success(usize),
    Failure,
    Stuck,
    OutOfDepth,
}

/// `o`, found for the input from `pos` on, is the verdict `v`; a success
/// stands for the rest of the input from its position.
spec fn agrees(o: Outcome, v: semantics::Verdict, input: Seq<char>, pos: int) -> bool {
    match o {
        Outcome::Success(q) => pos <= q <= input.len() && v == semantics::Verdict::Success(
            input.subrange(q as int, input.len() as int),
        ),
        Outcome::Failure => v is Failure,
        Outcome::Stuck => v is Stuck,
        Outcome::OutOfDepth => v is OutOfDepth,
    }
}

/// The argument values of a call: where the body starts and the values, a
/// failed argument, or an argument whose evaluation stopped.
enum ArgBinding {
    Bound(usize, Vec<Expr>),
    Unbound,
    Halted(Outcome),
}

spec fn binding_agrees(b: ArgBinding, sb: semantics::Binding, input: Seq<char>, pos: int) -> bool {
    match b {
        ArgBinding::Bound(q, values) => pos <= q <= input.len() && sb == semantics::Binding::Bound(
            input.subrange(q as int, input.len() as int),
            ast::view_exprs(values@),
        ),
        ArgBinding::Unbound => sb is Unbound,
        ArgBinding::Halted(o) => sb matches semantics::Binding::Halted(v) && agrees(
            o,
            v,
            input,
            pos,
        ),
    }
}

/// Where a match of `t` against the input from `pos` on ends, if it matches.
fn literal_end(input: &Vec<char>, pos: usize, t: &Vec<char>) -> (r: Option<usize>)
    requires
        pos <= input@.len(),
    ensures
        r is Some == semantics::literal_matches(
            t@,
            input@.subrange(pos as int, input@.len() as int),
        ),
        r matches Some(end) ==> end == pos + t@.len(),
{
    let ghost rest = input@.subrange(pos as int, input@.len() as int);
    let n = input.len();
    if t.len() > n - pos {
        return None;
    }
    let mut k: usize = 0;
    while k < t.len()
        invariant
            k <= t@.len(),
            n == input@.len(),
            pos + t@.len() <= n,
            rest == input@.subrange(pos as int, input@.len() as int),
            forall|j: int| 0 <= j < k ==> rest[j] == t@[j],
        decreases t@.len() - k,
    {
        if input[pos + k] != t[k] {
            proof {
                assert(rest.subrange(0, t@.len() as int)[k as int] != t@[k as int]);
            }
            return None;
        }
        k = k + 1;
    }
    proof {
        assert(rest.subrange(0, t@.len() as int) =~= t@);
    }
    Some(pos + t.len())
}

/// The mathematical model of an evaluator: its bindings, one per rule in
/// order, and its argument-passing strategy.
pub struct EvaluatorModel {
    pub functions: semantics::Env,
    pub strategy: EvaluationStrategy,
}

/// Matches inputs against the rules of a grammar.
pub struct Evaluator {
    functions: Vec<(String, Expr)>,
    strategy: EvaluationStrategy,
}

impl View for Evaluator {
    type V = EvaluatorModel;

    closed spec fn view(&self) -> EvaluatorModel {
        EvaluatorModel { functions: env_view(self.functions@), strategy: self.strategy }
    }
}

impl Clone for Evaluator {
    fn clone(&self) -> (r: Self)
        ensures
            r@ == self@,
    {
        Evaluator { functions: clone_env(&self.functions), strategy: self.strategy }
    }
}

impl Evaluator {
    /// Binds each rule's name to its body with character classes expanded;
    /// a rule with parameters becomes a function.
    pub fn new(grammar: Grammar, strategy: EvaluationStrategy) -> (r: Self)
        ensures
            r@ == (EvaluatorModel {
                functions: semantics::grammar_bindings(grammar@),
                strategy,
            }),
    {
        let ghost goal = semantics::grammar_bindings(grammar@);
        let mut functions: Vec<(String, Expr)> = Vec::new();
        let mut i: usize = 0;
        while i < grammar.rules.len()
            invariant
                i <= grammar.rules@.len(),
                goal == semantics::grammar_bindings(grammar@),
                env_view(functions@) == goal.take(i as int),
            decreases grammar.rules@.len() - i,
        {
            let rule = &grammar.rules[i];
            let body = expand(&rule.body);
            let expr = if rule.args.len() == 0 {
                body
            } else {
                Expr::Function(rule.pos, ast::clone_strings(&rule.args), Box::new(body))
            };
            let name = rule.name.clone();
            proof {
                lemma_env_view_push(functions@, (name, expr));
                assert(grammar@.rules[i as int] == grammar.rules@[i as int]@);
                assert(goal.take(i + 1) =~= goal.take(i as int).push(goal[i as int]));
            }
            functions.push((name, expr));
            i = i + 1;
        }
        proof {
            assert(goal.take(i as int) =~= goal);
        }
        Evaluator { functions, strategy }
    }

    /// Matches `input` against the rule named `start`.
    pub fn evaluate(&self, input: &str, start: &str) -> (r: EvaluationResult)
        requires
            semantics::completes(
                semantics::spec_evaluate(self@.functions, self@.strategy, input@, start@),
            ),
        ensures
            r@ == semantics::result_of(
                semantics::spec_evaluate(self@.functions, self@.strategy, input@, start@),
            ),
            r matches EvaluationResult::Success(rest) ==> crate::laws::is_suffix(rest@, input@),
    {
        let name = start.to_owned();
        match lookup_index(&self.functions, &name) {
            None => EvaluationResult::Failure,
            Some(i) => {
                let chars = str_chars(input);
                proof {
                    assert(chars@.subrange(0, chars@.len() as int) =~= input@);
                }
                proof {
                    crate::laws::lemma_success_is_suffix(
                        self.strategy,
                        semantics::max_depth(),
                        input@,
                        self.functions@[i as int].1@,
                        env_view(self.functions@),
                    );
                }
                match self.eval(&chars, 0, &self.functions[i].1, &self.functions, u64::MAX) {
                    Outcome::Success(q) => EvaluationResult::Success(
                        string_of(&chars, q, chars.len()),
                    ),
                    _ => EvaluationResult::Failure,
                }
            },
        }
    }

    /// Matches `expr` against the input from `pos` on, with `depth` nested
    /// evaluations left.
    fn eval(
        &self,
        input: &Vec<char>,
        pos: usize,
        expr: &Expr,
        env: &Vec<(String, Expr)>,
        depth: u64,
    ) -> (o: Outcome)
        requires
            pos <= input@.len(),
        ensures
            agrees(
                o,
                semantics::eval(
                    self.strategy,
                    depth as nat,
                    input@.subrange(pos as int, input@.len() as int),
                    expr@,
                    env_view(env@),
                ),
                input@,
                pos as int,
            ),
        decreases depth, 3nat, 0nat,
    {
        let ghost rest = input@.subrange(pos as int, input@.len() as int);
        if depth == 0 {
            return Outcome::OutOfDepth;
        }
        let d = depth - 1;
        match expr {
            Expr::Debug(..) => Outcome::Success(pos),
            Expr::Alternation(_, l, r) => match self.eval(input, pos, &**l, env, d) {
                Outcome::Failure => self.eval(input, pos, &**r, env, d),
                other => other,
            },
            Expr::Sequence(_, l, r) => match self.eval(input, pos, &**l, env, d) {
                Outcome::Success(q) => self.eval(input, q, &**r, env, d),
                other => other,
            },
            Expr::AndPredicate(_, b) => match self.eval(input, pos, &**b, env, d) {
                Outcome::Success(_) => Outcome::Success(pos),
                other => other,
            },
            Expr::NotPredicate(_, b) => match self.eval(input, pos, &**b, env, d) {
                Outcome::Success(_) => Outcome::Failure,
                Outcome::Failure => Outcome::Success(pos),
                other => other,
            },
            Expr::Call(_, name, params) => self.eval_call(input, pos, name, params, env, depth),
            Expr::Identifier(_, name) => match lookup_index(env, name) {
                Some(i) => self.eval(input, pos, &env[i].1, env, d),
                None => Outcome::Failure,
            },
            Expr::Optional(_, b) => match self.eval(input, pos, &**b, env, d) {
                Outcome::Failure => Outcome::Success(pos),
                other => other,
            },
            Expr::Repeat0(_, b) => self.repeat(input, pos, &**b, env, depth),
            Expr::Repeat1(_, b) => match self.eval(input, pos, &**b, env, d) {
                Outcome::Success(q) => self.repeat(input, q, &**b, env, depth),
                other => other,
            },
            Expr::StringLiteral(_, t) => {
                let target = str_chars(t.as_str());
                match literal_end(input, pos, &target) {
                    Some(end) => {
                        proof {
                            assert(rest.subrange(target@.len() as int, rest.len() as int)
                                =~= input@.subrange(end as int, input@.len() as int));
                        }
                        Outcome::Success(end)
                    },
                    None => Outcome::Failure,
                }
            },
            Expr::CharSet(_, positive, set) => {
                if pos < input.len() && contains_char(set, input[pos]) == *positive {
                    proof {
                        assert(rest[0] == input@[pos as int]);
                        assert(rest.subrange(1, rest.len() as int) =~= input@.subrange(
                            pos + 1,
                            input@.len() as int,
                        ));
                    }
                    Outcome::Success(pos + 1)
                } else {
                    Outcome::Failure
                }
            },
            Expr::Wildcard(_) => {
                if pos < input.len() {
                    proof {
                        assert(rest.subrange(1, rest.len() as int) =~= input@.subrange(
                            pos + 1,
                            input@.len() as int,
                        ));
                    }
                    Outcome::Success(pos + 1)
                } else {
                    Outcome::Failure
                }
            },
            Expr::CharClass(..) => Outcome::Stuck,
            Expr::Function(..) => Outcome::Stuck,
        }
    }

    /// `body*` from `pos`: repeats while `body` matches and consumes input.
    #[verifier::loop_isolation(false)]
    fn repeat(
        &self,
        input: &Vec<char>,
        pos: usize,
        body: &Expr,
        env: &Vec<(String, Expr)>,
        depth: u64,
    ) -> (o: Outcome)
        requires
            pos <= input@.len(),
            depth > 0,
        ensures
            agrees(
                o,
                semantics::repeat(
                    self.strategy,
                    depth as nat,
                    input@.subrange(pos as int, input@.len() as int),
                    body@,
                    env_view(env@),
                ),
                input@,
                pos as int,
            ),
        decreases depth, 0nat, 0nat,
    {
        let ghost goal = semantics::repeat(
            self.strategy,
            depth as nat,
            input@.subrange(pos as int, input@.len() as int),
            body@,
            env_view(env@),
        );
        let mut cur = pos;
        loop
            invariant
                pos <= cur <= input@.len(),
                goal == semantics::repeat(
                    self.strategy,
                    depth as nat,
                    input@.subrange(cur as int, input@.len() as int),
                    body@,
                    env_view(env@),
                ),
            decreases input@.len() - cur,
        {
            match self.eval(input, cur, body, env, depth - 1) {
                Outcome::Success(q) => {
                    if q > cur {
                        cur = q;
                    } else {
                        return Outcome::Success(cur);
                    }
                },
                Outcome::Failure => {
                    return Outcome::Success(cur);
                },
                other => {
                    return other;
                },
            }
        }
    }

    /// A call of the function bound to `name` with `params`.
    fn eval_call(
        &self,
        input: &Vec<char>,
        pos: usize,
        name: &String,
        params: &Vec<Expr>,
        env: &Vec<(String, Expr)>,
        depth: u64,
    ) -> (o: Outcome)
        requires
            pos <= input@.len(),
        ensures
            agrees(
                o,
                semantics::call(
                    self.strategy,
                    depth as nat,
                    input@.subrange(pos as int, input@.len() as int),
                    name@,
                    ast::view_exprs(params@),
                    env_view(env@),
                ),
                input@,
                pos as int,
            ),
        decreases depth, 2nat, 0nat,
    {
        if depth == 0 {
            return Outcome::OutOfDepth;
        }
        proof {
            ast::lemma_view_exprs_len(params@);
        }
        match lookup_index(env, name) {
            None => Outcome::Failure,
            Some(i) => match &env[i].1 {
                Expr::Function(_, args, body) => {
                    if args.len() != params.len() {
                        return Outcome::Failure;
                    }
                    match self.bind_call_args(input, pos, params, env, depth) {
                        ArgBinding::Bound(call_pos, values) => {
                            let scoped = bind_names(env, args, &values);
                            self.eval(input, call_pos, &**body, &scoped, depth - 1)
                        },
                        ArgBinding::Unbound => Outcome::Failure,
                        ArgBinding::Halted(o) => o,
                    }
                },
                _ => Outcome::Failure,
            },
        }
    }

    /// The argument values of a call under the evaluator's strategy.
    #[verifier::loop_isolation(false)]
    fn bind_call_args(
        &self,
        input: &Vec<char>,
        pos: usize,
        params: &Vec<Expr>,
        env: &Vec<(String, Expr)>,
        depth: u64,
    ) -> (b: ArgBinding)
        requires
            pos <= input@.len(),
            depth > 0,
        ensures
            binding_agrees(
                b,
                semantics::bind(
                    self.strategy,
                    depth as nat,
                    input@.subrange(pos as int, input@.len() as int),
                    ast::view_exprs(params@),
                    env_view(env@),
                ),
                input@,
                pos as int,
            ),
            b matches ArgBinding::Bound(_, values) ==> values@.len() == params@.len(),
        decreases depth, 1nat, 0nat,
    {
        let ghost pv = ast::view_exprs(params@);
        let ghost ev = env_view(env@);
        let ghost goal = semantics::bind(
            self.strategy,
            depth as nat,
            input@.subrange(pos as int, input@.len() as int),
            pv,
            ev,
        );
        proof {
            ast::lemma_view_exprs_len(params@);
        }
        match self.strategy {
            EvaluationStrategy::CallByName => ArgBinding::Bound(pos, extract_all(params, env)),
            EvaluationStrategy::CallByValueSeq => {
                let mut values: Vec<Expr> = Vec::new();
                let mut cur = pos;
                let mut i: usize = 0;
                while i < params.len()
                    invariant
                        i <= params@.len(),
                        values@.len() == i,
                        pos <= cur <= input@.len(),
                        goal == semantics::bind_in_sequence(
                            self.strategy,
                            depth as nat,
                            input@.subrange(cur as int, input@.len() as int),
                            pv,
                            ev,
                            i as int,
                            ast::view_exprs(values@),
                        ),
                    decreases params@.len() - i,
                {
                    proof {
                        ast::lemma_view_exprs_index(params@, i as int);
                    }
                    match self.eval(input, cur, &params[i], env, depth - 1) {
                        Outcome::Success(q) => {
                            let lit = Expr::StringLiteral(Position::dummy(), string_of(input, cur, q));
                            proof {
                                ast::lemma_view_exprs_push(values@, lit);
                                assert(input@.subrange(cur as int, input@.len() as int).subrange(
                                    0,
                                    q - cur,
                                ) =~= input@.subrange(cur as int, q as int));
                            }
                            values.push(lit);
                            cur = q;
                        },
                        Outcome::Failure => {
                            return ArgBinding::Unbound;
                        },
                        other => {
                            return ArgBinding::Halted(other);
                        },
                    }
                    i = i + 1;
                }
                ArgBinding::Bound(cur, values)
            },
            EvaluationStrategy::CallByValuePar => {
                let mut values: Vec<Expr> = Vec::new();
                let mut i: usize = 0;
                while i < params.len()
                    invariant
                        i <= params@.len(),
                        values@.len() == i,
                        goal == semantics::bind_in_parallel(
                            self.strategy,
                            depth as nat,
                            input@.subrange(pos as int, input@.len() as int),
                            pv,
                            ev,
                            i as int,
                            ast::view_exprs(values@),
                        ),
                    decreases params@.len() - i,
                {
                    proof {
                        ast::lemma_view_exprs_index(params@, i as int);
                    }
                    match self.eval(input, pos, &params[i], env, depth - 1) {
                        Outcome::Success(q) => {
                            let lit = Expr::StringLiteral(Position::dummy(), string_of(input, pos, q));
                            proof {
                                ast::lemma_view_exprs_push(values@, lit);
                                assert(input@.subrange(pos as int, input@.len() as int).subrange(
                                    0,
                                    q - pos,
                                ) =~= input@.subrange(pos as int, q as int));
                            }
                            values.push(lit);
                        },
                        Outcome::Failure => {
                            return ArgBinding::Unbound;
                        },
                        other => {
                            return ArgBinding::Halted(other);
                        },
                    }
                    i = i + 1;
                }
                ArgBinding::Bound(pos, values)
            },
        }
    }
}

/// `env` with each parameter name bound to its argument value.
fn bind_names(env: &Vec<(String, Expr)>, names: &Vec<String>, values: &Vec<Expr>) -> (r: Vec<
    (String, Expr),
>)
    requires
        names@.len() == values@.len(),
    ensures
        env_view(r@) == env_view(env@) + semantics::zip_bindings(
            ast::view_strings(names@),
            ast::view_exprs(values@),
        ),
{
    let ghost zip = semantics::zip_bindings(ast::view_strings(names@), ast::view_exprs(values@));
    proof {
        ast::lemma_view_exprs_len(values@);
    }
    let mut r = clone_env(env);
    let mut k: usize = 0;
    proof {
        assert(env_view(env@) + zip.take(0) =~= env_view(env@));
    }
    while k < names.len()
        invariant
            k <= names@.len(),
            names@.len() == values@.len(),
            ast::view_exprs(values@).len() == values@.len(),
            zip == semantics::zip_bindings(ast::view_strings(names@), ast::view_exprs(values@)),
            env_view(r@) == env_view(env@) + zip.take(k as int),
        decreases names@.len() - k,
    {
        let name = names[k].clone();
        let value = values[k].clone();
        proof {
            ast::lemma_view_exprs_index(values@, k as int);
            lemma_env_view_push(r@, (name, value));
            assert(env_view(env@) + zip.take(k + 1) =~= (env_view(env@) + zip.take(k as int)).push(
                zip[k as int],
            ));
        }
        r.push((name, value));
        k = k + 1;
    }
    proof {
        assert(zip.take(k as int) =~= zip);
    }
    r
}

/// Parses `source` and matches each input against its rule `S`.
#[verifier::loop_isolation(false)]
pub fn eval_grammar(source: &str, inputs: &[&str], strategy: EvaluationStrategy) -> (r: Result<
    Vec<EvaluationResult>,
    crate::ast::ParseError,
>)
    requires
        forall|g: ast::SGrammar, i: int|
            crate::syntax::spec_parse_grammar(source@) == Ok::<ast::SGrammar, ast::SParseError>(g)
                && 0 <= i < inputs@.len() ==> semantics::completes(
                #[trigger] semantics::spec_evaluate(
                    semantics::grammar_bindings(g),
                    strategy,
                    inputs@[i]@,
                    seq!['S'],
                ),
            ),
    ensures
        match crate::syntax::spec_parse_grammar(source@) {
            Ok(g) => r matches Ok(results) && results@.len() == inputs@.len() && forall|i: int|
                0 <= i < inputs@.len() ==> #[trigger] results@[i]@ == semantics::result_of(
                    semantics::spec_evaluate(
                        semantics::grammar_bindings(g),
                        strategy,
                        inputs@[i]@,
                        seq!['S'],
                    ),
                ) && (results@[i] matches EvaluationResult::Success(rest)
                    ==> crate::laws::is_suffix(rest@, inputs@[i]@)),
            Err(e) => r matches Err(err) && err@ == e,
        },
{
    let grammar = match crate::parser::parse_macro_peg(source) {
        Ok(g) => g,
        Err(e) => {
            return Err(e);
        },
    };
    let ghost g = grammar@;
    let evaluator = Evaluator::new(grammar, strategy);
    let mut results: Vec<EvaluationResult> = Vec::new();
    let mut i: usize = 0;
    while i < inputs.len()
        invariant
            i <= inputs@.len(),
            crate::syntax::spec_parse_grammar(source@) == Ok::<ast::SGrammar, ast::SParseError>(g),
            evaluator@ == (EvaluatorModel { functions: semantics::grammar_bindings(g), strategy }),
            results@.len() == i,
            forall|j: int|
                0 <= j < i ==> (#[trigger] results@[j] matches EvaluationResult::Success(rest)
                    ==> crate::laws::is_suffix(rest@, inputs@[j]@)),
            forall|j: int|
                0 <= j < i ==> #[trigger] results@[j]@ == semantics::result_of(
                    semantics::spec_evaluate(
                        semantics::grammar_bindings(g),
                        strategy,
                        inputs@[j]@,
                        seq!['S'],
                    ),
                ),
        decreases inputs@.len() - i,
    {
        proof {
            reveal_strlit("S");
            assert("S"@ =~= seq!['S']);
        }
        let res = evaluator.evaluate(inputs[i], "S");
        results.push(res);
        i = i + 1;
    }
    Ok(results)
}

} // verus!
