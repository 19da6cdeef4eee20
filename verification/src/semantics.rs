//! What matching an input against a macro PEG grammar means, as mathematical
//! functions over the views of expressions.
//!
//! Evaluation carries a depth budget: each nested evaluation spends one unit,
//! and a run that needs more than the budget ends in `OutOfDepth`.  The
//! executable evaluator starts with `u64::MAX` units, a depth that no stack can
//! reach; `crate::laws::lemma_eval_depth_monotone` shows that a larger budget never changes
//! a finished result.
use crate::ast::{CharClassElement, EvaluationStrategy, Position, SExpr, SGrammar, SRule};
use crate::ast;
use crate::syntax;
use vstd::prelude::*;

verus! {

/// The outcome of matching: the unconsumed rest, failure, an expression that
/// cannot be evaluated (a character class or a function reached directly), or
/// an exhausted depth budget.
pub enum Verdict {
    Success(Seq<char>),
    Failure,
    Stuck,
    OutOfDepth,
}

/// Bindings of names to expressions; a later binding hides an earlier one.
pub type Env = Seq<(Seq<char>, SExpr)>;

/// The expression most recently bound to `name`.
pub open spec fn lookup(env: Env, name: Seq<char>) -> Option<SExpr>
    decreases env.len(),
{
    if env.len() == 0 {
        None
    } else if env.last().0 == name {
        Some(env.last().1)
    } else {
        lookup(env.drop_last(), name)
    }
}

// ----------------------------------------------------------------------------
// Character classes
// ----------------------------------------------------------------------------

pub open spec fn add_char(acc: Seq<char>, ch: char) -> Seq<char> {
    if acc.contains(ch) {
        acc
    } else {
        acc.push(ch)
    }
}

/// Adds the characters with code points `lo..=hi`, in increasing order.
pub open spec fn add_range(acc: Seq<char>, lo: int, hi: int) -> Seq<char>
    decreases hi - lo + 1,
{
    if lo > hi {
        acc
    } else {
        let next = if syntax::is_scalar(lo) {
            add_char(acc, lo as char)
        } else {
            acc
        };
        add_range(next, lo + 1, hi)
    }
}

pub open spec fn add_element(acc: Seq<char>, el: CharClassElement) -> Seq<char> {
    match el {
        CharClassElement::OneChar(ch) => add_char(acc, ch),
        CharClassElement::CharRange(from, to) => add_range(acc, from as int, to as int),
    }
}

/// The characters of a class, each once, in the order the elements first name them.
pub open spec fn class_chars(elems: Seq<CharClassElement>) -> Seq<char>
    decreases elems.len(),
{
    if elems.len() == 0 {
        Seq::empty()
    } else {
        add_element(class_chars(elems.drop_last()), elems.last())
    }
}

/// `ch` is named by the element.
pub open spec fn covers(el: CharClassElement, ch: char) -> bool {
    match el {
        CharClassElement::OneChar(c) => c == ch,
        CharClassElement::CharRange(from, to) => from <= ch && ch <= to,
    }
}

// ----------------------------------------------------------------------------
// Preparing rules
// ----------------------------------------------------------------------------

/// Replaces each character class by the set of its characters; bodies of
/// functions are left as they are.
pub open spec fn expand(e: SExpr) -> SExpr
    decreases e,
{
    match e {
        SExpr::CharClass(p, positive, elems) => SExpr::CharSet(p, positive, class_chars(elems)),
        SExpr::Alternation(p, l, r) => SExpr::Alternation(
            p,
            Box::new(expand(*l)),
            Box::new(expand(*r)),
        ),
        SExpr::Sequence(p, l, r) => SExpr::Sequence(p, Box::new(expand(*l)), Box::new(expand(*r))),
        SExpr::Repeat0(p, b) => SExpr::Repeat0(p, Box::new(expand(*b))),
        SExpr::Repeat1(p, b) => SExpr::Repeat1(p, Box::new(expand(*b))),
        SExpr::Optional(p, b) => SExpr::Optional(p, Box::new(expand(*b))),
        SExpr::AndPredicate(p, b) => SExpr::AndPredicate(p, Box::new(expand(*b))),
        SExpr::NotPredicate(p, b) => SExpr::NotPredicate(p, Box::new(expand(*b))),
        SExpr::Debug(p, b) => SExpr::Debug(p, Box::new(expand(*b))),
        SExpr::Call(p, name, args) => SExpr::Call(p, name, expand_all(args)),
        _ => e,
    }
}

pub open spec fn expand_all(s: Seq<SExpr>) -> Seq<SExpr>
    decreases s,
{
    if s.len() == 0 {
        Seq::empty()
    } else {
        expand_all(s.drop_last()).push(expand(s.last()))
    }
}

/// The binding a rule contributes: its body, expanded, wrapped in a function
/// when the rule has parameters.
pub open spec fn rule_binding(r: SRule) -> (Seq<char>, SExpr) {
    (
        r.name,
        if r.args.len() == 0 {
            expand(r.body)
        } else {
            SExpr::Function(r.pos, r.args, Box::new(expand(r.body)))
        },
    )
}

pub open spec fn grammar_bindings(g: SGrammar) -> Env {
    g.rules.map_values(|r: SRule| rule_binding(r))
}

/// Replaces each name bound in `env` by its binding (call-by-name arguments).
pub open spec fn extract(e: SExpr, env: Env) -> SExpr
    decreases e,
{
    match e {
        SExpr::Debug(p, b) => SExpr::Debug(p, Box::new(extract(*b, env))),
        SExpr::Alternation(p, l, r) => SExpr::Alternation(
            p,
            Box::new(extract(*l, env)),
            Box::new(extract(*r, env)),
        ),
        SExpr::Sequence(p, l, r) => SExpr::Sequence(
            p,
            Box::new(extract(*l, env)),
            Box::new(extract(*r, env)),
        ),
        SExpr::AndPredicate(p, b) => SExpr::AndPredicate(p, Box::new(extract(*b, env))),
        SExpr::NotPredicate(p, b) => SExpr::NotPredicate(p, Box::new(extract(*b, env))),
        SExpr::Call(p, name, params) => SExpr::Call(p, name, extract_all(params, env)),
        SExpr::Identifier(_, name) => match lookup(env, name) {
            Some(bound) => bound,
            None => e,
        },
        SExpr::Optional(p, b) => SExpr::Optional(p, Box::new(extract(*b, env))),
        SExpr::Repeat0(p, b) => SExpr::Repeat0(p, Box::new(extract(*b, env))),
        SExpr::Repeat1(p, b) => SExpr::Repeat1(p, Box::new(extract(*b, env))),
        _ => e,
    }
}

pub open spec fn extract_all(s: Seq<SExpr>, env: Env) -> Seq<SExpr>
    decreases s,
{
    if s.len() == 0 {
        Seq::empty()
    } else {
        extract_all(s.drop_last(), env).push(extract(s.last(), env))
    }
}

// ----------------------------------------------------------------------------
// Evaluation
// ----------------------------------------------------------------------------

/// The outcome of binding call arguments: the input the body starts on with
/// the argument values, a failed argument, or an argument that stopped evaluation.
pub enum Binding {
    Bound(Seq<char>, Seq<SExpr>),
    Unbound,
    Halted(Verdict),
}

/// The literal that stands for the part of `input` that an argument consumed
/// to leave `rest`.
pub open spec fn consumed_literal(input: Seq<char>, rest: Seq<char>) -> SExpr {
    SExpr::StringLiteral(
        ast::dummy_position(),
        input.subrange(0, input.len() - rest.len()),
    )
}

pub open spec fn zip_bindings(names: Seq<Seq<char>>, values: Seq<SExpr>) -> Env {
    Seq::new(names.len(), |i: int| (names[i], values[i]))
}

pub open spec fn literal_matches(t: Seq<char>, input: Seq<char>) -> bool {
    t.len() <= input.len() && input.subrange(0, t.len() as int) == t
}

/// Matches `e` against `input` with a budget of `fuel` nested evaluations.
pub open spec fn eval(
    st: EvaluationStrategy,
    fuel: nat,
    input: Seq<char>,
    e: SExpr,
    env: Env,
) -> Verdict
    decreases fuel, 3nat, 0nat,
{
    if fuel == 0 {
        Verdict::OutOfDepth
    } else {
        let f = (fuel - 1) as nat;
        match e {
            SExpr::Debug(_, _) => Verdict::Success(input),
            SExpr::Alternation(_, l, r) => match eval(st, f, input, *l, env) {
                Verdict::Failure => eval(st, f, input, *r, env),
                v => v,
            },
            SExpr::Sequence(_, l, r) => match eval(st, f, input, *l, env) {
                Verdict::Success(rest) => eval(st, f, rest, *r, env),
                v => v,
            },
            SExpr::AndPredicate(_, b) => match eval(st, f, input, *b, env) {
                Verdict::Success(_) => Verdict::Success(input),
                v => v,
            },
            SExpr::NotPredicate(_, b) => match eval(st, f, input, *b, env) {
                Verdict::Success(_) => Verdict::Failure,
                Verdict::Failure => Verdict::Success(input),
                v => v,
            },
            SExpr::Call(_, name, params) => call(st, fuel, input, name, params, env),
            SExpr::Identifier(_, name) => match lookup(env, name) {
                Some(body) => eval(st, f, input, body, env),
                None => Verdict::Failure,
            },
            SExpr::Optional(_, b) => match eval(st, f, input, *b, env) {
                Verdict::Failure => Verdict::Success(input),
                v => v,
            },
            SExpr::Repeat0(_, b) => repeat(st, fuel, input, *b, env),
            SExpr::Repeat1(_, b) => match eval(st, f, input, *b, env) {
                Verdict::Success(rest) => repeat(st, fuel, rest, *b, env),
                v => v,
            },
            SExpr::StringLiteral(_, t) => if literal_matches(t, input) {
                Verdict::Success(input.subrange(t.len() as int, input.len() as int))
            } else {
                Verdict::Failure
            },
            SExpr::CharSet(_, positive, set) => if input.len() > 0 && set.contains(input[0])
                == positive {
                Verdict::Success(input.subrange(1, input.len() as int))
            } else {
                Verdict::Failure
            },
            SExpr::Wildcard(_) => if input.len() > 0 {
                Verdict::Success(input.subrange(1, input.len() as int))
            } else {
                Verdict::Failure
            },
            SExpr::CharClass(..) => Verdict::Stuck,
            SExpr::Function(..) => Verdict::Stuck,
        }
    }
}

/// `body*` from `input`: repeats while `body` matches and consumes something.
pub open spec fn repeat(
    st: EvaluationStrategy,
    fuel: nat,
    input: Seq<char>,
    body: SExpr,
    env: Env,
) -> Verdict
    decreases fuel, 0nat, input.len(),
{
    if fuel == 0 {
        Verdict::OutOfDepth
    } else {
        match eval(st, (fuel - 1) as nat, input, body, env) {
            Verdict::Success(next) => if next.len() < input.len() {
                repeat(st, fuel, next, body, env)
            } else {
                Verdict::Success(input)
            },
            Verdict::Failure => Verdict::Success(input),
            v => v,
        }
    }
}

/// A call of the function bound to `name` with `params`.
pub open spec fn call(
    st: EvaluationStrategy,
    fuel: nat,
    input: Seq<char>,
    name: Seq<char>,
    params: Seq<SExpr>,
    env: Env,
) -> Verdict
    decreases fuel, 2nat, 0nat,
{
    if fuel == 0 {
        Verdict::OutOfDepth
    } else {
        match lookup(env, name) {
            Some(SExpr::Function(_, args, body)) => if args.len() != params.len() {
                Verdict::Failure
            } else {
                match bind(st, fuel, input, params, env) {
                    Binding::Bound(call_input, values) => eval(
                        st,
                        (fuel - 1) as nat,
                        call_input,
                        *body,
                        env + zip_bindings(args, values),
                    ),
                    Binding::Unbound => Verdict::Failure,
                    Binding::Halted(v) => v,
                }
            },
            _ => Verdict::Failure,
        }
    }
}

/// The argument values of a call under the strategy.
pub open spec fn bind(
    st: EvaluationStrategy,
    fuel: nat,
    input: Seq<char>,
    params: Seq<SExpr>,
    env: Env,
) -> Binding
    decreases fuel, 1nat, 0nat,
{
    match st {
        EvaluationStrategy::CallByName => Binding::Bound(input, extract_all(params, env)),
        EvaluationStrategy::CallByValueSeq => bind_in_sequence(
            st,
            fuel,
            input,
            params,
            env,
            0,
            Seq::empty(),
        ),
        EvaluationStrategy::CallByValuePar => bind_in_parallel(
            st,
            fuel,
            input,
            params,
            env,
            0,
            Seq::empty(),
        ),
    }
}

/// Arguments from `i` on, each matched where the previous one stopped; the
/// body starts where the last one stopped.
pub open spec fn bind_in_sequence(
    st: EvaluationStrategy,
    fuel: nat,
    rest: Seq<char>,
    params: Seq<SExpr>,
    env: Env,
    i: int,
    acc: Seq<SExpr>,
) -> Binding
    decreases fuel, 0nat, params.len() - i,
{
    if i >= params.len() || i < 0 {
        Binding::Bound(rest, acc)
    } else if fuel == 0 {
        Binding::Halted(Verdict::OutOfDepth)
    } else {
        match eval(st, (fuel - 1) as nat, rest, params[i], env) {
            Verdict::Success(next) => bind_in_sequence(
                st,
                fuel,
                next,
                params,
                env,
                i + 1,
                acc.push(consumed_literal(rest, next)),
            ),
            Verdict::Failure => Binding::Unbound,
            v => Binding::Halted(v),
        }
    }
}

/// Arguments from `i` on, each matched at `input`; the body starts at `input`.
pub open spec fn bind_in_parallel(
    st: EvaluationStrategy,
    fuel: nat,
    input: Seq<char>,
    params: Seq<SExpr>,
    env: Env,
    i: int,
    acc: Seq<SExpr>,
) -> Binding
    decreases fuel, 0nat, params.len() - i,
{
    if i >= params.len() || i < 0 {
        Binding::Bound(input, acc)
    } else if fuel == 0 {
        Binding::Halted(Verdict::OutOfDepth)
    } else {
        match eval(st, (fuel - 1) as nat, input, params[i], env) {
            Verdict::Success(rest) => bind_in_parallel(
                st,
                fuel,
                input,
                params,
                env,
                i + 1,
                acc.push(consumed_literal(input, rest)),
            ),
            Verdict::Failure => Binding::Unbound,
            v => Binding::Halted(v),
        }
    }
}

/// The depth budget of the executable evaluator.
pub open spec fn max_depth() -> nat {
    u64::MAX as nat
}

/// Matching `input` against the rule `start` of `functions`.
pub open spec fn spec_evaluate(
    functions: Env,
    st: EvaluationStrategy,
    input: Seq<char>,
    start: Seq<char>,
) -> Verdict {
    match lookup(functions, start) {
        Some(e) => eval(st, max_depth(), input, e, functions),
        None => Verdict::Failure,
    }
}

/// The evaluation finishes: it neither reaches an expression that cannot be
/// evaluated nor needs more depth than the budget.
pub open spec fn completes(v: Verdict) -> bool {
    v is Success || v is Failure
}

/// The view of an evaluation result: `Some(rest)` on success.
pub open spec fn result_of(v: Verdict) -> Option<Seq<char>> {
    match v {
        Verdict::Success(rest) => Some(rest),
        _ => None,
    }
}

} // verus!
