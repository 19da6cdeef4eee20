//! Properties of matching that hold for every grammar, input and strategy.
use crate::ast::{EvaluationStrategy, Position, SExpr};
use crate::semantics::{Binding, Env, Verdict};
use crate::semantics;
use vstd::prelude::*;

verus! {

/// `rest` is what is left of `input` after a prefix of it.
pub open spec fn is_suffix(rest: Seq<char>, input: Seq<char>) -> bool {
    rest.len() <= input.len() && input.subrange(input.len() - rest.len(), input.len() as int)
        == rest
}

proof fn lemma_suffix_refl(s: Seq<char>)
    ensures
        is_suffix(s, s),
{
    assert(s.subrange(0, s.len() as int) =~= s);
}

proof fn lemma_suffix_trans(a: Seq<char>, b: Seq<char>, c: Seq<char>)
    requires
        is_suffix(a, b),
        is_suffix(b, c),
    ensures
        is_suffix(a, c),
{
    assert(c.subrange(c.len() - a.len(), c.len() as int) =~= b.subrange(
        b.len() - a.len(),
        b.len() as int,
    ));
}

proof fn lemma_suffix_drop(s: Seq<char>, k: int)
    requires
        0 <= k <= s.len(),
    ensures
        is_suffix(s.subrange(k, s.len() as int), s),
{
    assert(s.subrange(s.len() - (s.len() - k), s.len() as int) =~= s.subrange(k, s.len() as int));
}

// ----------------------------------------------------------------------------
// A match consumes a prefix of its input
// ----------------------------------------------------------------------------

/// A successful match leaves a suffix of its input: matching only ever
/// consumes characters from the front.
pub proof fn lemma_success_is_suffix(
    st: EvaluationStrategy,
    fuel: nat,
    input: Seq<char>,
    e: SExpr,
    env: Env,
)
    ensures
        semantics::eval(st, fuel, input, e, env) matches Verdict::Success(rest) ==> is_suffix(
            rest,
            input,
        ),
    decreases fuel, 3nat, 0nat,
{
    if fuel > 0 {
        let f = (fuel - 1) as nat;
        lemma_suffix_refl(input);
        match e {
            SExpr::Alternation(_, l, r) => {
                lemma_success_is_suffix(st, f, input, *l, env);
                lemma_success_is_suffix(st, f, input, *r, env);
            },
            SExpr::Sequence(_, l, r) => {
                lemma_success_is_suffix(st, f, input, *l, env);
                if let Verdict::Success(mid) = semantics::eval(st, f, input, *l, env) {
                    lemma_success_is_suffix(st, f, mid, *r, env);
                    if let Verdict::Success(rest) = semantics::eval(st, f, mid, *r, env) {
                        lemma_suffix_trans(rest, mid, input);
                    }
                }
            },
            SExpr::Call(_, name, params) => {
                lemma_call_is_suffix(st, fuel, input, name, params, env);
            },
            SExpr::Identifier(_, name) => {
                if let Some(body) = semantics::lookup(env, name) {
                    lemma_success_is_suffix(st, f, input, body, env);
                }
            },
            SExpr::Optional(_, b) => {
                lemma_success_is_suffix(st, f, input, *b, env);
            },
            SExpr::Repeat0(_, b) => {
                lemma_repeat_is_suffix(st, fuel, input, *b, env);
            },
            SExpr::Repeat1(_, b) => {
                lemma_success_is_suffix(st, f, input, *b, env);
                if let Verdict::Success(mid) = semantics::eval(st, f, input, *b, env) {
                    lemma_repeat_is_suffix(st, fuel, mid, *b, env);
                    if let Verdict::Success(rest) = semantics::repeat(st, fuel, mid, *b, env) {
                        lemma_suffix_trans(rest, mid, input);
                    }
                }
            },
            SExpr::StringLiteral(_, t) => {
                if semantics::literal_matches(t, input) {
                    lemma_suffix_drop(input, t.len() as int);
                }
            },
            SExpr::CharSet(..) => {
                if input.len() > 0 {
                    lemma_suffix_drop(input, 1);
                }
            },
            SExpr::Wildcard(..) => {
                if input.len() > 0 {
                    lemma_suffix_drop(input, 1);
                }
            },
            _ => {},
        }
    }
}

proof fn lemma_repeat_is_suffix(
    st: EvaluationStrategy,
    fuel: nat,
    input: Seq<char>,
    body: SExpr,
    env: Env,
)
    ensures
        semantics::repeat(st, fuel, input, body, env) matches Verdict::Success(rest) ==> is_suffix(
            rest,
            input,
        ),
    decreases fuel, 0nat, input.len(),
{
    if fuel > 0 {
        let f = (fuel - 1) as nat;
        lemma_suffix_refl(input);
        lemma_success_is_suffix(st, f, input, body, env);
        if let Verdict::Success(next) = semantics::eval(st, f, input, body, env) {
            if next.len() < input.len() {
                lemma_repeat_is_suffix(st, fuel, next, body, env);
                if let Verdict::Success(rest) = semantics::repeat(st, fuel, next, body, env) {
                    lemma_suffix_trans(rest, next, input);
                }
            }
        }
    }
}

proof fn lemma_call_is_suffix(
    st: EvaluationStrategy,
    fuel: nat,
    input: Seq<char>,
    name: Seq<char>,
    params: Seq<SExpr>,
    env: Env,
)
    ensures
        semantics::call(st, fuel, input, name, params, env) matches Verdict::Success(rest)
            ==> is_suffix(rest, input),
    decreases fuel, 2nat, 0nat,
{
    if fuel > 0 {
        if let Some(SExpr::Function(_, args, body)) = semantics::lookup(env, name) {
            if args.len() == params.len() {
                lemma_bind_is_suffix(st, fuel, input, params, env);
                if let Binding::Bound(call_input, values) = semantics::bind(
                    st,
                    fuel,
                    input,
                    params,
                    env,
                ) {
                    let scoped = env + semantics::zip_bindings(args, values);
                    lemma_success_is_suffix(st, (fuel - 1) as nat, call_input, *body, scoped);
                    if let Verdict::Success(rest) = semantics::eval(
                        st,
                        (fuel - 1) as nat,
                        call_input,
                        *body,
                        scoped,
                    ) {
                        lemma_suffix_trans(rest, call_input, input);
                    }
                }
            }
        }
    }
}

proof fn lemma_bind_is_suffix(
    st: EvaluationStrategy,
    fuel: nat,
    input: Seq<char>,
    params: Seq<SExpr>,
    env: Env,
)
    ensures
        semantics::bind(st, fuel, input, params, env) matches Binding::Bound(call_input, _)
            ==> is_suffix(call_input, input),
        semantics::bind(st, fuel, input, params, env) matches Binding::Halted(v) ==> !(
        v is Success),
    decreases fuel, 1nat, 0nat,
{
    lemma_suffix_refl(input);
    match st {
        EvaluationStrategy::CallByName => {},
        EvaluationStrategy::CallByValueSeq => {
            lemma_bind_in_sequence_is_suffix(st, fuel, input, params, env, 0, Seq::empty());
        },
        EvaluationStrategy::CallByValuePar => {
            lemma_bind_in_parallel_input(st, fuel, input, params, env, 0, Seq::empty());
        },
    }
}

proof fn lemma_bind_in_sequence_is_suffix(
    st: EvaluationStrategy,
    fuel: nat,
    rest: Seq<char>,
    params: Seq<SExpr>,
    env: Env,
    i: int,
    acc: Seq<SExpr>,
)
    ensures
        semantics::bind_in_sequence(st, fuel, rest, params, env, i, acc) matches Binding::Bound(
            call_input,
            _,
        ) ==> is_suffix(call_input, rest),
        semantics::bind_in_sequence(st, fuel, rest, params, env, i, acc) matches Binding::Halted(
            v,
        ) ==> !(v is Success),
    decreases fuel, 0nat, params.len() - i,
{
    lemma_suffix_refl(rest);
    if 0 <= i < params.len() && fuel > 0 {
        let f = (fuel - 1) as nat;
        lemma_success_is_suffix(st, f, rest, params[i], env);
        if let Verdict::Success(next) = semantics::eval(st, f, rest, params[i], env) {
            let acc2 = acc.push(semantics::consumed_literal(rest, next));
            lemma_bind_in_sequence_is_suffix(st, fuel, next, params, env, i + 1, acc2);
            if let Binding::Bound(call_input, _) = semantics::bind_in_sequence(
                st,
                fuel,
                next,
                params,
                env,
                i + 1,
                acc2,
            ) {
                lemma_suffix_trans(call_input, next, rest);
            }
        }
    }
}

proof fn lemma_bind_in_parallel_input(
    st: EvaluationStrategy,
    fuel: nat,
    input: Seq<char>,
    params: Seq<SExpr>,
    env: Env,
    i: int,
    acc: Seq<SExpr>,
)
    ensures
        semantics::bind_in_parallel(st, fuel, input, params, env, i, acc) matches Binding::Bound(
            call_input,
            _,
        ) ==> call_input == input,
        semantics::bind_in_parallel(st, fuel, input, params, env, i, acc) matches Binding::Halted(
            v,
        ) ==> !(v is Success),
    decreases params.len() - i,
{
    if 0 <= i < params.len() && fuel > 0 {
        let f = (fuel - 1) as nat;
        if let Verdict::Success(next) = semantics::eval(st, f, input, params[i], env) {
            lemma_bind_in_parallel_input(
                st,
                fuel,
                input,
                params,
                env,
                i + 1,
                acc.push(semantics::consumed_literal(input, next)),
            );
        }
    }
}

// ----------------------------------------------------------------------------
// The depth budget
// ----------------------------------------------------------------------------

/// A larger depth budget never changes a verdict that a smaller budget
/// reached: only `OutOfDepth` depends on the budget.
pub proof fn lemma_eval_depth_monotone(
    st: EvaluationStrategy,
    f1: nat,
    f2: nat,
    input: Seq<char>,
    e: SExpr,
    env: Env,
)
    requires
        f1 <= f2,
        !(semantics::eval(st, f1, input, e, env) is OutOfDepth),
    ensures
        semantics::eval(st, f2, input, e, env) == semantics::eval(st, f1, input, e, env),
    decreases f1, 3nat, 0nat,
{
    let a = (f1 - 1) as nat;
    let b = (f2 - 1) as nat;
    match e {
        SExpr::Alternation(_, l, r) => {
            lemma_eval_depth_monotone(st, a, b, input, *l, env);
            if semantics::eval(st, a, input, *l, env) is Failure {
                lemma_eval_depth_monotone(st, a, b, input, *r, env);
            }
        },
        SExpr::Sequence(_, l, r) => {
            lemma_eval_depth_monotone(st, a, b, input, *l, env);
            if let Verdict::Success(mid) = semantics::eval(st, a, input, *l, env) {
                lemma_eval_depth_monotone(st, a, b, mid, *r, env);
            }
        },
        SExpr::AndPredicate(_, x) => {
            lemma_eval_depth_monotone(st, a, b, input, *x, env);
        },
        SExpr::NotPredicate(_, x) => {
            lemma_eval_depth_monotone(st, a, b, input, *x, env);
        },
        SExpr::Call(_, name, params) => {
            lemma_call_depth_monotone(st, f1, f2, input, name, params, env);
        },
        SExpr::Identifier(_, name) => {
            if let Some(body) = semantics::lookup(env, name) {
                lemma_eval_depth_monotone(st, a, b, input, body, env);
            }
        },
        SExpr::Optional(_, x) => {
            lemma_eval_depth_monotone(st, a, b, input, *x, env);
        },
        SExpr::Repeat0(_, x) => {
            lemma_repeat_depth_monotone(st, f1, f2, input, *x, env);
        },
        SExpr::Repeat1(_, x) => {
            lemma_eval_depth_monotone(st, a, b, input, *x, env);
            if let Verdict::Success(mid) = semantics::eval(st, a, input, *x, env) {
                lemma_repeat_depth_monotone(st, f1, f2, mid, *x, env);
            }
        },
        _ => {},
    }
}

proof fn lemma_repeat_depth_monotone(
    st: EvaluationStrategy,
    f1: nat,
    f2: nat,
    input: Seq<char>,
    body: SExpr,
    env: Env,
)
    requires
        f1 <= f2,
        !(semantics::repeat(st, f1, input, body, env) is OutOfDepth),
    ensures
        semantics::repeat(st, f2, input, body, env) == semantics::repeat(st, f1, input, body, env),
    decreases f1, 0nat, input.len(),
{
    let a = (f1 - 1) as nat;
    let b = (f2 - 1) as nat;
    lemma_eval_depth_monotone(st, a, b, input, body, env);
    if let Verdict::Success(next) = semantics::eval(st, a, input, body, env) {
        if next.len() < input.len() {
            lemma_repeat_depth_monotone(st, f1, f2, next, body, env);
        }
    }
}

proof fn lemma_call_depth_monotone(
    st: EvaluationStrategy,
    f1: nat,
    f2: nat,
    input: Seq<char>,
    name: Seq<char>,
    params: Seq<SExpr>,
    env: Env,
)
    requires
        f1 <= f2,
        !(semantics::call(st, f1, input, name, params, env) is OutOfDepth),
    ensures
        semantics::call(st, f2, input, name, params, env) == semantics::call(
            st,
            f1,
            input,
            name,
            params,
            env,
        ),
    decreases f1, 2nat, 0nat,
{
    if let Some(SExpr::Function(_, args, body)) = semantics::lookup(env, name) {
        if args.len() == params.len() {
            lemma_bind_depth_monotone(st, f1, f2, input, params, env);
            if let Binding::Bound(call_input, values) = semantics::bind(
                st,
                f1,
                input,
                params,
                env,
            ) {
                lemma_eval_depth_monotone(
                    st,
                    (f1 - 1) as nat,
                    (f2 - 1) as nat,
                    call_input,
                    *body,
                    env + semantics::zip_bindings(args, values),
                );
            }
        }
    }
}

proof fn lemma_bind_depth_monotone(
    st: EvaluationStrategy,
    f1: nat,
    f2: nat,
    input: Seq<char>,
    params: Seq<SExpr>,
    env: Env,
)
    requires
        f1 <= f2,
        semantics::bind(st, f1, input, params, env) != Binding::Halted(Verdict::OutOfDepth),
    ensures
        semantics::bind(st, f2, input, params, env) == semantics::bind(st, f1, input, params, env),
    decreases f1, 1nat, 0nat,
{
    match st {
        EvaluationStrategy::CallByName => {},
        EvaluationStrategy::CallByValueSeq => {
            lemma_bind_in_sequence_depth_monotone(st, f1, f2, input, params, env, 0, Seq::empty());
        },
        EvaluationStrategy::CallByValuePar => {
            lemma_bind_in_parallel_depth_monotone(st, f1, f2, input, params, env, 0, Seq::empty());
        },
    }
}

proof fn lemma_bind_in_sequence_depth_monotone(
    st: EvaluationStrategy,
    f1: nat,
    f2: nat,
    rest: Seq<char>,
    params: Seq<SExpr>,
    env: Env,
    i: int,
    acc: Seq<SExpr>,
)
    requires
        f1 <= f2,
        semantics::bind_in_sequence(st, f1, rest, params, env, i, acc) != Binding::Halted(
            Verdict::OutOfDepth,
        ),
    ensures
        semantics::bind_in_sequence(st, f2, rest, params, env, i, acc)
            == semantics::bind_in_sequence(st, f1, rest, params, env, i, acc),
    decreases f1, 0nat, params.len() - i,
{
    if 0 <= i < params.len() {
        let a = (f1 - 1) as nat;
        lemma_eval_depth_monotone(st, a, (f2 - 1) as nat, rest, params[i], env);
        if let Verdict::Success(next) = semantics::eval(st, a, rest, params[i], env) {
            lemma_bind_in_sequence_depth_monotone(
                st,
                f1,
                f2,
                next,
                params,
                env,
                i + 1,
                acc.push(semantics::consumed_literal(rest, next)),
            );
        }
    }
}

proof fn lemma_bind_in_parallel_depth_monotone(
    st: EvaluationStrategy,
    f1: nat,
    f2: nat,
    input: Seq<char>,
    params: Seq<SExpr>,
    env: Env,
    i: int,
    acc: Seq<SExpr>,
)
    requires
        f1 <= f2,
        semantics::bind_in_parallel(st, f1, input, params, env, i, acc) != Binding::Halted(
            Verdict::OutOfDepth,
        ),
    ensures
        semantics::bind_in_parallel(st, f2, input, params, env, i, acc)
            == semantics::bind_in_parallel(st, f1, input, params, env, i, acc),
    decreases f1, 0nat, params.len() - i,
{
    if 0 <= i < params.len() {
        let a = (f1 - 1) as nat;
        lemma_eval_depth_monotone(st, a, (f2 - 1) as nat, input, params[i], env);
        if let Verdict::Success(next) = semantics::eval(st, a, input, params[i], env) {
            lemma_bind_in_parallel_depth_monotone(
                st,
                f1,
                f2,
                input,
                params,
                env,
                i + 1,
                acc.push(semantics::consumed_literal(input, next)),
            );
        }
    }
}

// ----------------------------------------------------------------------------
// Predicates, options and repetitions
// ----------------------------------------------------------------------------

/// `&e` succeeds exactly when `e` does and `!e` exactly when `e` fails; a
/// predicate that succeeds consumes nothing.
pub proof fn lemma_predicates_consume_nothing(
    st: EvaluationStrategy,
    fuel: nat,
    input: Seq<char>,
    body: SExpr,
    env: Env,
    p: Position,
)
    requires
        fuel > 0,
    ensures
        semantics::eval(st, fuel, input, SExpr::AndPredicate(p, Box::new(body)), env) is Success
            <==> semantics::eval(st, (fuel - 1) as nat, input, body, env) is Success,
        semantics::eval(st, fuel, input, SExpr::NotPredicate(p, Box::new(body)), env) is Success
            <==> semantics::eval(st, (fuel - 1) as nat, input, body, env) is Failure,
        semantics::eval(st, fuel, input, SExpr::AndPredicate(p, Box::new(body)), env) matches
            Verdict::Success(rest) ==> rest == input,
        semantics::eval(st, fuel, input, SExpr::NotPredicate(p, Box::new(body)), env) matches
            Verdict::Success(rest) ==> rest == input,
{
}

/// `e*` and `e?` never fail: at worst they match nothing.
pub proof fn lemma_repetition_never_fails(
    st: EvaluationStrategy,
    fuel: nat,
    input: Seq<char>,
    body: SExpr,
    env: Env,
    p: Position,
)
    ensures
        !(semantics::eval(st, fuel, input, SExpr::Repeat0(p, Box::new(body)), env) is Failure),
        !(semantics::eval(st, fuel, input, SExpr::Optional(p, Box::new(body)), env) is Failure),
{
    lemma_repeat_never_fails(st, fuel, input, body, env);
}

proof fn lemma_repeat_never_fails(
    st: EvaluationStrategy,
    fuel: nat,
    input: Seq<char>,
    body: SExpr,
    env: Env,
)
    ensures
        !(semantics::repeat(st, fuel, input, body, env) is Failure),
    decreases input.len(),
{
    if fuel > 0 {
        if let Verdict::Success(next) = semantics::eval(st, (fuel - 1) as nat, input, body, env) {
            if next.len() < input.len() {
                lemma_repeat_never_fails(st, fuel, next, body, env);
            }
        }
    }
}

/// `e+` matches as `e e*` does.  The sequence spends one more level of depth,
/// so the two agree whenever `e+` finishes within its budget.
pub proof fn lemma_repeat1_is_sequence(
    st: EvaluationStrategy,
    fuel: nat,
    input: Seq<char>,
    body: SExpr,
    env: Env,
    p: Position,
    q: Position,
    r: Position,
)
    requires
        !(semantics::eval(st, fuel, input, SExpr::Repeat1(p, Box::new(body)), env) is OutOfDepth),
    ensures
        semantics::eval(
            st,
            fuel + 1,
            input,
            SExpr::Sequence(q, Box::new(body), Box::new(SExpr::Repeat0(r, Box::new(body)))),
            env,
        ) == semantics::eval(st, fuel, input, SExpr::Repeat1(p, Box::new(body)), env),
{
    lemma_eval_depth_monotone(st, (fuel - 1) as nat, fuel, input, body, env);
    if let Verdict::Success(rest) = semantics::eval(st, fuel, input, body, env) {
        assert(semantics::eval(st, fuel, rest, SExpr::Repeat0(r, Box::new(body)), env)
            == semantics::repeat(st, fuel, rest, body, env));
    }
}

/// The other direction: where `e e*` finishes within a budget, `e+` gives the
/// same verdict with that budget.
pub proof fn lemma_sequence_is_repeat1(
    st: EvaluationStrategy,
    fuel: nat,
    input: Seq<char>,
    body: SExpr,
    env: Env,
    p: Position,
    q: Position,
    r: Position,
)
    requires
        !(semantics::eval(
            st,
            fuel,
            input,
            SExpr::Sequence(q, Box::new(body), Box::new(SExpr::Repeat0(r, Box::new(body)))),
            env,
        ) is OutOfDepth),
    ensures
        semantics::eval(st, fuel, input, SExpr::Repeat1(p, Box::new(body)), env)
            == semantics::eval(
            st,
            fuel,
            input,
            SExpr::Sequence(q, Box::new(body), Box::new(SExpr::Repeat0(r, Box::new(body)))),
            env,
        ),
{
    let f = (fuel - 1) as nat;
    if let Verdict::Success(rest) = semantics::eval(st, f, input, body, env) {
        assert(semantics::eval(st, f, rest, SExpr::Repeat0(r, Box::new(body)), env)
            == semantics::repeat(st, f, rest, body, env));
        lemma_repeat_depth_monotone(st, f, fuel, rest, body, env);
    }
}

/// `e?` matches as `e / ""` does, with every budget.
pub proof fn lemma_optional_is_alternation(
    st: EvaluationStrategy,
    fuel: nat,
    input: Seq<char>,
    body: SExpr,
    env: Env,
    p: Position,
    q: Position,
    r: Position,
)
    ensures
        semantics::eval(st, fuel, input, SExpr::Optional(p, Box::new(body)), env)
            == semantics::eval(
            st,
            fuel,
            input,
            SExpr::Alternation(
                q,
                Box::new(body),
                Box::new(SExpr::StringLiteral(r, Seq::empty())),
            ),
            env,
        ),
{
    if fuel > 1 {
        let f = (fuel - 1) as nat;
        assert(input.subrange(0, 0) =~= Seq::<char>::empty());
        assert(input.subrange(0, input.len() as int) =~= input);
        let lit = SExpr::StringLiteral(r, Seq::<char>::empty());
        assert(semantics::literal_matches(Seq::<char>::empty(), input));
        assert(semantics::eval(st, f, input, lit, env) == Verdict::Success(input));
        let alt = SExpr::Alternation(q, Box::new(body), Box::new(lit));
        let v = semantics::eval(st, f, input, body, env);
        if v is Failure {
            assert(semantics::eval(st, fuel, input, alt, env) == semantics::eval(
                st,
                f,
                input,
                lit,
                env,
            ));
        }
    } else if fuel == 1 {
        assert(semantics::eval(st, 0, input, body, env) is OutOfDepth);
    }
}

// ----------------------------------------------------------------------------
// Bindings
// ----------------------------------------------------------------------------

/// `lookup` finds the last binding of a name, and finds none exactly when no
/// binding has the name.
pub proof fn lemma_lookup_last(env: Env, name: Seq<char>)
    ensures
        match semantics::lookup(env, name) {
            Some(e) => exists|i: int|
                0 <= i < env.len() && #[trigger] env[i] == (name, e) && forall|j: int|
                    i < j < env.len() ==> (#[trigger] env[j]).0 != name,
            None => forall|i: int| 0 <= i < env.len() ==> (#[trigger] env[i]).0 != name,
        },
    decreases env.len(),
{
    if env.len() > 0 {
        let init = env.drop_last();
        lemma_lookup_last(init, name);
        if env.last().0 == name {
            assert(env[env.len() - 1] == (name, env.last().1));
        } else {
            match semantics::lookup(init, name) {
                Some(e) => {
                    let i = choose|i: int|
                        0 <= i < init.len() && #[trigger] init[i] == (name, e) && forall|j: int|
                            i < j < init.len() ==> (#[trigger] init[j]).0 != name;
                    assert(env[i] == init[i]);
                    assert forall|j: int| i < j < env.len() implies (#[trigger] env[j]).0
                        != name by {
                        if j < env.len() - 1 {
                            assert(env[j] == init[j]);
                        }
                    }
                },
                None => {
                    assert forall|i: int| 0 <= i < env.len() implies (#[trigger] env[i]).0
                        != name by {
                        if i < env.len() - 1 {
                            assert(env[i] == init[i]);
                        }
                    }
                },
            }
        }
    }
}

/// Bindings added later hide earlier bindings of the same name: inside a call
/// a parameter hides any rule or outer parameter that shares its name.
pub proof fn lemma_lookup_concat(a: Env, b: Env, name: Seq<char>)
    ensures
        semantics::lookup(a + b, name) == match semantics::lookup(b, name) {
            Some(e) => Some(e),
            None => semantics::lookup(a, name),
        },
    decreases b.len(),
{
    if b.len() == 0 {
        assert(a + b =~= a);
    } else {
        assert((a + b).drop_last() =~= a + b.drop_last());
        assert((a + b).last() == b.last());
        lemma_lookup_concat(a, b.drop_last(), name);
    }
}

/// The rule a name refers to is the last rule of that name in the grammar;
/// a name no rule has refers to nothing.
pub proof fn lemma_rule_lookup(g: crate::ast::SGrammar, name: Seq<char>)
    ensures
        match semantics::lookup(semantics::grammar_bindings(g), name) {
            Some(e) => exists|i: int|
                0 <= i < g.rules.len() && (#[trigger] g.rules[i]).name == name
                    && semantics::rule_binding(g.rules[i]).1 == e && forall|j: int|
                    i < j < g.rules.len() ==> (#[trigger] g.rules[j]).name != name,
            None => forall|i: int| 0 <= i < g.rules.len() ==> (#[trigger] g.rules[i]).name != name,
        },
{
    let env = semantics::grammar_bindings(g);
    lemma_lookup_last(env, name);
    assert forall|i: int| 0 <= i < g.rules.len() implies #[trigger] env[i]
        == semantics::rule_binding(g.rules[i]) by {}
    match semantics::lookup(env, name) {
        Some(e) => {
            let i = choose|i: int|
                0 <= i < env.len() && #[trigger] env[i] == (name, e) && forall|j: int|
                    i < j < env.len() ==> (#[trigger] env[j]).0 != name;
            assert(g.rules[i].name == name);
            assert forall|j: int| i < j < g.rules.len() implies (#[trigger] g.rules[j]).name
                != name by {
                assert(env[j].0 == g.rules[j].name);
            }
        },
        None => {
            assert forall|i: int| 0 <= i < g.rules.len() implies (#[trigger] g.rules[i]).name
                != name by {
                assert(env[i].0 == g.rules[i].name);
            }
        },
    }
}

// ----------------------------------------------------------------------------
// Character classes
// ----------------------------------------------------------------------------

proof fn lemma_add_char(acc: Seq<char>, ch: char)
    ensures
        forall|x: char| #[trigger]
            semantics::add_char(acc, ch).contains(x) <==> (acc.contains(x) || x == ch),
        acc.no_duplicates() ==> semantics::add_char(acc, ch).no_duplicates(),
{
    if !acc.contains(ch) {
        let r = acc.push(ch);
        assert forall|x: char| #[trigger] r.contains(x) <==> (acc.contains(x) || x == ch) by {
            if acc.contains(x) {
                let j = choose|j: int| 0 <= j < acc.len() && acc[j] == x;
                assert(r[j] == x);
            }
            if x == ch {
                assert(r[acc.len() as int] == ch);
            }
            if r.contains(x) {
                let j = choose|j: int| 0 <= j < r.len() && r[j] == x;
                if j < acc.len() {
                    assert(acc[j] == x);
                }
            }
        }
        if acc.no_duplicates() {
            assert forall|i: int, j: int|
                0 <= i < r.len() && 0 <= j < r.len() && i != j implies r[i] != r[j] by {
                if i == acc.len() {
                    assert(acc[j] == r[j]);
                } else if j == acc.len() {
                    assert(acc[i] == r[i]);
                }
            }
        }
    }
}

proof fn lemma_add_range(acc: Seq<char>, lo: int, hi: int)
    ensures
        forall|x: char| #[trigger]
            semantics::add_range(acc, lo, hi).contains(x) <==> (acc.contains(x) || (lo <= (
            x as int) && (x as int) <= hi)),
        acc.no_duplicates() ==> semantics::add_range(acc, lo, hi).no_duplicates(),
    decreases hi - lo + 1,
{
    if lo <= hi {
        let next = if crate::syntax::is_scalar(lo) {
            semantics::add_char(acc, lo as char)
        } else {
            acc
        };
        lemma_add_char(acc, lo as char);
        lemma_add_range(next, lo + 1, hi);
        assert forall|x: char| #[trigger]
            semantics::add_range(acc, lo, hi).contains(x) <==> (acc.contains(x) || (lo <= (
            x as int) && (x as int) <= hi)) by {
            assert(semantics::add_range(acc, lo, hi) == semantics::add_range(next, lo + 1, hi));
            assert(next.contains(x) <==> (acc.contains(x) || (crate::syntax::is_scalar(lo) && x
                == lo as char)));
            if x as int == lo {
                vstd::utf8::char_is_scalar(x);
                vstd::utf8::char_u32_cast(x, x as u32);
                assert(crate::syntax::is_scalar(lo));
                assert(lo as char == x);
            }
            if crate::syntax::is_scalar(lo) && x == lo as char {
                assert(x as int == lo);
            }
        }
    }
}

/// The characters of a class are those that one of its elements names, each once.
pub proof fn lemma_class_chars(elems: Seq<crate::ast::CharClassElement>)
    ensures
        forall|x: char| #[trigger]
            semantics::class_chars(elems).contains(x) <==> exists|k: int|
                0 <= k < elems.len() && semantics::covers(#[trigger] elems[k], x),
        semantics::class_chars(elems).no_duplicates(),
    decreases elems.len(),
{
    if elems.len() > 0 {
        let init = elems.drop_last();
        let acc = semantics::class_chars(init);
        lemma_class_chars(init);
        match elems.last() {
            crate::ast::CharClassElement::OneChar(c) => {
                lemma_add_char(acc, c);
            },
            crate::ast::CharClassElement::CharRange(from, to) => {
                lemma_add_range(acc, from as int, to as int);
            },
        }
        assert forall|x: char| #[trigger]
            semantics::class_chars(elems).contains(x) <==> exists|k: int|
                0 <= k < elems.len() && semantics::covers(#[trigger] elems[k], x) by {
            if acc.contains(x) {
                let k = choose|k: int| 0 <= k < init.len() && semantics::covers(
                    #[trigger] init[k],
                    x,
                );
                assert(elems[k] == init[k]);
            }
            if exists|k: int| 0 <= k < elems.len() && semantics::covers(#[trigger] elems[k], x) {
                let k = choose|k: int| 0 <= k < elems.len() && semantics::covers(
                    #[trigger] elems[k],
                    x,
                );
                if k < elems.len() - 1 {
                    assert(init[k] == elems[k]);
                } else {
                    assert(elems[k] == elems.last());
                }
            }
        }
    } else {
        assert(semantics::class_chars(elems) =~= Seq::<char>::empty());
    }
}

// ----------------------------------------------------------------------------
// Preparing rules
// ----------------------------------------------------------------------------

/// No character class is left in `e`, except inside function bodies.
pub open spec fn class_free(e: SExpr) -> bool
    decreases e,
{
    match e {
        SExpr::CharClass(..) => false,
        SExpr::Alternation(_, l, r) => class_free(*l) && class_free(*r),
        SExpr::Sequence(_, l, r) => class_free(*l) && class_free(*r),
        SExpr::Repeat0(_, b) => class_free(*b),
        SExpr::Repeat1(_, b) => class_free(*b),
        SExpr::Optional(_, b) => class_free(*b),
        SExpr::AndPredicate(_, b) => class_free(*b),
        SExpr::NotPredicate(_, b) => class_free(*b),
        SExpr::Debug(_, b) => class_free(*b),
        SExpr::Call(_, _, args) => all_class_free(args),
        _ => true,
    }
}

pub open spec fn all_class_free(s: Seq<SExpr>) -> bool
    decreases s,
{
    if s.len() == 0 {
        true
    } else {
        all_class_free(s.drop_last()) && class_free(s.last())
    }
}

/// Expansion leaves no character class outside function bodies.
pub proof fn lemma_expand_class_free(e: SExpr)
    ensures
        class_free(semantics::expand(e)),
    decreases e,
{
    match e {
        SExpr::Alternation(_, l, r) => {
            lemma_expand_class_free(*l);
            lemma_expand_class_free(*r);
        },
        SExpr::Sequence(_, l, r) => {
            lemma_expand_class_free(*l);
            lemma_expand_class_free(*r);
        },
        SExpr::Repeat0(_, b) => lemma_expand_class_free(*b),
        SExpr::Repeat1(_, b) => lemma_expand_class_free(*b),
        SExpr::Optional(_, b) => lemma_expand_class_free(*b),
        SExpr::AndPredicate(_, b) => lemma_expand_class_free(*b),
        SExpr::NotPredicate(_, b) => lemma_expand_class_free(*b),
        SExpr::Debug(_, b) => lemma_expand_class_free(*b),
        SExpr::Call(_, _, args) => lemma_expand_all_class_free(args),
        _ => {},
    }
}

proof fn lemma_expand_all_class_free(s: Seq<SExpr>)
    ensures
        all_class_free(semantics::expand_all(s)),
    decreases s,
{
    if s.len() > 0 {
        lemma_expand_all_class_free(s.drop_last());
        lemma_expand_class_free(s.last());
        assert(semantics::expand_all(s).drop_last() =~= semantics::expand_all(s.drop_last()));
    }
}

/// Every binding an evaluator is built with has its character classes
/// expanded: the body of a rule without parameters is class-free, and a rule
/// with parameters becomes a function whose body is class-free.
pub proof fn lemma_bindings_prepared(g: crate::ast::SGrammar)
    ensures
        forall|i: int|
            0 <= i < g.rules.len() ==> {
                let b = (#[trigger] semantics::grammar_bindings(g)[i]).1;
                if g.rules[i].args.len() == 0 {
                    class_free(b)
                } else {
                    b matches SExpr::Function(_, _, body) && class_free(*body)
                }
            },
{
    assert forall|i: int| 0 <= i < g.rules.len() implies {
        let b = (#[trigger] semantics::grammar_bindings(g)[i]).1;
        if g.rules[i].args.len() == 0 {
            class_free(b)
        } else {
            b matches SExpr::Function(_, _, body) && class_free(*body)
        }
    } by {
        lemma_expand_class_free(g.rules[i].body);
    }
}

// ----------------------------------------------------------------------------
// Reading grammars
// ----------------------------------------------------------------------------

/// Every position that reading a grammar reports is the zero-based line and
/// column of a place in the source: the grammar's, each rule's, and that of
/// the error which stops the reading.
pub proof fn lemma_parse_positions(s: Seq<char>)
    ensures
        match crate::syntax::spec_parse_grammar(s) {
            Ok(g) => crate::syntax::placed(s, g.pos) && forall|k: int|
                0 <= k < g.rules.len() ==> crate::syntax::placed(s, (#[trigger] g.rules[k]).pos),
            Err(e) => crate::syntax::placed(s, e.pos),
        },
{
    let c0 = crate::syntax::start_cursor();
    assert(crate::syntax::wf(s, c0));
    crate::syntax::lemma_skip_spacing(s, c0);
    crate::syntax::lemma_definitions(s, crate::syntax::skip_spacing(s, c0), Seq::empty());
}

/// Every rule name and parameter name of a parsed grammar is an identifier:
/// a letter or `_`, then letters, digits and `_`.
pub proof fn lemma_parse_names(s: Seq<char>)
    ensures
        crate::syntax::spec_parse_grammar(s) matches Ok(g) ==> forall|k: int|
            0 <= k < g.rules.len() ==> crate::syntax::is_identifier((#[trigger] g.rules[k]).name)
                && crate::syntax::all_identifiers(g.rules[k].args),
{
    let c0 = crate::syntax::start_cursor();
    assert(crate::syntax::wf(s, c0));
    crate::syntax::lemma_skip_spacing(s, c0);
    crate::syntax::lemma_definitions(s, crate::syntax::skip_spacing(s, c0), Seq::empty());
}

/// Expanding twice gives what expanding once gives.
pub proof fn lemma_expand_idempotent(e: SExpr)
    ensures
        semantics::expand(semantics::expand(e)) == semantics::expand(e),
    decreases e,
{
    match e {
        SExpr::Alternation(_, l, r) => {
            lemma_expand_idempotent(*l);
            lemma_expand_idempotent(*r);
        },
        SExpr::Sequence(_, l, r) => {
            lemma_expand_idempotent(*l);
            lemma_expand_idempotent(*r);
        },
        SExpr::Repeat0(_, b) => lemma_expand_idempotent(*b),
        SExpr::Repeat1(_, b) => lemma_expand_idempotent(*b),
        SExpr::Optional(_, b) => lemma_expand_idempotent(*b),
        SExpr::AndPredicate(_, b) => lemma_expand_idempotent(*b),
        SExpr::NotPredicate(_, b) => lemma_expand_idempotent(*b),
        SExpr::Debug(_, b) => lemma_expand_idempotent(*b),
        SExpr::Call(_, _, args) => lemma_expand_all_idempotent(args),
        _ => {},
    }
}

proof fn lemma_expand_all_idempotent(s: Seq<SExpr>)
    ensures
        semantics::expand_all(semantics::expand_all(s)) == semantics::expand_all(s),
    decreases s,
{
    if s.len() > 0 {
        lemma_expand_all_idempotent(s.drop_last());
        lemma_expand_idempotent(s.last());
        let t = semantics::expand_all(s.drop_last());
        let x = semantics::expand(s.last());
        assert(t.push(x).drop_last() =~= t);
    }
}

/// No name bound in `env` occurs in `e` as an identifier outside a function body.
pub open spec fn unbound_in(e: SExpr, env: Env) -> bool
    decreases e,
{
    match e {
        SExpr::Identifier(_, name) => semantics::lookup(env, name) is None,
        SExpr::Alternation(_, l, r) => unbound_in(*l, env) && unbound_in(*r, env),
        SExpr::Sequence(_, l, r) => unbound_in(*l, env) && unbound_in(*r, env),
        SExpr::Repeat0(_, b) => unbound_in(*b, env),
        SExpr::Repeat1(_, b) => unbound_in(*b, env),
        SExpr::Optional(_, b) => unbound_in(*b, env),
        SExpr::AndPredicate(_, b) => unbound_in(*b, env),
        SExpr::NotPredicate(_, b) => unbound_in(*b, env),
        SExpr::Debug(_, b) => unbound_in(*b, env),
        SExpr::Call(_, _, args) => all_unbound_in(args, env),
        _ => true,
    }
}

pub open spec fn all_unbound_in(s: Seq<SExpr>, env: Env) -> bool
    decreases s,
{
    if s.len() == 0 {
        true
    } else {
        all_unbound_in(s.drop_last(), env) && unbound_in(s.last(), env)
    }
}

/// Extraction leaves an expression as it is when none of its identifiers
/// outside function bodies is bound; in particular with no bindings at all.
pub proof fn lemma_extract_unbound(e: SExpr, env: Env)
    requires
        unbound_in(e, env),
    ensures
        semantics::extract(e, env) == e,
    decreases e,
{
    match e {
        SExpr::Alternation(_, l, r) => {
            lemma_extract_unbound(*l, env);
            lemma_extract_unbound(*r, env);
        },
        SExpr::Sequence(_, l, r) => {
            lemma_extract_unbound(*l, env);
            lemma_extract_unbound(*r, env);
        },
        SExpr::Repeat0(_, b) => lemma_extract_unbound(*b, env),
        SExpr::Repeat1(_, b) => lemma_extract_unbound(*b, env),
        SExpr::Optional(_, b) => lemma_extract_unbound(*b, env),
        SExpr::AndPredicate(_, b) => lemma_extract_unbound(*b, env),
        SExpr::NotPredicate(_, b) => lemma_extract_unbound(*b, env),
        SExpr::Debug(_, b) => lemma_extract_unbound(*b, env),
        SExpr::Call(_, _, args) => lemma_extract_all_unbound(args, env),
        _ => {},
    }
}

proof fn lemma_extract_all_unbound(s: Seq<SExpr>, env: Env)
    requires
        all_unbound_in(s, env),
    ensures
        semantics::extract_all(s, env) == s,
    decreases s,
{
    if s.len() > 0 {
        lemma_extract_all_unbound(s.drop_last(), env);
        lemma_extract_unbound(s.last(), env);
        assert(s.drop_last().push(s.last()) =~= s);
    }
}

/// Every expression is unbound in an empty list of bindings.
pub proof fn lemma_unbound_in_empty(e: SExpr)
    ensures
        unbound_in(e, Seq::empty()),
    decreases e,
{
    match e {
        SExpr::Alternation(_, l, r) => {
            lemma_unbound_in_empty(*l);
            lemma_unbound_in_empty(*r);
        },
        SExpr::Sequence(_, l, r) => {
            lemma_unbound_in_empty(*l);
            lemma_unbound_in_empty(*r);
        },
        SExpr::Repeat0(_, b) => lemma_unbound_in_empty(*b),
        SExpr::Repeat1(_, b) => lemma_unbound_in_empty(*b),
        SExpr::Optional(_, b) => lemma_unbound_in_empty(*b),
        SExpr::AndPredicate(_, b) => lemma_unbound_in_empty(*b),
        SExpr::NotPredicate(_, b) => lemma_unbound_in_empty(*b),
        SExpr::Debug(_, b) => lemma_unbound_in_empty(*b),
        SExpr::Call(_, _, args) => lemma_all_unbound_in_empty(args),
        _ => {},
    }
}

proof fn lemma_all_unbound_in_empty(s: Seq<SExpr>)
    ensures
        all_unbound_in(s, Seq::empty()),
    decreases s,
{
    if s.len() > 0 {
        lemma_all_unbound_in_empty(s.drop_last());
        lemma_unbound_in_empty(s.last());
    }
}

proof fn lemma_skip_blanks_stops(s: Seq<char>, c: crate::syntax::SCursor)
    ensures
        !(crate::syntax::peek(s, crate::syntax::skip_blanks(s, c)) matches Some(ch)
            && crate::syntax::is_space(ch)),
    decreases s.len() - c.idx,
{
    if c.idx < s.len() && crate::syntax::is_space(s[c.idx as int]) {
        crate::syntax::lemma_step(s, c);
        lemma_skip_blanks_stops(s, crate::syntax::step(s, c));
    }
}

/// Skipping spacing always succeeds and stops where neither a blank
/// (space, tab, carriage return, line feed) nor a `//` comment starts;
/// skipping again from there moves nowhere.
pub proof fn lemma_spacing_stops(s: Seq<char>, c: crate::syntax::SCursor)
    ensures
        !(crate::syntax::peek(s, crate::syntax::skip_spacing(s, c)) matches Some(ch)
            && crate::syntax::is_space(ch)),
        !crate::syntax::comment_at(s, crate::syntax::skip_spacing(s, c)),
        crate::syntax::skip_spacing(s, crate::syntax::skip_spacing(s, c))
            == crate::syntax::skip_spacing(s, c),
    decreases s.len() - c.idx,
{
    let c1 = crate::syntax::skip_blanks(s, c);
    lemma_skip_blanks_stops(s, c);
    crate::syntax::lemma_skip_blanks(s, c);
    if crate::syntax::comment_at(s, c1) {
        crate::syntax::lemma_skip_comment(s, c1);
        lemma_spacing_stops(s, crate::syntax::skip_comment(s, c1));
    } else {
        assert(crate::syntax::skip_blanks(s, c1) == c1);
    }
}

// ----------------------------------------------------------------------------
// Strategies
// ----------------------------------------------------------------------------

/// No call occurs anywhere in `e`, function bodies included.
pub open spec fn call_free(e: SExpr) -> bool
    decreases e,
{
    match e {
        SExpr::Call(..) => false,
        SExpr::Alternation(_, l, r) => call_free(*l) && call_free(*r),
        SExpr::Sequence(_, l, r) => call_free(*l) && call_free(*r),
        SExpr::Repeat0(_, b) => call_free(*b),
        SExpr::Repeat1(_, b) => call_free(*b),
        SExpr::Optional(_, b) => call_free(*b),
        SExpr::AndPredicate(_, b) => call_free(*b),
        SExpr::NotPredicate(_, b) => call_free(*b),
        SExpr::Debug(_, b) => call_free(*b),
        SExpr::Function(_, _, b) => call_free(*b),
        _ => true,
    }
}

/// Every bound expression is free of calls.
pub open spec fn bindings_call_free(env: Env) -> bool {
    forall|i: int| 0 <= i < env.len() ==> call_free((#[trigger] env[i]).1)
}

proof fn lemma_lookup_call_free(env: Env, name: Seq<char>)
    requires
        bindings_call_free(env),
    ensures
        semantics::lookup(env, name) matches Some(e) ==> call_free(e),
{
    lemma_lookup_last(env, name);
    if let Some(e) = semantics::lookup(env, name) {
        let i = choose|i: int|
            0 <= i < env.len() && #[trigger] env[i] == (name, e) && forall|j: int|
                i < j < env.len() ==> (#[trigger] env[j]).0 != name;
        assert(call_free(env[i].1));
    }
}

/// Without calls, the strategy plays no part: every strategy gives the same verdict.
pub proof fn lemma_strategy_irrelevant_without_calls(
    st1: EvaluationStrategy,
    st2: EvaluationStrategy,
    fuel: nat,
    input: Seq<char>,
    e: SExpr,
    env: Env,
)
    requires
        call_free(e),
        bindings_call_free(env),
    ensures
        semantics::eval(st1, fuel, input, e, env) == semantics::eval(st2, fuel, input, e, env),
    decreases fuel, 1nat, 0nat,
{
    if fuel > 0 {
        let f = (fuel - 1) as nat;
        match e {
            SExpr::Alternation(_, l, r) => {
                lemma_strategy_irrelevant_without_calls(st1, st2, f, input, *l, env);
                lemma_strategy_irrelevant_without_calls(st1, st2, f, input, *r, env);
            },
            SExpr::Sequence(_, l, r) => {
                lemma_strategy_irrelevant_without_calls(st1, st2, f, input, *l, env);
                if let Verdict::Success(mid) = semantics::eval(st1, f, input, *l, env) {
                    lemma_strategy_irrelevant_without_calls(st1, st2, f, mid, *r, env);
                }
            },
            SExpr::AndPredicate(_, b) => {
                lemma_strategy_irrelevant_without_calls(st1, st2, f, input, *b, env);
            },
            SExpr::NotPredicate(_, b) => {
                lemma_strategy_irrelevant_without_calls(st1, st2, f, input, *b, env);
            },
            SExpr::Optional(_, b) => {
                lemma_strategy_irrelevant_without_calls(st1, st2, f, input, *b, env);
            },
            SExpr::Identifier(_, name) => {
                lemma_lookup_call_free(env, name);
                if let Some(body) = semantics::lookup(env, name) {
                    lemma_strategy_irrelevant_without_calls(st1, st2, f, input, body, env);
                }
            },
            SExpr::Repeat0(_, b) => {
                lemma_repeat_strategy_irrelevant(st1, st2, fuel, input, *b, env);
            },
            SExpr::Repeat1(_, b) => {
                lemma_strategy_irrelevant_without_calls(st1, st2, f, input, *b, env);
                if let Verdict::Success(mid) = semantics::eval(st1, f, input, *b, env) {
                    lemma_repeat_strategy_irrelevant(st1, st2, fuel, mid, *b, env);
                }
            },
            _ => {},
        }
    }
}

proof fn lemma_repeat_strategy_irrelevant(
    st1: EvaluationStrategy,
    st2: EvaluationStrategy,
    fuel: nat,
    input: Seq<char>,
    body: SExpr,
    env: Env,
)
    requires
        call_free(body),
        bindings_call_free(env),
    ensures
        semantics::repeat(st1, fuel, input, body, env) == semantics::repeat(
            st2,
            fuel,
            input,
            body,
            env,
        ),
    decreases fuel, 0nat, input.len(),
{
    if fuel > 0 {
        let f = (fuel - 1) as nat;
        lemma_strategy_irrelevant_without_calls(st1, st2, f, input, body, env);
        if let Verdict::Success(next) = semantics::eval(st1, f, input, body, env) {
            if next.len() < input.len() {
                lemma_repeat_strategy_irrelevant(st1, st2, fuel, next, body, env);
            }
        }
    }
}

proof fn lemma_expand_call_free(e: SExpr)
    requires
        call_free(e),
    ensures
        call_free(semantics::expand(e)),
    decreases e,
{
    match e {
        SExpr::Alternation(_, l, r) => {
            lemma_expand_call_free(*l);
            lemma_expand_call_free(*r);
        },
        SExpr::Sequence(_, l, r) => {
            lemma_expand_call_free(*l);
            lemma_expand_call_free(*r);
        },
        SExpr::Repeat0(_, b) => lemma_expand_call_free(*b),
        SExpr::Repeat1(_, b) => lemma_expand_call_free(*b),
        SExpr::Optional(_, b) => lemma_expand_call_free(*b),
        SExpr::AndPredicate(_, b) => lemma_expand_call_free(*b),
        SExpr::NotPredicate(_, b) => lemma_expand_call_free(*b),
        SExpr::Debug(_, b) => lemma_expand_call_free(*b),
        _ => {},
    }
}

/// For a grammar with no call in any rule, matching gives the same verdict
/// under all three strategies.
pub proof fn lemma_strategies_agree_without_calls(
    g: crate::ast::SGrammar,
    st1: EvaluationStrategy,
    st2: EvaluationStrategy,
    input: Seq<char>,
    start: Seq<char>,
)
    requires
        forall|k: int| 0 <= k < g.rules.len() ==> call_free((#[trigger] g.rules[k]).body),
    ensures
        semantics::spec_evaluate(semantics::grammar_bindings(g), st1, input, start)
            == semantics::spec_evaluate(semantics::grammar_bindings(g), st2, input, start),
{
    let env = semantics::grammar_bindings(g);
    assert forall|i: int| 0 <= i < env.len() implies call_free((#[trigger] env[i]).1) by {
        assert(env[i] == semantics::rule_binding(g.rules[i]));
        lemma_expand_call_free(g.rules[i].body);
    }
    lemma_lookup_call_free(env, start);
    if let Some(e) = semantics::lookup(env, start) {
        lemma_strategy_irrelevant_without_calls(st1, st2, semantics::max_depth(), input, e, env);
    }
}

// ----------------------------------------------------------------------------
// Binding call arguments
// ----------------------------------------------------------------------------

/// The text a string-literal value stands for; nothing for any other value.
pub open spec fn literal_text(v: SExpr) -> Seq<char> {
    match v {
        SExpr::StringLiteral(_, t) => t,
        _ => Seq::empty(),
    }
}

/// The texts of `values`, one after another.
pub open spec fn literal_texts(values: Seq<SExpr>) -> Seq<char>
    decreases values.len(),
{
    if values.len() == 0 {
        Seq::empty()
    } else {
        literal_texts(values.drop_last()) + literal_text(values.last())
    }
}

/// Every value is a string literal.
pub open spec fn all_literals(values: Seq<SExpr>) -> bool {
    forall|k: int| 0 <= k < values.len() ==> (#[trigger] values[k]) is StringLiteral
}

/// What is left of `input` once the arguments `params[0..k]` have matched one
/// after another (each with one level less than `fuel`), or `None` where one
/// of them does not match.
pub open spec fn rest_after(
    st: EvaluationStrategy,
    fuel: nat,
    input: Seq<char>,
    params: Seq<SExpr>,
    env: Env,
    k: nat,
) -> Option<Seq<char>>
    decreases k,
{
    if k == 0 {
        Some(input)
    } else {
        match rest_after(st, fuel, input, params, env, (k - 1) as nat) {
            Some(r) => match semantics::eval(st, (fuel - 1) as nat, r, params[k - 1], env) {
                Verdict::Success(next) => Some(next),
                _ => None,
            },
            None => None,
        }
    }
}

/// The argument `params[k]` fails where the arguments before it left off.
pub open spec fn fails_after(
    st: EvaluationStrategy,
    fuel: nat,
    input: Seq<char>,
    params: Seq<SExpr>,
    env: Env,
    k: nat,
) -> bool {
    match rest_after(st, fuel, input, params, env, k) {
        Some(r) => semantics::eval(st, (fuel - 1) as nat, r, params[k as int], env) is Failure,
        None => false,
    }
}

proof fn lemma_rest_after_none(
    st: EvaluationStrategy,
    fuel: nat,
    input: Seq<char>,
    params: Seq<SExpr>,
    env: Env,
    j: nat,
    k: nat,
)
    requires
        j <= k,
        rest_after(st, fuel, input, params, env, j) is None,
    ensures
        rest_after(st, fuel, input, params, env, k) is None,
    decreases k - j,
{
    if j < k {
        lemma_rest_after_none(st, fuel, input, params, env, j, (k - 1) as nat);
    }
}

proof fn lemma_literal_texts_push(values: Seq<SExpr>, v: SExpr)
    ensures
        literal_texts(values.push(v)) == literal_texts(values) + literal_text(v),
{
    assert(values.push(v).drop_last() =~= values);
}

proof fn lemma_bind_in_sequence_shape(
    st: EvaluationStrategy,
    fuel: nat,
    input: Seq<char>,
    params: Seq<SExpr>,
    env: Env,
    i: nat,
    rest: Seq<char>,
    acc: Seq<SExpr>,
)
    requires
        i <= params.len(),
        rest_after(st, fuel, input, params, env, i) == Some(rest),
    ensures
        semantics::bind_in_sequence(st, fuel, rest, params, env, i as int, acc) matches
            Binding::Bound(fin, vals) ==> vals.len() == acc.len() + params.len() - i && (
        all_literals(acc) ==> all_literals(vals)) && literal_texts(acc) + rest == literal_texts(
            vals,
        ) + fin,
        semantics::bind_in_sequence(st, fuel, rest, params, env, i as int, acc) is Unbound <==> (
        fuel > 0 && exists|k: nat|
            i <= k < params.len() && #[trigger] fails_after(st, fuel, input, params, env, k)),
    decreases params.len() - i,
{
    if i < params.len() && fuel > 0 {
        let f = (fuel - 1) as nat;
        let v = semantics::eval(st, f, rest, params[i as int], env);
        assert(rest_after(st, fuel, input, params, env, i + 1) == match v {
            Verdict::Success(next) => Some(next),
            _ => None::<Seq<char>>,
        });
        match v {
            Verdict::Success(next) => {
                let lit = semantics::consumed_literal(rest, next);
                let acc2 = acc.push(lit);
                lemma_success_is_suffix(st, f, rest, params[i as int], env);
                lemma_literal_texts_push(acc, lit);
                let pre = rest.subrange(0, rest.len() - next.len());
                assert(rest =~= pre + next);
                assert(literal_texts(acc) + rest =~= literal_texts(acc2) + next);
                if all_literals(acc) {
                    assert forall|k: int| 0 <= k < acc2.len() implies (
                    #[trigger] acc2[k]) is StringLiteral by {
                        if k < acc.len() {
                            assert(acc2[k] == acc[k]);
                        }
                    }
                }
                lemma_bind_in_sequence_shape(st, fuel, input, params, env, i + 1, next, acc2);
                if let Binding::Bound(fin, vals) = semantics::bind_in_sequence(
                    st,
                    fuel,
                    next,
                    params,
                    env,
                    (i + 1) as int,
                    acc2,
                ) {
                    assert(literal_texts(acc) + rest =~= literal_texts(vals) + fin);
                }
                if exists|k: nat|
                    i <= k < params.len() && #[trigger] fails_after(st, fuel, input, params, env, k) {
                    let k = choose|k: nat|
                        i <= k < params.len() && #[trigger] fails_after(st, fuel, input, params, env, k);
                    assert(k != i);
                }
            },
            Verdict::Failure => {
                assert(fails_after(st, fuel, input, params, env, i));
            },
            _ => {
                if exists|k: nat|
                    i <= k < params.len() && #[trigger] fails_after(st, fuel, input, params, env, k) {
                    let k = choose|k: nat|
                        i <= k < params.len() && #[trigger] fails_after(st, fuel, input, params, env, k);
                    if k > i {
                        lemma_rest_after_none(st, fuel, input, params, env, i + 1, k);
                    }
                }
            },
        }
    }
}

/// Binding arguments one after another (sequential call by value): when it
/// succeeds there is one string-literal value per argument, and the input is
/// the values' texts in order followed by where the body starts; it fails
/// exactly when some argument fails where the arguments before it left off.
pub proof fn lemma_sequential_binding(
    fuel: nat,
    input: Seq<char>,
    params: Seq<SExpr>,
    env: Env,
)
    ensures
        semantics::bind(EvaluationStrategy::CallByValueSeq, fuel, input, params, env) matches
            Binding::Bound(rest, vals) ==> vals.len() == params.len() && all_literals(vals) && input
            == literal_texts(vals) + rest,
        semantics::bind(EvaluationStrategy::CallByValueSeq, fuel, input, params, env) is Unbound
            <==> (fuel > 0 && exists|k: nat|
            k < params.len() && #[trigger] fails_after(EvaluationStrategy::CallByValueSeq, fuel, input, params, env, k)),
{
    let st = EvaluationStrategy::CallByValueSeq;
    lemma_bind_in_sequence_shape(st, fuel, input, params, env, 0, input, Seq::empty());
    assert(literal_texts(Seq::<SExpr>::empty()) + input =~= input);
}

/// `v` is a string literal whose text `input` starts with.
pub open spec fn prefix_literal(v: SExpr, input: Seq<char>) -> bool {
    v matches SExpr::StringLiteral(_, t) && semantics::literal_matches(t, input)
}

proof fn lemma_bind_in_parallel_shape(
    st: EvaluationStrategy,
    fuel: nat,
    input: Seq<char>,
    params: Seq<SExpr>,
    env: Env,
    i: nat,
    acc: Seq<SExpr>,
)
    requires
        i <= params.len(),
    ensures
        semantics::bind_in_parallel(st, fuel, input, params, env, i as int, acc) matches
            Binding::Bound(ci, vals) ==> ci == input && vals.len() == acc.len() + params.len() - i
            && ((forall|k: int| 0 <= k < acc.len() ==> prefix_literal(#[trigger] acc[k], input))
            ==> forall|k: int| 0 <= k < vals.len() ==> prefix_literal(#[trigger] vals[k], input)),
        semantics::bind_in_parallel(st, fuel, input, params, env, i as int, acc) is Unbound <==> (
        fuel > 0 && exists|k: int|
            i <= k < params.len() && (#[trigger] semantics::eval(
                st,
                (fuel - 1) as nat,
                input,
                params[k],
                env,
            )) is Failure && forall|j: int|
                i <= j < k ==> (#[trigger] semantics::eval(
                    st,
                    (fuel - 1) as nat,
                    input,
                    params[j],
                    env,
                )) is Success),
    decreases params.len() - i,
{
    if i < params.len() && fuel > 0 {
        let f = (fuel - 1) as nat;
        let v = semantics::eval(st, f, input, params[i as int], env);
        if let Verdict::Success(next) = v {
            let lit = semantics::consumed_literal(input, next);
            let acc2 = acc.push(lit);
            lemma_success_is_suffix(st, f, input, params[i as int], env);
            assert(prefix_literal(lit, input)) by {
                assert(input.subrange(0, input.len() - next.len()).len() == input.len()
                    - next.len());
                assert(input.subrange(0, input.len() - next.len()) =~= input.subrange(
                    0,
                    input.len() - next.len(),
                ));
            }
            if forall|k: int| 0 <= k < acc.len() ==> prefix_literal(#[trigger] acc[k], input) {
                assert forall|k: int| 0 <= k < acc2.len() implies prefix_literal(
                    #[trigger] acc2[k],
                    input,
                ) by {
                    if k < acc.len() {
                        assert(acc2[k] == acc[k]);
                    }
                }
            }
            lemma_bind_in_parallel_shape(st, fuel, input, params, env, i + 1, acc2);
            if semantics::bind_in_parallel(st, fuel, input, params, env, i as int, acc) is Unbound {
                let k = choose|k: int|
                    i + 1 <= k < params.len() && (#[trigger] semantics::eval(
                        st,
                        f,
                        input,
                        params[k],
                        env,
                    )) is Failure && forall|j: int|
                        i + 1 <= j < k ==> (#[trigger] semantics::eval(
                            st,
                            f,
                            input,
                            params[j],
                            env,
                        )) is Success;
                assert forall|j: int| i <= j < k implies (#[trigger] semantics::eval(
                    st,
                    f,
                    input,
                    params[j],
                    env,
                )) is Success by {}
            }
            if exists|k: int|
                i <= k < params.len() && (#[trigger] semantics::eval(
                    st,
                    f,
                    input,
                    params[k],
                    env,
                )) is Failure && forall|j: int|
                    i <= j < k ==> (#[trigger] semantics::eval(
                        st,
                        f,
                        input,
                        params[j],
                        env,
                    )) is Success {
                let k = choose|k: int|
                    i <= k < params.len() && (#[trigger] semantics::eval(
                        st,
                        f,
                        input,
                        params[k],
                        env,
                    )) is Failure && forall|j: int|
                        i <= j < k ==> (#[trigger] semantics::eval(
                            st,
                            f,
                            input,
                            params[j],
                            env,
                        )) is Success;
                assert(k != i);
                assert forall|j: int| i + 1 <= j < k implies (#[trigger] semantics::eval(
                    st,
                    f,
                    input,
                    params[j],
                    env,
                )) is Success by {}
            }
        } else if v is Failure {
            assert forall|j: int| i <= j < i implies (#[trigger] semantics::eval(
                st,
                f,
                input,
                params[j],
                env,
            )) is Success by {}
        } else {
            if exists|k: int|
                i <= k < params.len() && (#[trigger] semantics::eval(
                    st,
                    f,
                    input,
                    params[k],
                    env,
                )) is Failure && forall|j: int|
                    i <= j < k ==> (#[trigger] semantics::eval(
                        st,
                        f,
                        input,
                        params[j],
                        env,
                    )) is Success {
                let k = choose|k: int|
                    i <= k < params.len() && (#[trigger] semantics::eval(
                        st,
                        f,
                        input,
                        params[k],
                        env,
                    )) is Failure && forall|j: int|
                        i <= j < k ==> (#[trigger] semantics::eval(
                            st,
                            f,
                            input,
                            params[j],
                            env,
                        )) is Success;
                if k > i {
                    assert(semantics::eval(st, f, input, params[i as int], env) is Success);
                }
            }
        }
    }
}

/// Binding every argument at the call's input (parallel call by value): when
/// it succeeds the body starts at that input, and there is one value per
/// argument, a string literal that the input starts with; it fails exactly
/// when some argument fails and every argument before it matches.
pub proof fn lemma_parallel_binding(fuel: nat, input: Seq<char>, params: Seq<SExpr>, env: Env)
    ensures
        semantics::bind(EvaluationStrategy::CallByValuePar, fuel, input, params, env) matches
            Binding::Bound(rest, vals) ==> rest == input && vals.len() == params.len() && forall|
            k: int,
        | 0 <= k < vals.len() ==> prefix_literal(#[trigger] vals[k], input),
        semantics::bind(EvaluationStrategy::CallByValuePar, fuel, input, params, env) is Unbound
            <==> (fuel > 0 && exists|k: int|
            0 <= k < params.len() && (#[trigger] semantics::eval(
                EvaluationStrategy::CallByValuePar,
                (fuel - 1) as nat,
                input,
                params[k],
                env,
            )) is Failure && forall|j: int|
                0 <= j < k ==> (#[trigger] semantics::eval(
                    EvaluationStrategy::CallByValuePar,
                    (fuel - 1) as nat,
                    input,
                    params[j],
                    env,
                )) is Success),
{
    lemma_bind_in_parallel_shape(
        EvaluationStrategy::CallByValuePar,
        fuel,
        input,
        params,
        env,
        0,
        Seq::empty(),
    );
}

/// Binding by name never fails: the body starts at the call's input and each
/// parameter stands for its argument with the caller's bindings put in.
pub proof fn lemma_binding_by_name(fuel: nat, input: Seq<char>, params: Seq<SExpr>, env: Env)
    ensures
        semantics::bind(EvaluationStrategy::CallByName, fuel, input, params, env)
            == Binding::Bound(input, semantics::extract_all(params, env)),
{
}

// ----------------------------------------------------------------------------
// Elements that the evaluator and the reader handle one by one
// ----------------------------------------------------------------------------

/// A string literal `t` succeeds exactly on an input that starts with `t`
/// (it is no longer than the input and agrees with it at every index), and
/// then leaves the input without its first `t.len()` characters.
pub proof fn lemma_string_literal(
    st: EvaluationStrategy,
    fuel: nat,
    input: Seq<char>,
    p: Position,
    t: Seq<char>,
    env: Env,
)
    requires
        fuel > 0,
    ensures
        semantics::eval(st, fuel, input, SExpr::StringLiteral(p, t), env) == if t.len()
            <= input.len() && forall|k: int| 0 <= k < t.len() ==> input[k] == t[k] {
            Verdict::Success(input.subrange(t.len() as int, input.len() as int))
        } else {
            Verdict::Failure
        },
{
    if t.len() <= input.len() {
        if forall|k: int| 0 <= k < t.len() ==> input[k] == t[k] {
            assert(input.subrange(0, t.len() as int) =~= t);
        }
        if input.subrange(0, t.len() as int) == t {
            assert forall|k: int| 0 <= k < t.len() implies input[k] == t[k] by {
                assert(input.subrange(0, t.len() as int)[k] == input[k]);
            }
        }
    }
}

/// `ch` is named by the element: it is the element's character, or lies in
/// its range.
pub open spec fn element_names(el: crate::ast::CharClassElement, ch: char) -> bool {
    match el {
        crate::ast::CharClassElement::OneChar(c) => c == ch,
        crate::ast::CharClassElement::CharRange(from, to) => from <= ch && ch <= to,
    }
}

/// Expanding a class keeps its position and sign and every one of its
/// elements, negated classes included: a character is in the expanded set
/// exactly when some element of the class names it.  Matching the expanded
/// class takes one character exactly when whether some element names it
/// agrees with the class's sign.
pub proof fn lemma_expand_class(
    st: EvaluationStrategy,
    fuel: nat,
    input: Seq<char>,
    p: Position,
    positive: bool,
    elems: Seq<crate::ast::CharClassElement>,
    env: Env,
)
    requires
        fuel > 0,
    ensures
        semantics::expand(SExpr::CharClass(p, positive, elems)) matches SExpr::CharSet(
            q,
            sign,
            set,
        ) && q == p && sign == positive && forall|ch: char|
            #[trigger] set.contains(ch) <==> exists|k: int|
                0 <= k < elems.len() && element_names(#[trigger] elems[k], ch),
        semantics::eval(
            st,
            fuel,
            input,
            semantics::expand(SExpr::CharClass(p, positive, elems)),
            env,
        ) == if input.len() > 0 && (exists|k: int|
            0 <= k < elems.len() && element_names(#[trigger] elems[k], input[0])) == positive {
            Verdict::Success(input.subrange(1, input.len() as int))
        } else {
            Verdict::Failure
        },
{
    lemma_class_chars(elems);
    let set = semantics::class_chars(elems);
    assert forall|ch: char| #[trigger] set.contains(ch) <==> exists|k: int|
        0 <= k < elems.len() && element_names(#[trigger] elems[k], ch) by {
        if set.contains(ch) {
            let k = choose|k: int| 0 <= k < elems.len() && semantics::covers(#[trigger] elems[k], ch);
            assert(element_names(elems[k], ch));
        }
        if exists|k: int| 0 <= k < elems.len() && element_names(#[trigger] elems[k], ch) {
            let k = choose|k: int| 0 <= k < elems.len() && element_names(#[trigger] elems[k], ch);
            assert(semantics::covers(elems[k], ch));
        }
    }
    if input.len() > 0 {
        assert(set.contains(input[0]) <==> exists|k: int|
            0 <= k < elems.len() && element_names(#[trigger] elems[k], input[0]));
    }
}

/// Under call by name an argument that is a name bound in the caller stands
/// for that binding, whatever it is (a function included); an unbound name
/// stays as it is.
pub proof fn lemma_extract_identifier(p: Position, name: Seq<char>, env: Env)
    ensures
        semantics::lookup(env, name) matches Some(b) ==> semantics::extract(
            SExpr::Identifier(p, name),
            env,
        ) == b,
        semantics::lookup(env, name) is None ==> semantics::extract(
            SExpr::Identifier(p, name),
            env,
        ) == SExpr::Identifier(p, name),
{
}

proof fn lemma_extract_all_index(s: Seq<SExpr>, env: Env, k: int)
    requires
        0 <= k < s.len(),
    ensures
        semantics::extract_all(s, env).len() == s.len(),
        semantics::extract_all(s, env)[k] == semantics::extract(s[k], env),
    decreases s.len(),
{
    lemma_extract_all_len(s.drop_last(), env);
    if k < s.len() - 1 {
        lemma_extract_all_index(s.drop_last(), env, k);
    }
}

proof fn lemma_extract_all_len(s: Seq<SExpr>, env: Env)
    ensures
        semantics::extract_all(s, env).len() == s.len(),
    decreases s.len(),
{
    if s.len() > 0 {
        lemma_extract_all_len(s.drop_last(), env);
    }
}

/// Binding by name: an argument that is a name bound in the caller (a rule,
/// a function or an outer parameter) is passed as that binding.
pub proof fn lemma_by_name_passes_bindings(
    fuel: nat,
    input: Seq<char>,
    params: Seq<SExpr>,
    env: Env,
    k: int,
    p: Position,
    name: Seq<char>,
    b: SExpr,
)
    requires
        0 <= k < params.len(),
        params[k] == SExpr::Identifier(p, name),
        semantics::lookup(env, name) == Some(b),
    ensures
        semantics::bind(EvaluationStrategy::CallByName, fuel, input, params, env) matches
            Binding::Bound(rest, values) && rest == input && values.len() == params.len()
            && values[k] == b,
{
    lemma_extract_all_index(params, env, k);
}

/// `r` read the character `ch` and stopped at index `idx`.
pub open spec fn reads(r: crate::syntax::PRes<char>, ch: char, idx: nat) -> bool {
    r matches Ok((x, c2)) && x == ch && c2.idx == idx
}

/// Escapes in literals and classes: `\n`, `\r`, `\t` and `\f` read as line
/// feed, carriage return, tab and form feed; `\` before any other character
/// that starts neither a `\u` nor an octal escape reads as that character;
/// and a character other than `\` and the closing one reads as itself.
pub proof fn lemma_escapes(s: Seq<char>, c: crate::syntax::SCursor, meta: Option<char>)
    requires
        c.idx + 2 <= s.len(),
    ensures
        s[c.idx as int] == '\\' && s[c.idx + 1int] == 'n' ==> reads(crate::syntax::escaped_char(s, c, meta), '\u{000A}', c.idx + 2),
        s[c.idx as int] == '\\' && s[c.idx + 1int] == 'r' ==> reads(crate::syntax::escaped_char(s, c, meta), '\u{000D}', c.idx + 2),
        s[c.idx as int] == '\\' && s[c.idx + 1int] == 't' ==> reads(crate::syntax::escaped_char(s, c, meta), '\u{0009}', c.idx + 2),
        s[c.idx as int] == '\\' && s[c.idx + 1int] == 'f' ==> reads(crate::syntax::escaped_char(s, c, meta), '\u{000C}', c.idx + 2),
        s[c.idx as int] == '\\' && !(s[c.idx + 1int] == 'n' || s[c.idx + 1int] == 'r' || s[c.idx + 1int]
            == 't' || s[c.idx + 1int] == 'f' || s[c.idx + 1int] == 'u' || ('0' <= s[c.idx + 1int] && s[c.idx
            + 1int] <= '7')) ==> reads(crate::syntax::escaped_char(s, c, meta), s[c.idx + 1int], c.idx + 2),
        s[c.idx as int] != '\\' && meta != Some(s[c.idx as int]) ==> reads(crate::syntax::escaped_char(s, c, meta), s[c.idx as int], c.idx + 1),
{
    crate::syntax::lemma_step(s, c);
    crate::syntax::lemma_step(s, crate::syntax::step(s, c));
}

proof fn lemma_prefixed_starts(s: Seq<char>, c: crate::syntax::SCursor)
    ensures
        crate::syntax::prefixed(s, c) is Ok ==> crate::syntax::starts_sequence_element(
            crate::syntax::peek(s, c),
        ),
{
    reveal_strlit("Debug");
    if let Some(c1) = crate::syntax::keyword(s, c, "Debug"@) {
        assert(s.subrange(c.idx as int, c.idx + 5int)[0] == s[c.idx as int]);
    }
}

/// Any element that can be read after the spacing continues a sequence,
/// whatever it starts with (`&`, `!`, a name, a class, a group, `.`, `_` or a
/// literal): the sequence read so far is extended by it.
pub proof fn lemma_sequence_continues(s: Seq<char>, c: crate::syntax::SCursor, acc: SExpr)
    requires
        crate::syntax::wf(s, c),
        crate::syntax::prefixed(s, crate::syntax::skip_spacing(s, c)) is Ok,
    ensures
        crate::syntax::prefixed(s, crate::syntax::skip_spacing(s, c)) matches Ok((next, c2))
            && crate::syntax::sequence_rest(s, c, acc) == crate::syntax::sequence_rest(
            s,
            c2,
            SExpr::Sequence(crate::ast::spec_pos(next), Box::new(acc), Box::new(next)),
        ),
{
    let c1 = crate::syntax::skip_spacing(s, c);
    crate::syntax::lemma_skip_spacing(s, c);
    crate::syntax::lemma_prefixed(s, c1);
    lemma_prefixed_starts(s, c1);
}

/// `ch` may begin an element of a sequence: a predicate sign, a class, a
/// group, a wildcard, `_`, a literal or a name.
pub open spec fn begins_element(ch: char) -> bool {
    ch == '&' || ch == '!' || ch == '[' || ch == '(' || ch == '.' || ch == '_' || ch == '"' || (
    'a' <= ch && ch <= 'z') || ('A' <= ch && ch <= 'Z')
}

/// A sequence ends, with the spacing skipped, at the end of the input and
/// before any character that cannot begin an element (such as `/`, `|`, `)`,
/// `;` or `,`).
pub proof fn lemma_sequence_stops(s: Seq<char>, c: crate::syntax::SCursor, acc: SExpr)
    requires
        !(crate::syntax::peek(s, crate::syntax::skip_spacing(s, c)) matches Some(ch)
            && begins_element(ch)),
    ensures
        crate::syntax::sequence_rest(s, c, acc) == Ok::<(SExpr, crate::syntax::SCursor), crate::ast::SParseError>(
            (acc, crate::syntax::skip_spacing(s, c)),
        ),
{
}

/// The value of a hexadecimal digit.
pub open spec fn digit_value(ch: char) -> nat {
    if '0' <= ch && ch <= '9' {
        (ch as nat - 48) as nat
    } else if 'a' <= ch && ch <= 'f' {
        (ch as nat - 87) as nat
    } else {
        (ch as nat - 55) as nat
    }
}

pub open spec fn hex_char(ch: char) -> bool {
    ('0' <= ch && ch <= '9') || ('a' <= ch && ch <= 'f') || ('A' <= ch && ch <= 'F')
}

/// `\u` and four hexadecimal digits read as the character with that code
/// point, when there is one, after all six characters.
pub proof fn lemma_unicode_escape(s: Seq<char>, c: crate::syntax::SCursor, meta: Option<char>)
    requires
        c.idx + 6 <= s.len(),
        s[c.idx as int] == '\\',
        s[c.idx + 1int] == 'u',
        hex_char(s[c.idx + 2int]),
        hex_char(s[c.idx + 3int]),
        hex_char(s[c.idx + 4int]),
        hex_char(s[c.idx + 5int]),
        ({
            let v = 4096 * digit_value(s[c.idx + 2int]) + 256 * digit_value(s[c.idx + 3int]) + 16
                * digit_value(s[c.idx + 4int]) + digit_value(s[c.idx + 5int]);
            v < 0xD800 || (0xE000 <= v && v <= 0x10FFFF)
        }),
    ensures
        reads(
            crate::syntax::escaped_char(s, c, meta),
            (4096 * digit_value(s[c.idx + 2int]) + 256 * digit_value(s[c.idx + 3int]) + 16
                * digit_value(s[c.idx + 4int]) + digit_value(s[c.idx + 5int])) as char,
            c.idx + 6,
        ),
{
    let c1 = crate::syntax::step(s, c);
    let c2 = crate::syntax::step(s, c1);
    let c3 = crate::syntax::step(s, c2);
    let c4 = crate::syntax::step(s, c3);
    let c5 = crate::syntax::step(s, c4);
    let c6 = crate::syntax::step(s, c5);
    crate::syntax::lemma_step(s, c);
    crate::syntax::lemma_step(s, c1);
    crate::syntax::lemma_step(s, c2);
    crate::syntax::lemma_step(s, c3);
    crate::syntax::lemma_step(s, c4);
    crate::syntax::lemma_step(s, c5);
    let a = crate::syntax::hex_value(s[c.idx + 2int]);
    let b = crate::syntax::hex_value(s[c.idx + 3int]);
    let d = crate::syntax::hex_value(s[c.idx + 4int]);
    let e = crate::syntax::hex_value(s[c.idx + 5int]);
    assert(a == digit_value(s[c.idx + 2int]));
    assert(b == digit_value(s[c.idx + 3int]));
    assert(d == digit_value(s[c.idx + 4int]));
    assert(e == digit_value(s[c.idx + 5int]));
    assert(crate::syntax::hex_digits(s, c6, 0, ((a * 16 + b) * 16 + d) * 16 + e) == Ok::<
        (nat, crate::syntax::SCursor),
        crate::ast::SParseError,
    >((((a * 16 + b) * 16 + d) * 16 + e, c6)));
    assert(crate::syntax::hex_digits(s, c5, 1, (a * 16 + b) * 16 + d) == crate::syntax::hex_digits(
        s,
        c6,
        0,
        ((a * 16 + b) * 16 + d) * 16 + e,
    ));
    assert(crate::syntax::hex_digits(s, c4, 2, a * 16 + b) == crate::syntax::hex_digits(
        s,
        c5,
        1,
        (a * 16 + b) * 16 + d,
    ));
    assert(crate::syntax::hex_digits(s, c3, 3, a) == crate::syntax::hex_digits(
        s,
        c4,
        2,
        a * 16 + b,
    ));
    assert(crate::syntax::hex_digits(s, c2, 4, 0) == crate::syntax::hex_digits(s, c3, 3, a));
}

pub open spec fn octal_char(ch: char) -> bool {
    '0' <= ch && ch <= '7'
}

/// `\` and up to three octal digits read as the character with that code
/// point, after the digits.
pub proof fn lemma_octal_escape(s: Seq<char>, c: crate::syntax::SCursor, meta: Option<char>)
    requires
        c.idx + 2 <= s.len(),
        s[c.idx as int] == '\\',
        octal_char(s[c.idx + 1int]),
    ensures
        !(c.idx + 3 <= s.len() && octal_char(s[c.idx + 2int])) ==> reads(
            crate::syntax::escaped_char(s, c, meta),
            (s[c.idx + 1int] as nat - 48) as char,
            c.idx + 2,
        ),
        c.idx + 3 <= s.len() && octal_char(s[c.idx + 2int]) && !(c.idx + 4 <= s.len() && octal_char(
            s[c.idx + 3int],
        )) ==> reads(
            crate::syntax::escaped_char(s, c, meta),
            (8 * (s[c.idx + 1int] as nat - 48) + (s[c.idx + 2int] as nat - 48)) as char,
            c.idx + 3,
        ),
        c.idx + 4 <= s.len() && octal_char(s[c.idx + 2int]) && octal_char(s[c.idx + 3int])
            ==> reads(
            crate::syntax::escaped_char(s, c, meta),
            (64 * (s[c.idx + 1int] as nat - 48) + 8 * (s[c.idx + 2int] as nat - 48) + (s[c.idx
                + 3int] as nat - 48)) as char,
            c.idx + 4,
        ),
{
    let c1 = crate::syntax::step(s, c);
    let c2 = crate::syntax::step(s, c1);
    let c3 = crate::syntax::step(s, c2);
    crate::syntax::lemma_step(s, c);
    crate::syntax::lemma_step(s, c1);
    crate::syntax::lemma_step(s, c2);
    crate::syntax::lemma_step(s, c3);
}

// ----------------------------------------------------------------------------
// Single-character matches
// ----------------------------------------------------------------------------

/// `.` takes any one character and fails only at the end of the input; a
/// character set takes one character exactly when whether the set holds it
/// agrees with the set's sign; `Debug(e)` succeeds without consuming anything.
pub proof fn lemma_single_characters(
    st: EvaluationStrategy,
    fuel: nat,
    input: Seq<char>,
    p: Position,
    positive: bool,
    set: Seq<char>,
    body: SExpr,
    env: Env,
)
    requires
        fuel > 0,
    ensures
        semantics::eval(st, fuel, input, SExpr::Wildcard(p), env) == if input.len() > 0 {
            Verdict::Success(input.subrange(1, input.len() as int))
        } else {
            Verdict::Failure
        },
        semantics::eval(st, fuel, input, SExpr::CharSet(p, positive, set), env) == if input.len()
            > 0 && (exists|k: int| 0 <= k < set.len() && set[k] == input[0]) == positive {
            Verdict::Success(input.subrange(1, input.len() as int))
        } else {
            Verdict::Failure
        },
        semantics::eval(st, fuel, input, SExpr::Debug(p, Box::new(body)), env) == Verdict::Success(
            input,
        ),
{
}

} // verus!
