//! The evaluator: it walks the steps of a chain in order.

use crate::binding::{Bindable, Binding, Mergeable};
use vstd::prelude::*;

verus! {

/// One step of a chain. The expression of a step is called on the values
/// bound so far, in the order in which they were bound: what the first
/// binding step bound stands first.
pub enum Step<B, P> {
    /// A binding step: its expression produces a container, which is bound.
    Bind(B),
    /// A plain step: its expression is evaluated for its effect.
    Plain(P),
}

/// What a plain step hands back.
#[derive(Debug, PartialEq, Eq)]
pub enum Control<X> {
    /// Go on with the next step.
    Proceed,
    /// Leave the chain at once with a signal for the code around it, such
    /// as a `break` or `continue` of the loop that holds the chain, or an
    /// early return.
    Exit(X),
}

/// How a chain ended.
#[derive(Debug, PartialEq, Eq)]
pub enum Outcome<R, X> {
    /// Every step went on; this is the container of the final expression,
    /// with the state of every binding step merged into it.
    Completed(R),
    /// A binding step ended the chain; this is what it handed back,
    /// converted into the chain's result. Nothing was merged into it.
    Stopped(R),
    /// A plain step left the chain with this signal. The chain has no
    /// result.
    Exited(X),
}

impl<R, X> Outcome<R, X> {
    /// The container that the chain ended with, whether it completed or was
    /// stopped: both are results of the chain. A chain that a plain step
    /// left has none.
    pub fn into_container(self) -> (container: Option<R>)
        ensures
            container == match self {
                Outcome::Completed(r) => Some(r),
                Outcome::Stopped(r) => Some(r),
                Outcome::Exited(_) => None,
            },
    {
        match self {
            Outcome::Completed(r) => Some(r),
            Outcome::Stopped(r) => Some(r),
            Outcome::Exited(_) => None,
        }
    }
}

/// `f` may be called on every environment that holds the values `env`.
pub open spec fn runs_on<V, O, G: FnOnce(&[V]) -> O>(f: G, env: Seq<V>) -> bool {
    forall|e: &[V]| e@ == env ==> #[trigger] call_requires(f, (e,))
}

/// `f` can return `o` on an environment that holds the values `env`.
pub open spec fn gives<V, O, G: FnOnce(&[V]) -> O>(f: G, env: Seq<V>, o: O) -> bool {
    exists|e: &[V]| e@ == env && #[trigger] call_ensures(f, (e,), o)
}

/// `From` can turn `terminal`, which a container handed back, into
/// `result`, the result of the chain.
pub open spec fn converts<T, R: From<T>>(terminal: T, result: R) -> bool {
    call_ensures(R::from, (terminal,), result)
}

/// `core::convert::From::from` of a type into itself, which the standard
/// library implements for every type and which hands its argument back
/// unchanged. This is the conversion that `evaluate` makes where a
/// container hands back what is already of the chain's result type; Verus
/// is told here, and does not prove, that nothing changes in it.
pub assume_specification<Same>[ <Same as core::convert::From<Same>>::from ](value: Same) -> (same:
    Same)
    ensures
        same == value,
;

/// What a binding step that left `state` makes of the outcome of the steps
/// after it: it merges its state into a completed chain, and leaves a chain
/// that was cut short as it is.
pub open spec fn after_bind<S, X, R: Mergeable<S>>(
    rest: Outcome<R, X>,
    state: S,
) -> Outcome<R, X> {
    match rest {
        Outcome::Completed(r) => Outcome::Completed(R::merge_spec(r, state)),
        Outcome::Stopped(r) => Outcome::Stopped(r),
        Outcome::Exited(x) => Outcome::Exited(x),
    }
}

/// The chain of `steps` and `last` can be run from the environment `env`:
/// every step can be called on each environment that the steps before it
/// can leave.
pub open spec fn accepts<T, V, S, X, C, R, B, P, F>(
    steps: Seq<Step<B, P>>,
    last: F,
    env: Seq<V>,
) -> bool where
    C: Bindable<T, Value = V, State = S>,
    B: Fn(&[V]) -> C,
    P: Fn(&[V]) -> Control<X>,
    F: FnOnce(&[V]) -> R,

    decreases steps.len(),
{
    if steps.len() == 0 {
        runs_on(last, env)
    } else {
        match steps.first() {
            Step::Plain(p) => {
                &&& runs_on(p, env)
                &&& gives(p, env, Control::<X>::Proceed) ==> accepts::<T, V, S, X, C, R, B, P, F>(
                    steps.drop_first(),
                    last,
                    env,
                )
            },
            Step::Bind(b) => {
                &&& runs_on(b, env)
                &&& forall|c: C| #[trigger]
                    gives(b, env, c) ==> (c.bind_spec() matches Binding::Value(v, _)
                        ==> accepts::<T, V, S, X, C, R, B, P, F>(
                        steps.drop_first(),
                        last,
                        env.push(v),
                    ))
            },
        }
    }
}

/// The chain of `steps` and `last`, run from the environment `env`, can end
/// in `out`.
///
/// With no step left, the chain completes with what the final expression
/// gives. A plain step either leaves the chain with its signal, or the rest
/// of the chain decides. A binding step binds the container that its
/// expression gives: an empty one stops the chain with what it hands back,
/// converted; otherwise the rest of the chain runs with the bound value
/// added to the environment, and the step's state is merged into what the
/// rest completes with.
pub open spec fn yields<T, V, S, X, C, R, B, P, F>(
    steps: Seq<Step<B, P>>,
    last: F,
    env: Seq<V>,
    out: Outcome<R, X>,
) -> bool where
    C: Bindable<T, Value = V, State = S>,
    R: From<T> + Mergeable<S>,
    B: Fn(&[V]) -> C,
    P: Fn(&[V]) -> Control<X>,
    F: FnOnce(&[V]) -> R,

    decreases steps.len(),
{
    if steps.len() == 0 {
        out matches Outcome::Completed(r) && gives(last, env, r)
    } else {
        match steps.first() {
            Step::Plain(p) => {
                ||| out matches Outcome::Exited(x) && gives(p, env, Control::Exit(x))
                ||| gives(p, env, Control::<X>::Proceed) && yields::<T, V, S, X, C, R, B, P, F>(
                    steps.drop_first(),
                    last,
                    env,
                    out,
                )
            },
            Step::Bind(b) => exists|c: C| #[trigger]
                gives(b, env, c) && match c.bind_spec() {
                    Binding::Empty(t) => out matches Outcome::Stopped(r) && converts(t, r),
                    Binding::Value(v, s) => exists|rest: Outcome<R, X>|
                        yields::<T, V, S, X, C, R, B, P, F>(
                            steps.drop_first(),
                            last,
                            env.push(v),
                            rest,
                        ) && out == #[trigger] after_bind(rest, s),
                },
        }
    }
}

/// `accepts`, unfolded by one step. Where the steps are closures written in
/// verified code, Verus does not open the definition by itself; a call of
/// this lemma does.
pub proof fn lemma_accepts_unfold<T, V, S, X, C, R, B, P, F>(
    steps: Seq<Step<B, P>>,
    last: F,
    env: Seq<V>,
) where
    C: Bindable<T, Value = V, State = S>,
    B: Fn(&[V]) -> C,
    P: Fn(&[V]) -> Control<X>,
    F: FnOnce(&[V]) -> R,

    ensures
        accepts::<T, V, S, X, C, R, B, P, F>(steps, last, env) == (if steps.len() == 0 {
            runs_on(last, env)
        } else {
            match steps.first() {
                Step::Plain(p) => {
                    &&& runs_on(p, env)
                    &&& gives(p, env, Control::<X>::Proceed) ==> accepts::<
                        T,
                        V,
                        S,
                        X,
                        C,
                        R,
                        B,
                        P,
                        F,
                    >(steps.drop_first(), last, env)
                },
                Step::Bind(b) => {
                    &&& runs_on(b, env)
                    &&& forall|c: C| #[trigger]
                        gives(b, env, c) ==> (c.bind_spec() matches Binding::Value(v, _)
                            ==> accepts::<T, V, S, X, C, R, B, P, F>(
                            steps.drop_first(),
                            last,
                            env.push(v),
                        ))
                },
            }
        }),
{
}

/// `yields`, unfolded by one step, for the same callers as
/// `lemma_accepts_unfold`.
pub proof fn lemma_yields_unfold<T, V, S, X, C, R, B, P, F>(
    steps: Seq<Step<B, P>>,
    last: F,
    env: Seq<V>,
    out: Outcome<R, X>,
) where
    C: Bindable<T, Value = V, State = S>,
    R: From<T> + Mergeable<S>,
    B: Fn(&[V]) -> C,
    P: Fn(&[V]) -> Control<X>,
    F: FnOnce(&[V]) -> R,

    ensures
        yields::<T, V, S, X, C, R, B, P, F>(steps, last, env, out) == (if steps.len() == 0 {
            out matches Outcome::Completed(r) && gives(last, env, r)
        } else {
            match steps.first() {
                Step::Plain(p) => {
                    ||| out matches Outcome::Exited(x) && gives(p, env, Control::Exit(x))
                    ||| gives(p, env, Control::<X>::Proceed) && yields::<T, V, S, X, C, R, B, P, F>(
                        steps.drop_first(),
                        last,
                        env,
                        out,
                    )
                },
                Step::Bind(b) => exists|c: C| #[trigger]
                    gives(b, env, c) && match c.bind_spec() {
                        Binding::Empty(t) => out matches Outcome::Stopped(r) && converts(t, r),
                        Binding::Value(v, s) => exists|rest: Outcome<R, X>|
                            yields::<T, V, S, X, C, R, B, P, F>(
                                steps.drop_first(),
                                last,
                                env.push(v),
                                rest,
                            ) && out == #[trigger] after_bind(rest, s),
                    },
            }
        }),
{
}

/// `result` after the states `pending` have been merged into it, the one
/// that was left last first.
pub open spec fn merge_all<S, R: Mergeable<S>>(result: R, pending: Seq<S>) -> R
    decreases pending.len(),
{
    if pending.len() == 0 {
        result
    } else {
        merge_all(R::merge_spec(result, pending.last()), pending.drop_last())
    }
}

/// Merges the states that the binding steps of a chain left, given in the
/// order of the steps, into the container that the chain completed with:
/// the state of the last step first, that of the first step last.
pub fn conclude<S, R: Mergeable<S>>(last: R, pending: Vec<S>) -> (result: R)
    ensures
        result == merge_all(last, pending@),
{
    let ghost all = pending@;
    let mut result = last;
    let mut pending = pending;
    while pending.len() > 0
        invariant
            merge_all(result, pending@) == merge_all(last, all),
        decreases pending.len(),
    {
        let state = pending.pop().unwrap();
        result.merge(state);
    }
    result
}

/// What the whole chain ends in when the steps still to run end in `rest`
/// and the steps already run left `pending`.
spec fn after_pending<S, X, R: Mergeable<S>>(
    rest: Outcome<R, X>,
    pending: Seq<S>,
) -> Outcome<R, X> {
    match rest {
        Outcome::Completed(r) => Outcome::Completed(merge_all(r, pending)),
        Outcome::Stopped(r) => Outcome::Stopped(r),
        Outcome::Exited(x) => Outcome::Exited(x),
    }
}

/// Runs a chain: the steps in order, then the final expression.
///
/// Each expression is called on the values bound so far. The walk keeps the
/// state of every binding step that went on and merges them, last one
/// first, into the container of the final expression. A binding step whose
/// container is empty, or a plain step that asks to leave, ends the walk on
/// the spot: no later step is run and nothing is merged.
///
/// A chain without a value of its own has the unit value as its final
/// expression.
///
/// Expressions that can be called on every environment meet the
/// precondition (`laws::lemma_total_chain_accepted`).
pub fn evaluate<T, V, S, X, C, R, B, P, F>(steps: &[Step<B, P>], last: F) -> (out: Outcome<
    R,
    X,
>) where
    C: Bindable<T, Value = V, State = S>,
    R: From<T> + Mergeable<S>,
    B: Fn(&[V]) -> C,
    P: Fn(&[V]) -> Control<X>,
    F: FnOnce(&[V]) -> R,

    requires
        accepts::<T, V, S, X, C, R, B, P, F>(steps@, last, Seq::empty()),
    ensures
        yields::<T, V, S, X, C, R, B, P, F>(steps@, last, Seq::empty(), out),
{
    let mut env: Vec<V> = Vec::new();
    let mut pending: Vec<S> = Vec::new();
    let mut i: usize = 0;
    assert(steps@.skip(0) =~= steps@);
    while i < steps.len()
        invariant
            i <= steps.len(),
            accepts::<T, V, S, X, C, R, B, P, F>(steps@.skip(i as int), last, env@),
            // Whatever the steps still to run end in, the whole chain ends
            // in the same with the states left so far merged into it.
            forall|rest: Outcome<R, X>| #[trigger]
                yields::<T, V, S, X, C, R, B, P, F>(steps@.skip(i as int), last, env@, rest)
                    ==> yields::<T, V, S, X, C, R, B, P, F>(
                    steps@,
                    last,
                    Seq::empty(),
                    after_pending(rest, pending@),
                ),
        decreases steps.len() - i,
    {
        let ghost here = steps@.skip(i as int);
        let ghost bound = env@;
        let ghost left = pending@;
        assert(here.drop_first() =~= steps@.skip(i + 1));
        match &steps[i] {
            Step::Bind(b) => {
                let c = b(env.as_slice());
                assert(gives(*b, bound, c));
                match c.bind() {
                    Binding::Value(v, s) => {
                        assert forall|rest: Outcome<R, X>| #[trigger]
                            yields::<T, V, S, X, C, R, B, P, F>(
                                steps@.skip(i + 1),
                                last,
                                bound.push(v),
                                rest,
                            ) implies yields::<T, V, S, X, C, R, B, P, F>(
                            steps@,
                            last,
                            Seq::empty(),
                            after_pending(rest, left.push(s)),
                        ) by {
                            assert(left.push(s).drop_last() =~= left);
                            let out = after_bind(rest, s);
                            assert(yields::<T, V, S, X, C, R, B, P, F>(here, last, bound, out));
                        }
                        env.push(v);
                        pending.push(s);
                    },
                    Binding::Empty(t) => {
                        let r = R::from(t);
                        assert(yields::<T, V, S, X, C, R, B, P, F>(
                            here,
                            last,
                            bound,
                            Outcome::Stopped(r),
                        ));
                        return Outcome::Stopped(r);
                    },
                }
            },
            Step::Plain(p) => {
                match p(env.as_slice()) {
                    Control::Proceed => {
                        assert forall|rest: Outcome<R, X>| #[trigger]
                            yields::<T, V, S, X, C, R, B, P, F>(
                                steps@.skip(i + 1),
                                last,
                                bound,
                                rest,
                            ) implies yields::<T, V, S, X, C, R, B, P, F>(
                            steps@,
                            last,
                            Seq::empty(),
                            after_pending(rest, left),
                        ) by {
                            assert(yields::<T, V, S, X, C, R, B, P, F>(here, last, bound, rest));
                        }
                    },
                    Control::Exit(x) => {
                        assert(yields::<T, V, S, X, C, R, B, P, F>(
                            here,
                            last,
                            bound,
                            Outcome::Exited(x),
                        ));
                        return Outcome::Exited(x);
                    },
                }
            },
        }
        i = i + 1;
    }
    let r = last(env.as_slice());
    assert(yields::<T, V, S, X, C, R, B, P, F>(
        steps@.skip(i as int),
        last,
        env@,
        Outcome::Completed(r),
    ));
    Outcome::Completed(conclude(r, pending))
}

} // verus!
