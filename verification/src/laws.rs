//! What holds of every chain.

use crate::binding::{Bindable, Binding, Mergeable};
use crate::chain::{
    accepts, after_bind, converts, gives, lemma_accepts_unfold, lemma_yields_unfold, merge_all,
    runs_on, yields, Control, Outcome, Step,
};
use vstd::prelude::*;

verus! {

/// The step always lets the chain go on: a binding step never gives an
/// empty container, a plain step never asks to leave.
pub open spec fn goes_on<T, V, S, X, C, B, P>(step: Step<B, P>) -> bool where
    C: Bindable<T, Value = V, State = S>,
    B: Fn(&[V]) -> C,
    P: Fn(&[V]) -> Control<X>,
 {
    match step {
        Step::Bind(b) => forall|env: Seq<V>, c: C| #[trigger]
            gives(b, env, c) ==> c.bind_spec() is Value,
        Step::Plain(p) => forall|env: Seq<V>, signal: Control<X>| #[trigger]
            gives(p, env, signal) ==> signal is Proceed,
    }
}

/// The step always ends the chain: a binding step gives empty containers
/// only, a plain step always asks to leave.
pub open spec fn cuts_short<T, V, S, X, C, B, P>(step: Step<B, P>) -> bool where
    C: Bindable<T, Value = V, State = S>,
    B: Fn(&[V]) -> C,
    P: Fn(&[V]) -> Control<X>,
 {
    match step {
        Step::Bind(b) => forall|env: Seq<V>, c: C| #[trigger]
            gives(b, env, c) ==> c.bind_spec() is Empty,
        Step::Plain(p) => forall|env: Seq<V>, signal: Control<X>| #[trigger]
            gives(p, env, signal) ==> signal is Exit,
    }
}

/// The step can be called on every environment.
pub open spec fn total<V, X, C, B, P>(step: Step<B, P>) -> bool where
    B: Fn(&[V]) -> C,
    P: Fn(&[V]) -> Control<X>,
 {
    match step {
        Step::Bind(b) => forall|env: Seq<V>| #[trigger] runs_on(b, env),
        Step::Plain(p) => forall|env: Seq<V>| #[trigger] runs_on(p, env),
    }
}

/// The number of binding steps among `steps`.
pub open spec fn binds<B, P>(steps: Seq<Step<B, P>>) -> nat
    decreases steps.len(),
{
    if steps.len() == 0 {
        0
    } else if steps.first() is Bind {
        1 + binds(steps.drop_first())
    } else {
        binds(steps.drop_first())
    }
}

/// `all` holds the values of `env` and then `more` further ones.
pub open spec fn extends<V>(all: Seq<V>, env: Seq<V>, more: nat) -> bool {
    &&& all.len() == env.len() + more
    &&& all.subrange(0, env.len() as int) == env
}

/// A chain whose steps and final expression can be called on every
/// environment can be run from every environment.
pub proof fn lemma_total_chain_accepted<T, V, S, X, C, R, B, P, F>(
    steps: Seq<Step<B, P>>,
    last: F,
    env: Seq<V>,
) where
    C: Bindable<T, Value = V, State = S>,
    B: Fn(&[V]) -> C,
    P: Fn(&[V]) -> Control<X>,
    F: FnOnce(&[V]) -> R,

    requires
        forall|k: int| 0 <= k < steps.len() ==> #[trigger] total(steps[k]),
        forall|at: Seq<V>| #[trigger] runs_on(last, at),
    ensures
        accepts::<T, V, S, X, C, R, B, P, F>(steps, last, env),
    decreases steps.len(),
{
    lemma_accepts_unfold::<T, V, S, X, C, R, B, P, F>(steps, last, env);
    if steps.len() > 0 {
        let tail = steps.drop_first();
        assert(total(steps[0]));
        assert forall|k: int| 0 <= k < tail.len() implies #[trigger] total(tail[k]) by {
            assert(tail[k] == steps[k + 1]);
        }
        match steps.first() {
            Step::Plain(p) => {
                lemma_total_chain_accepted::<T, V, S, X, C, R, B, P, F>(tail, last, env);
            },
            Step::Bind(b) => {
                assert forall|c: C| #[trigger] gives(b, env, c) implies (c.bind_spec() is Value
                    ==> accepts::<T, V, S, X, C, R, B, P, F>(
                    tail,
                    last,
                    env.push(c.bind_spec()->Value_0),
                )) by {
                    if c.bind_spec() is Value {
                        lemma_total_chain_accepted::<T, V, S, X, C, R, B, P, F>(
                            tail,
                            last,
                            env.push(c.bind_spec()->Value_0),
                        );
                    }
                }
            },
        }
    }
}

/// What a chain that begins with a binding step and ends in `out` went
/// through: the container that the step gave, and what the steps after it
/// ended in where the container was not empty.
proof fn lemma_first_bound<T, V, S, X, C, R, B, P, F>(
    steps: Seq<Step<B, P>>,
    last: F,
    env: Seq<V>,
    out: Outcome<R, X>,
) -> (found: (C, Outcome<R, X>)) where
    C: Bindable<T, Value = V, State = S>,
    R: From<T> + Mergeable<S>,
    B: Fn(&[V]) -> C,
    P: Fn(&[V]) -> Control<X>,
    F: FnOnce(&[V]) -> R,

    requires
        steps.len() > 0,
        steps.first() is Bind,
        yields::<T, V, S, X, C, R, B, P, F>(steps, last, env, out),
    ensures
        gives(steps.first()->Bind_0, env, found.0),
        match found.0.bind_spec() {
            Binding::Empty(t) => out matches Outcome::Stopped(r) && converts(t, r),
            Binding::Value(v, s) => yields::<T, V, S, X, C, R, B, P, F>(
                steps.drop_first(),
                last,
                env.push(v),
                found.1,
            ) && out == after_bind(found.1, s),
        },
{
    lemma_yields_unfold::<T, V, S, X, C, R, B, P, F>(steps, last, env, out);
    let b = steps.first()->Bind_0;
    let c = choose|c: C| #[trigger]
        gives(b, env, c) && match c.bind_spec() {
            Binding::Empty(t) => out matches Outcome::Stopped(r) && converts(t, r),
            Binding::Value(v, s) => exists|rest: Outcome<R, X>|
                yields::<T, V, S, X, C, R, B, P, F>(steps.drop_first(), last, env.push(v), rest)
                    && out == #[trigger] after_bind(rest, s),
        };
    match c.bind_spec() {
        Binding::Empty(t) => (c, out),
        Binding::Value(v, s) => {
            let rest = choose|rest: Outcome<R, X>|
                yields::<T, V, S, X, C, R, B, P, F>(steps.drop_first(), last, env.push(v), rest)
                    && out == #[trigger] after_bind(rest, s);
            (c, rest)
        },
    }
}

/// Continuation identity. Where every step of a chain lets it go on, the
/// chain completes, and what it completes with is the container of the
/// final expression, evaluated on the values that the binding steps bound:
/// whatever merging leaves alone (`slot`) is the same in both, however many
/// steps the chain has.
pub proof fn lemma_continuation_identity<A, T, V, S, X, C, R, B, P, F>(
    steps: Seq<Step<B, P>>,
    last: F,
    env: Seq<V>,
    out: Outcome<R, X>,
    slot: spec_fn(R) -> A,
) where
    C: Bindable<T, Value = V, State = S>,
    R: From<T> + Mergeable<S>,
    B: Fn(&[V]) -> C,
    P: Fn(&[V]) -> Control<X>,
    F: FnOnce(&[V]) -> R,

    requires
        yields::<T, V, S, X, C, R, B, P, F>(steps, last, env, out),
        forall|k: int| 0 <= k < steps.len() ==> #[trigger] goes_on::<T, V, S, X, C, B, P>(steps[k]),
        forall|r: R, s: S| slot(#[trigger] R::merge_spec(r, s)) == slot(r),
    ensures
        out matches Outcome::Completed(merged) && exists|all: Seq<V>, r: R| #[trigger]
            gives(last, all, r) && extends(all, env, binds(steps)) && slot(merged) == slot(r),
    decreases steps.len(),
{
    if steps.len() == 0 {
        assert(extends(env, env, 0)) by {
            assert(env.subrange(0, env.len() as int) =~= env);
        }
    } else {
        let tail = steps.drop_first();
        assert(goes_on::<T, V, S, X, C, B, P>(steps[0]));
        assert forall|k: int| 0 <= k < tail.len() implies #[trigger] goes_on::<T, V, S, X, C, B, P>(
            tail[k],
        ) by {
            assert(tail[k] == steps[k + 1]);
        }
        match steps.first() {
            Step::Plain(p) => {
                lemma_continuation_identity::<A, T, V, S, X, C, R, B, P, F>(
                    tail,
                    last,
                    env,
                    out,
                    slot,
                );
            },
            Step::Bind(b) => {
                let (c, rest) = lemma_first_bound::<T, V, S, X, C, R, B, P, F>(
                    steps,
                    last,
                    env,
                    out,
                );
                let v = c.bind_spec()->Value_0;
                let s = c.bind_spec()->Value_1;
                lemma_continuation_identity::<A, T, V, S, X, C, R, B, P, F>(
                    tail,
                    last,
                    env.push(v),
                    rest,
                    slot,
                );
                let (all, r) = choose|all: Seq<V>, r: R| #[trigger]
                    gives(last, all, r) && extends(all, env.push(v), binds(tail)) && slot(
                        rest->Completed_0,
                    ) == slot(r);
                assert(extends(all, env, binds(steps))) by {
                    assert(all.subrange(0, env.len() as int) =~= all.subrange(
                        0,
                        env.len() as int + 1,
                    ).subrange(0, env.len() as int));
                    assert(env.push(v).subrange(0, env.len() as int) =~= env);
                }
            },
        }
    }
}

/// Continuation identity for containers without state. Where every step of
/// a chain lets it go on and the containers leave the unit state, the chain
/// completes with exactly the container that the final expression gives on
/// the values that the binding steps bound.
pub proof fn lemma_continuation_identity_unit<T, V, X, C, R, B, P, F>(
    steps: Seq<Step<B, P>>,
    last: F,
    env: Seq<V>,
    out: Outcome<R, X>,
) where
    C: Bindable<T, Value = V, State = ()>,
    R: From<T>,
    B: Fn(&[V]) -> C,
    P: Fn(&[V]) -> Control<X>,
    F: FnOnce(&[V]) -> R,

    requires
        yields::<T, V, (), X, C, R, B, P, F>(steps, last, env, out),
        forall|k: int|
            0 <= k < steps.len() ==> #[trigger] goes_on::<T, V, (), X, C, B, P>(steps[k]),
    ensures
        out matches Outcome::Completed(r) && exists|all: Seq<V>| #[trigger]
            gives(last, all, r) && extends(all, env, binds(steps)),
{
    let slot = |r: R| r;
    lemma_continuation_identity::<R, T, V, (), X, C, R, B, P, F>(steps, last, env, out, slot);
}

/// Short-circuit purity. Where step `k` of a chain is a binding step whose
/// container is always empty, and every step before it lets the chain go
/// on, the chain is stopped, and its result is what that container handed
/// back, converted: no state of an earlier step is merged into it. The
/// container was given on the values that the binding steps before `k`
/// bound.
pub proof fn lemma_short_circuit<T, V, S, X, C, R, B, P, F>(
    steps: Seq<Step<B, P>>,
    last: F,
    env: Seq<V>,
    out: Outcome<R, X>,
    k: int,
) where
    C: Bindable<T, Value = V, State = S>,
    R: From<T> + Mergeable<S>,
    B: Fn(&[V]) -> C,
    P: Fn(&[V]) -> Control<X>,
    F: FnOnce(&[V]) -> R,

    requires
        yields::<T, V, S, X, C, R, B, P, F>(steps, last, env, out),
        0 <= k < steps.len(),
        forall|j: int| 0 <= j < k ==> #[trigger] goes_on::<T, V, S, X, C, B, P>(steps[j]),
        steps[k] is Bind,
        cuts_short::<T, V, S, X, C, B, P>(steps[k]),
    ensures
        out matches Outcome::Stopped(r) && exists|at: Seq<V>, c: C| #[trigger]
            gives(steps[k]->Bind_0, at, c) && extends(at, env, binds(steps.take(k)))
                && (c.bind_spec() matches Binding::Empty(t) && converts(t, r)),
    decreases k,
{
    let tail = steps.drop_first();
    if k == 0 {
        let (c, rest) = lemma_first_bound::<T, V, S, X, C, R, B, P, F>(steps, last, env, out);
        assert(extends(env, env, binds(steps.take(0)))) by {
            assert(env.subrange(0, env.len() as int) =~= env);
        }
    } else {
        assert(goes_on::<T, V, S, X, C, B, P>(steps[0]));
        assert forall|j: int| 0 <= j < k - 1 implies #[trigger] goes_on::<T, V, S, X, C, B, P>(
            tail[j],
        ) by {
            assert(tail[j] == steps[j + 1]);
        }
        assert(tail[k - 1] == steps[k]);
        assert(steps.take(k).drop_first() =~= tail.take(k - 1));
        assert(steps.take(k).first() == steps.first());
        match steps.first() {
            Step::Plain(p) => {
                lemma_short_circuit::<T, V, S, X, C, R, B, P, F>(tail, last, env, out, k - 1);
            },
            Step::Bind(b) => {
                let (c, rest) = lemma_first_bound::<T, V, S, X, C, R, B, P, F>(
                    steps,
                    last,
                    env,
                    out,
                );
                let v = c.bind_spec()->Value_0;
                lemma_short_circuit::<T, V, S, X, C, R, B, P, F>(
                    tail,
                    last,
                    env.push(v),
                    rest,
                    k - 1,
                );
                let r = rest->Stopped_0;
                let (at, stop) = choose|at: Seq<V>, stop: C| #[trigger]
                    gives(tail[k - 1]->Bind_0, at, stop) && extends(
                        at,
                        env.push(v),
                        binds(tail.take(k - 1)),
                    ) && (stop.bind_spec() matches Binding::Empty(t) && converts(t, r));
                assert(extends(at, env, binds(steps.take(k)))) by {
                    assert(at.subrange(0, env.len() as int) =~= at.subrange(
                        0,
                        env.len() as int + 1,
                    ).subrange(0, env.len() as int));
                    assert(env.push(v).subrange(0, env.len() as int) =~= env);
                }
            },
        }
    }
}

/// Control-signal precedence. Where step `k` of a chain is a plain step
/// that always asks to leave, and every step before it lets the chain go
/// on, the chain is left with the signal of that step, raised on the values
/// that the binding steps before `k` bound: the chain has no result of its
/// own.
pub proof fn lemma_control_signal<T, V, S, X, C, R, B, P, F>(
    steps: Seq<Step<B, P>>,
    last: F,
    env: Seq<V>,
    out: Outcome<R, X>,
    k: int,
) where
    C: Bindable<T, Value = V, State = S>,
    R: From<T> + Mergeable<S>,
    B: Fn(&[V]) -> C,
    P: Fn(&[V]) -> Control<X>,
    F: FnOnce(&[V]) -> R,

    requires
        yields::<T, V, S, X, C, R, B, P, F>(steps, last, env, out),
        0 <= k < steps.len(),
        forall|j: int| 0 <= j < k ==> #[trigger] goes_on::<T, V, S, X, C, B, P>(steps[j]),
        steps[k] is Plain,
        cuts_short::<T, V, S, X, C, B, P>(steps[k]),
    ensures
        out matches Outcome::Exited(x) && exists|at: Seq<V>| #[trigger]
            gives(steps[k]->Plain_0, at, Control::Exit(x)) && extends(
                at,
                env,
                binds(steps.take(k)),
            ),
    decreases k,
{
    let tail = steps.drop_first();
    if k == 0 {
        assert(extends(env, env, binds(steps.take(0)))) by {
            assert(env.subrange(0, env.len() as int) =~= env);
        }
    } else {
        assert(goes_on::<T, V, S, X, C, B, P>(steps[0]));
        assert forall|j: int| 0 <= j < k - 1 implies #[trigger] goes_on::<T, V, S, X, C, B, P>(
            tail[j],
        ) by {
            assert(tail[j] == steps[j + 1]);
        }
        assert(tail[k - 1] == steps[k]);
        assert(steps.take(k).drop_first() =~= tail.take(k - 1));
        assert(steps.take(k).first() == steps.first());
        match steps.first() {
            Step::Plain(p) => {
                lemma_control_signal::<T, V, S, X, C, R, B, P, F>(tail, last, env, out, k - 1);
            },
            Step::Bind(b) => {
                let (c, rest) = lemma_first_bound::<T, V, S, X, C, R, B, P, F>(
                    steps,
                    last,
                    env,
                    out,
                );
                let v = c.bind_spec()->Value_0;
                lemma_control_signal::<T, V, S, X, C, R, B, P, F>(
                    tail,
                    last,
                    env.push(v),
                    rest,
                    k - 1,
                );
                let x = rest->Exited_0;
                let at = choose|at: Seq<V>| #[trigger]
                    gives(tail[k - 1]->Plain_0, at, Control::Exit(x)) && extends(
                        at,
                        env.push(v),
                        binds(tail.take(k - 1)),
                    );
                assert(extends(at, env, binds(steps.take(k)))) by {
                    assert(at.subrange(0, env.len() as int) =~= at.subrange(
                        0,
                        env.len() as int + 1,
                    ).subrange(0, env.len() as int));
                    assert(env.push(v).subrange(0, env.len() as int) =~= env);
                }
            },
        }
    }
}

/// Nothing after the step that ends a chain matters. Where step `k` of a
/// chain always ends it, whatever the chain ends in is also what every
/// other chain ends in that has the same steps up to and including `k`,
/// whichever steps and final expression follow there.
pub proof fn lemma_rest_is_ignored<T, V, S, X, C, R, B, P, F, G>(
    steps: Seq<Step<B, P>>,
    last: F,
    other: Seq<Step<B, P>>,
    other_last: G,
    env: Seq<V>,
    out: Outcome<R, X>,
    k: int,
) where
    C: Bindable<T, Value = V, State = S>,
    R: From<T> + Mergeable<S>,
    B: Fn(&[V]) -> C,
    P: Fn(&[V]) -> Control<X>,
    F: FnOnce(&[V]) -> R,
    G: FnOnce(&[V]) -> R,

    requires
        yields::<T, V, S, X, C, R, B, P, F>(steps, last, env, out),
        0 <= k < steps.len(),
        k < other.len(),
        forall|j: int| 0 <= j <= k ==> other[j] == steps[j],
        cuts_short::<T, V, S, X, C, B, P>(steps[k]),
    ensures
        yields::<T, V, S, X, C, R, B, P, G>(other, other_last, env, out),
    decreases k,
{
    let tail = steps.drop_first();
    let other_tail = other.drop_first();
    assert(other.first() == steps.first());
    if k > 0 {
        assert(tail[k - 1] == steps[k]);
        assert forall|j: int| 0 <= j <= k - 1 implies other_tail[j] == tail[j] by {
            assert(other_tail[j] == other[j + 1]);
            assert(tail[j] == steps[j + 1]);
        }
    }
    match steps.first() {
        Step::Plain(p) => {
            if k > 0 && !(out matches Outcome::Exited(x) && gives(p, env, Control::Exit(x))) {
                lemma_rest_is_ignored::<T, V, S, X, C, R, B, P, F, G>(
                    tail,
                    last,
                    other_tail,
                    other_last,
                    env,
                    out,
                    k - 1,
                );
            }
        },
        Step::Bind(b) => {
            let (c, rest) = lemma_first_bound::<T, V, S, X, C, R, B, P, F>(steps, last, env, out);
            match c.bind_spec() {
                Binding::Empty(t) => {},
                Binding::Value(v, s) => {
                    lemma_rest_is_ignored::<T, V, S, X, C, R, B, P, F, G>(
                        tail,
                        last,
                        other_tail,
                        other_last,
                        env.push(v),
                        rest,
                        k - 1,
                    );
                    assert(out == after_bind(rest, s));
                },
            }
        },
    }
}

/// Plain-step transparency. A plain step that always goes on can be put
/// anywhere into a chain: the chain with the step ends in nothing that the
/// chain without it does not end in. No bound value, no stop and no merged
/// state changes.
pub proof fn lemma_plain_step_transparent<T, V, S, X, C, R, B, P, F>(
    steps: Seq<Step<B, P>>,
    last: F,
    env: Seq<V>,
    out: Outcome<R, X>,
    k: int,
    p: P,
) where
    C: Bindable<T, Value = V, State = S>,
    R: From<T> + Mergeable<S>,
    B: Fn(&[V]) -> C,
    P: Fn(&[V]) -> Control<X>,
    F: FnOnce(&[V]) -> R,

    requires
        0 <= k <= steps.len(),
        goes_on::<T, V, S, X, C, B, P>(Step::Plain(p)),
        yields::<T, V, S, X, C, R, B, P, F>(steps.insert(k, Step::Plain(p)), last, env, out),
    ensures
        yields::<T, V, S, X, C, R, B, P, F>(steps, last, env, out),
    decreases k,
{
    let longer = steps.insert(k, Step::Plain(p));
    if k == 0 {
        assert(longer.first() == Step::<B, P>::Plain(p));
        assert(longer.drop_first() =~= steps);
    } else {
        let tail = steps.drop_first();
        assert(longer.first() == steps.first());
        assert(longer.drop_first() =~= tail.insert(k - 1, Step::Plain(p)));
        match steps.first() {
            Step::Plain(q) => {
                if !(out matches Outcome::Exited(x) && gives(q, env, Control::Exit(x))) {
                    lemma_plain_step_transparent::<T, V, S, X, C, R, B, P, F>(
                        tail,
                        last,
                        env,
                        out,
                        k - 1,
                        p,
                    );
                }
            },
            Step::Bind(b) => {
                let (c, rest) = lemma_first_bound::<T, V, S, X, C, R, B, P, F>(
                    longer,
                    last,
                    env,
                    out,
                );
                match c.bind_spec() {
                    Binding::Empty(t) => {},
                    Binding::Value(v, s) => {
                        lemma_plain_step_transparent::<T, V, S, X, C, R, B, P, F>(
                            tail,
                            last,
                            env.push(v),
                            rest,
                            k - 1,
                            p,
                        );
                        assert(out == after_bind(rest, s));
                    },
                }
            },
        }
    }
}

/// The other half of plain-step transparency. A plain step that can go on
/// from every environment takes no outcome away: whatever a chain ends in,
/// the chain with the step put in at `k` ends in as well.
pub proof fn lemma_plain_step_keeps<T, V, S, X, C, R, B, P, F>(
    steps: Seq<Step<B, P>>,
    last: F,
    env: Seq<V>,
    out: Outcome<R, X>,
    k: int,
    p: P,
) where
    C: Bindable<T, Value = V, State = S>,
    R: From<T> + Mergeable<S>,
    B: Fn(&[V]) -> C,
    P: Fn(&[V]) -> Control<X>,
    F: FnOnce(&[V]) -> R,

    requires
        0 <= k <= steps.len(),
        forall|at: Seq<V>| #[trigger] gives(p, at, Control::<X>::Proceed),
        yields::<T, V, S, X, C, R, B, P, F>(steps, last, env, out),
    ensures
        yields::<T, V, S, X, C, R, B, P, F>(steps.insert(k, Step::Plain(p)), last, env, out),
    decreases k,
{
    let longer = steps.insert(k, Step::Plain(p));
    if k == 0 {
        assert(longer.first() == Step::<B, P>::Plain(p));
        assert(longer.drop_first() =~= steps);
        assert(gives(p, env, Control::<X>::Proceed));
    } else {
        let tail = steps.drop_first();
        assert(longer.first() == steps.first());
        assert(longer.drop_first() =~= tail.insert(k - 1, Step::Plain(p)));
        match steps.first() {
            Step::Plain(q) => {
                if !(out matches Outcome::Exited(x) && gives(q, env, Control::Exit(x))) {
                    lemma_plain_step_keeps::<T, V, S, X, C, R, B, P, F>(
                        tail,
                        last,
                        env,
                        out,
                        k - 1,
                        p,
                    );
                }
            },
            Step::Bind(b) => {
                let (c, rest) = lemma_first_bound::<T, V, S, X, C, R, B, P, F>(
                    steps,
                    last,
                    env,
                    out,
                );
                match c.bind_spec() {
                    Binding::Empty(t) => {},
                    Binding::Value(v, s) => {
                        lemma_plain_step_keeps::<T, V, S, X, C, R, B, P, F>(
                            tail,
                            last,
                            env.push(v),
                            rest,
                            k - 1,
                            p,
                        );
                        assert(out == after_bind(rest, s));
                    },
                }
            },
        }
    }
}

/// Every run of the step goes on and adds the entries `added` to the log:
/// a binding step through the state that it leaves, a plain step by adding
/// none.
pub open spec fn contributes<A, T, V, S, X, C, B, P>(
    step: Step<B, P>,
    contributed: spec_fn(S) -> Seq<A>,
    added: Seq<A>,
) -> bool where
    C: Bindable<T, Value = V, State = S>,
    B: Fn(&[V]) -> C,
    P: Fn(&[V]) -> Control<X>,
 {
    match step {
        Step::Bind(b) => forall|env: Seq<V>, c: C| #[trigger]
            gives(b, env, c) ==> (c.bind_spec() matches Binding::Value(_, s) && contributed(s)
                == added),
        Step::Plain(p) => goes_on::<T, V, S, X, C, B, P>(step) && added == Seq::<A>::empty(),
    }
}

/// State ordering. Take containers that keep a log (`entries`) and whose
/// merge puts the entries of the merged state (`contributed`) in front of
/// their own. Where step `k` of a chain always adds the entries `logs[k]`,
/// and the container of the final expression holds the entries `tail`, the
/// chain completes with a container that holds `logs[0]`, `logs[1]` and so
/// on to the last step, followed by `tail`: the entries stand in the order
/// of the steps, although the merges run from the last step back to the
/// first.
pub proof fn lemma_state_order<A, T, V, S, X, C, R, B, P, F>(
    steps: Seq<Step<B, P>>,
    last: F,
    env: Seq<V>,
    out: Outcome<R, X>,
    entries: spec_fn(R) -> Seq<A>,
    contributed: spec_fn(S) -> Seq<A>,
    logs: Seq<Seq<A>>,
    tail: Seq<A>,
) where
    C: Bindable<T, Value = V, State = S>,
    R: From<T> + Mergeable<S>,
    B: Fn(&[V]) -> C,
    P: Fn(&[V]) -> Control<X>,
    F: FnOnce(&[V]) -> R,

    requires
        yields::<T, V, S, X, C, R, B, P, F>(steps, last, env, out),
        forall|r: R, s: S| entries(#[trigger] R::merge_spec(r, s)) == contributed(s) + entries(r),
        logs.len() == steps.len(),
        forall|k: int|
            0 <= k < steps.len() ==> #[trigger] contributes::<A, T, V, S, X, C, B, P>(
                steps[k],
                contributed,
                logs[k],
            ),
        forall|at: Seq<V>, r: R| #[trigger] gives(last, at, r) ==> entries(r) == tail,
    ensures
        out matches Outcome::Completed(merged) && entries(merged) == logs.flatten() + tail,
    decreases steps.len(),
{
    if steps.len() == 0 {
        assert(logs.flatten() + tail =~= tail);
    } else {
        let rest_steps = steps.drop_first();
        let rest_logs = logs.drop_first();
        assert(contributes::<A, T, V, S, X, C, B, P>(steps[0], contributed, logs[0]));
        assert forall|k: int| 0 <= k < rest_steps.len() implies #[trigger] contributes::<
            A,
            T,
            V,
            S,
            X,
            C,
            B,
            P,
        >(rest_steps[k], contributed, rest_logs[k]) by {
            assert(contributes::<A, T, V, S, X, C, B, P>(steps[k + 1], contributed, logs[k + 1]));
        }
        match steps.first() {
            Step::Plain(p) => {
                lemma_state_order::<A, T, V, S, X, C, R, B, P, F>(
                    rest_steps,
                    last,
                    env,
                    out,
                    entries,
                    contributed,
                    rest_logs,
                    tail,
                );
                assert(logs[0] + rest_logs.flatten() =~= rest_logs.flatten());
            },
            Step::Bind(b) => {
                let (c, rest) = lemma_first_bound::<T, V, S, X, C, R, B, P, F>(
                    steps,
                    last,
                    env,
                    out,
                );
                let v = c.bind_spec()->Value_0;
                lemma_state_order::<A, T, V, S, X, C, R, B, P, F>(
                    rest_steps,
                    last,
                    env.push(v),
                    rest,
                    entries,
                    contributed,
                    rest_logs,
                    tail,
                );
                assert(logs[0] + (rest_logs.flatten() + tail) =~= logs.flatten() + tail);
            },
        }
    }
}

/// A log of one entry for each step, laid out step by step, is the log
/// itself.
proof fn lemma_one_entry_each<A>(log: Seq<A>)
    ensures
        Seq::new(log.len(), |k: int| seq![log[k]]).flatten() == log,
    decreases log.len(),
{
    let logs = Seq::new(log.len(), |k: int| seq![log[k]]);
    if log.len() > 0 {
        let rest = log.drop_first();
        lemma_one_entry_each(rest);
        assert(logs.drop_first() =~= Seq::new(rest.len(), |k: int| seq![rest[k]]));
        assert(logs.first() + rest =~= log);
    }
}

/// State ordering, one entry for each step. With containers as in
/// `lemma_state_order`, where each step of a chain is a binding step whose
/// state always contributes one entry, `log[k]` for step `k`, the chain
/// completes with a container that holds the entries of `log` in their
/// order, followed by those of the final expression.
pub proof fn lemma_state_order_one_each<A, T, V, S, X, C, R, B, P, F>(
    steps: Seq<Step<B, P>>,
    last: F,
    env: Seq<V>,
    out: Outcome<R, X>,
    entries: spec_fn(R) -> Seq<A>,
    contributed: spec_fn(S) -> Seq<A>,
    log: Seq<A>,
    tail: Seq<A>,
) where
    C: Bindable<T, Value = V, State = S>,
    R: From<T> + Mergeable<S>,
    B: Fn(&[V]) -> C,
    P: Fn(&[V]) -> Control<X>,
    F: FnOnce(&[V]) -> R,

    requires
        yields::<T, V, S, X, C, R, B, P, F>(steps, last, env, out),
        forall|r: R, s: S| entries(#[trigger] R::merge_spec(r, s)) == contributed(s) + entries(r),
        log.len() == steps.len(),
        forall|k: int|
            0 <= k < steps.len() ==> (#[trigger] steps[k]) is Bind && contributes::<
                A,
                T,
                V,
                S,
                X,
                C,
                B,
                P,
            >(steps[k], contributed, seq![log[k]]),
        forall|at: Seq<V>, r: R| #[trigger] gives(last, at, r) ==> entries(r) == tail,
    ensures
        out matches Outcome::Completed(merged) && entries(merged) == log + tail,
{
    let logs = Seq::new(log.len(), |k: int| seq![log[k]]);
    lemma_one_entry_each(log);
    lemma_state_order::<A, T, V, S, X, C, R, B, P, F>(
        steps,
        last,
        env,
        out,
        entries,
        contributed,
        logs,
        tail,
    );
}

/// Unit state is no state. Merging the unit state leaves every container
/// as it is, and so does merging any number of them.
pub proof fn lemma_unit_merge<R>(r: R, pending: Seq<()>)
    ensures
        <R as Mergeable<()>>::merge_spec(r, ()) == r,
        merge_all(r, pending) == r,
    decreases pending.len(),
{
    if pending.len() > 0 {
        lemma_unit_merge(r, pending.drop_last());
    }
}

} // verus!
