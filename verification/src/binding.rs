//! The two capabilities of a container: binding and merging.

use vstd::prelude::*;

verus! {

/// The result of binding one container.
///
/// `Value(value, state)` lets the chain go on: `value` is handed to the steps
/// that follow, and `state` is merged into the container that they produce.
/// `Empty(terminal)` ends the chain at once: `terminal` becomes its result.
#[derive(Debug, PartialEq, Eq)]
pub enum Binding<T, U, V> {
    Value(U, V),
    Empty(T),
}

/// A container that can stand on the right-hand side of a binding step.
///
/// `T` is what the container hands back when it ends the chain; it is
/// converted into the chain's result by `From`.
pub trait Bindable<T>: Sized {
    /// When binding, this is the type that is exposed to the user.
    type Value;

    /// Auxiliary state that the container hands to the rest of the chain.
    type State;

    /// What binding `self` yields. Binding depends on the container alone,
    /// so the same container always takes the same branch. An implementation
    /// in verified code states it; elsewhere it is left open.
    open spec fn bind_spec(self) -> Binding<T, Self::Value, Self::State> {
        arbitrary()
    }

    /// Given an instance of `Self`, decide how to proceed.
    fn bind(self) -> (outcome: Binding<T, Self::Value, Self::State>)
        ensures
            outcome == self.bind_spec(),
    ;
}

/// A container into which the state of an earlier step can be merged.
pub trait Mergeable<T: Sized>: Sized {
    /// The container after `state` has been merged into it. An
    /// implementation in verified code states it; elsewhere it is left open.
    open spec fn merge_spec(self, state: T) -> Self {
        arbitrary()
    }

    /// Add auxiliary state from the previous instance to this one.
    /// (For example, to create a log in temporal order, `state` must be
    /// prepended.)
    fn merge(&mut self, state: T)
        ensures
            *final(self) == Self::merge_spec(*old(self), state),
    ;
}

/// A container without state of its own takes the unit state and stays as
/// it is.
impl<T> Mergeable<()> for T {
    open spec fn merge_spec(self, state: ()) -> Self {
        self
    }

    fn merge(&mut self, state: ())
        ensures
            *final(self) == *old(self),
    {
    }
}

/// An absent value ends the chain with an absent value; a present one is
/// handed on.
impl<T, U> Bindable<Option<U>> for Option<T> {
    type Value = T;

    type State = ();

    open spec fn bind_spec(self) -> Binding<Option<U>, T, ()> {
        match self {
            Some(x) => Binding::Value(x, ()),
            None => Binding::Empty(None),
        }
    }

    fn bind(self) -> (outcome: Binding<Option<U>, T, ()>) {
        match self {
            Some(x) => Binding::Value(x, ()),
            None => Binding::Empty(None),
        }
    }
}

/// A failure ends the chain and is carried over unchanged; a success is
/// handed on.
impl<T, U, E> Bindable<Result<U, E>> for Result<T, E> {
    type Value = T;

    type State = ();

    open spec fn bind_spec(self) -> Binding<Result<U, E>, T, ()> {
        match self {
            Ok(x) => Binding::Value(x, ()),
            Err(e) => Binding::Empty(Err(e)),
        }
    }

    fn bind(self) -> (outcome: Binding<Result<U, E>, T, ()>) {
        match self {
            Ok(x) => Binding::Value(x, ()),
            Err(e) => Binding::Empty(Err(e)),
        }
    }
}

} // verus!
