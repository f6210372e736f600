use ido::{evaluate, Bindable, Binding, Control, Mergeable, Outcome, Step};
use std::borrow::Cow;
use std::mem;

type Bind<'a, V, C> = Box<dyn Fn(&[V]) -> C + 'a>;
type Plain<'a, V, X> = Box<dyn Fn(&[V]) -> Control<X> + 'a>;
type Steps<'a, V, C, X> = Vec<Step<Bind<'a, V, C>, Plain<'a, V, X>>>;

fn bind<'a, V, C, X>(f: impl Fn(&[V]) -> C + 'a) -> Step<Bind<'a, V, C>, Plain<'a, V, X>> {
    Step::Bind(Box::new(f))
}

fn plain<'a, V, C, X>(
    f: impl Fn(&[V]) -> Control<X> + 'a,
) -> Step<Bind<'a, V, C>, Plain<'a, V, X>> {
    Step::Plain(Box::new(f))
}

#[test]
pub fn complete_option() {
    let steps: Steps<usize, Option<usize>, ()> = vec![bind(|_| Some(1))];
    assert_eq!(
        evaluate(&steps, |x: &[usize]| Some(x[0] + 1)),
        Outcome::Completed(Some(2))
    );
}

#[test]
pub fn early_return_option() {
    let steps: Steps<usize, Option<usize>, ()> =
        vec![bind(|_| Some(1)), bind(|_| None as Option<usize>)];
    assert_eq!(
        evaluate(&steps, |x: &[usize]| Some(x[0] + 1)),
        Outcome::Stopped(None)
    );
}

#[test]
pub fn complete() {
    let r: Result<usize, ()> = Ok(1);
    let steps: Steps<usize, Result<usize, ()>, ()> = vec![bind(move |_| r)];
    assert_eq!(
        evaluate(&steps, |x: &[usize]| Ok(x[0] + 1)),
        Outcome::Completed(Ok(2))
    );
}

#[test]
pub fn early_return() {
    let steps: Steps<usize, Result<usize, usize>, ()> =
        vec![bind(|_| Ok(1)), bind(|x: &[usize]| Err::<usize, usize>(x[0]))];
    assert_eq!(
        evaluate(&steps, |_: &[usize]| Ok(2)),
        Outcome::Stopped(Err(1))
    );
}

struct Logger<T>(T, Vec<Cow<'static, str>>);

impl<T> Bindable<Logger<T>> for Logger<T> {
    type Value = T;
    type State = Vec<Cow<'static, str>>;
    fn bind(self) -> Binding<Self, Self::Value, Self::State> {
        Binding::Value(self.0, self.1)
    }
}

impl<T> Mergeable<Vec<Cow<'static, str>>> for Logger<T> {
    fn merge(&mut self, mut state: Vec<Cow<'static, str>>) {
        mem::swap(&mut self.1, &mut state);
        self.1.append(&mut state);
    }
}

#[test]
pub fn state_threading() {
    let steps: Steps<i32, Logger<i32>, ()> = vec![
        bind(|_| Logger(1, vec!["This".into()])),
        bind(|a: &[i32]| Logger(a[0] + 1, vec!["is".into()])),
        bind(|a: &[i32]| Logger(a[1] + 1, vec!["overly".into()])),
    ];
    let out = evaluate(&steps, |a: &[i32]| {
        Logger(a[2] + 1, vec!["complicated".into()])
    });
    match out {
        Outcome::Completed(log) => {
            assert_eq!(
                log.1,
                vec![
                    Cow::Borrowed("This"),
                    "is".into(),
                    "overly".into(),
                    "complicated".into()
                ]
            );
            assert_eq!(log.0, 4);
        }
        _ => panic!("a chain of loggers always completes"),
    }
}

#[test]
fn no_steps_give_the_final_expression() {
    let steps: Steps<usize, Option<usize>, ()> = vec![];
    assert_eq!(
        evaluate(&steps, |x: &[usize]| {
            assert!(x.is_empty());
            Some(7)
        }),
        Outcome::Completed(Some(7))
    );
}

#[test]
fn no_steps_and_no_value_give_unit() {
    let steps: Vec<Step<Bind<(), Unit>, Plain<(), ()>>> = vec![];
    assert_eq!(evaluate(&steps, |_: &[()]| ()), Outcome::Completed(()));
}

/// A container that never holds anything and is bound in chains that
/// produce the unit value.
struct Unit;

impl Bindable<()> for Unit {
    type Value = ();
    type State = ();
    fn bind(self) -> Binding<(), (), ()> {
        Binding::Value((), ())
    }
}

#[test]
fn plain_steps_alone_give_unit() {
    let seen = std::cell::Cell::new(0);
    let steps: Vec<Step<Bind<(), Unit>, Plain<(), ()>>> = vec![
        plain(|_| {
            seen.set(seen.get() + 1);
            Control::Proceed
        }),
        bind(|_| Unit),
        plain(|bound: &[()]| {
            seen.set(seen.get() + 10 * bound.len());
            Control::Proceed
        }),
    ];
    assert_eq!(evaluate(&steps, |_: &[()]| ()), Outcome::Completed(()));
    assert_eq!(seen.get(), 11);
}

#[test]
fn stop_at_the_first_step() {
    let steps: Steps<usize, Option<usize>, ()> = vec![
        bind(|_| None),
        bind(|_| panic!("the chain has stopped")),
    ];
    let out: Outcome<Option<usize>, ()> =
        evaluate(&steps, |_: &[usize]| panic!("the chain has stopped"));
    assert_eq!(out, Outcome::Stopped(None));
}

#[test]
fn every_bound_value_is_kept() {
    let steps: Steps<u64, Option<u64>, ()> = vec![
        bind(|_| Some(2)),
        bind(|x: &[u64]| Some(x[0] * 10)),
        bind(|x: &[u64]| Some(x[0] + x[1])),
    ];
    assert_eq!(
        evaluate(&steps, |x: &[u64]| Some(x.to_vec())),
        Outcome::Completed(Some(vec![2, 20, 22]))
    );
}

#[test]
fn failure_carries_what_was_bound() {
    let steps: Steps<u8, Result<u8, String>, ()> = vec![
        bind(|_| Ok(3)),
        bind(|x: &[u8]| Ok(x[0] + 1)),
        bind(|x: &[u8]| Err(format!("{} then {}", x[0], x[1]))),
        bind(|_| panic!("the chain has stopped")),
    ];
    assert_eq!(
        evaluate(&steps, |_: &[u8]| Ok(0)),
        Outcome::Stopped(Err("3 then 4".to_string()))
    );
}

#[derive(Debug, PartialEq)]
enum Signal {
    Break,
    Continue,
}

#[test]
fn break_leaves_the_loop_at_five() {
    let mut iterations = 0;
    let mut results = Vec::new();
    for i in 0..100usize {
        iterations += 1;
        let steps: Steps<usize, Option<usize>, Signal> = vec![
            bind(move |_| Some(i)),
            plain(|x: &[usize]| {
                if x[0] == 5 {
                    Control::Exit(Signal::Break)
                } else {
                    Control::Proceed
                }
            }),
        ];
        match evaluate(&steps, |x: &[usize]| Some(x[0] * 2)) {
            Outcome::Exited(Signal::Break) => break,
            Outcome::Exited(Signal::Continue) => continue,
            Outcome::Completed(value) => results.push(value),
            Outcome::Stopped(_) => panic!("no step stops"),
        }
    }
    assert_eq!(iterations, 6);
    assert_eq!(
        results,
        vec![Some(0), Some(2), Some(4), Some(6), Some(8)]
    );
}

#[test]
fn continue_skips_the_rest_of_an_iteration() {
    let mut kept = Vec::new();
    for i in 0..6u32 {
        let steps: Steps<u32, Result<u32, ()>, Signal> = vec![
            bind(move |_| Ok(i)),
            plain(|x: &[u32]| {
                if x[0] % 2 == 1 {
                    Control::Exit(Signal::Continue)
                } else {
                    Control::Proceed
                }
            }),
            bind(|x: &[u32]| if x[0] == 4 { Err(()) } else { Ok(x[0]) }),
        ];
        match evaluate(&steps, |x: &[u32]| Ok(x[0] + x[1])) {
            Outcome::Exited(Signal::Break) => break,
            Outcome::Exited(Signal::Continue) => continue,
            out => kept.push(out),
        }
    }
    assert_eq!(
        kept,
        vec![
            Outcome::Completed(Ok(0)),
            Outcome::Completed(Ok(4)),
            Outcome::Stopped(Err(())),
        ]
    );
}

#[test]
fn early_return_from_the_enclosing_function() {
    fn first_even(values: &[i64]) -> Option<i64> {
        for &v in values {
            let steps: Steps<i64, Option<i64>, i64> = vec![
                bind(move |_| Some(v)),
                plain(|x: &[i64]| {
                    if x[0] % 2 == 0 {
                        Control::Exit(x[0])
                    } else {
                        Control::Proceed
                    }
                }),
            ];
            let out: Outcome<Option<i64>, i64> = evaluate(&steps, |_: &[i64]| None);
            if let Outcome::Exited(found) = out {
                return Some(found);
            }
        }
        None
    }
    assert_eq!(first_even(&[3, 5, 8, 10]), Some(8));
    assert_eq!(first_even(&[3, 5]), None);
}

#[test]
fn an_overflow_stops_the_sum() {
    type Add = fn(&[u32]) -> Option<u32>;
    type Quiet = fn(&[u32]) -> Control<()>;

    let steps: [Step<Add, Quiet>; 2] = [
        Step::Bind(|_| Some(1)),
        Step::Bind(|bound| bound[0].checked_add(1)),
    ];
    let sum = evaluate(&steps, |bound: &[u32]| Some(bound[0] + bound[1]));
    assert_eq!(sum, Outcome::Completed(Some(3)));

    let steps: [Step<Add, Quiet>; 2] = [
        Step::Bind(|_| Some(u32::MAX)),
        Step::Bind(|bound| bound[0].checked_add(1)),
    ];
    let sum = evaluate(&steps, |bound: &[u32]| Some(bound[0] + bound[1]));
    assert_eq!(sum, Outcome::Stopped(None));
}
