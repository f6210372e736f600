//! Short-circuiting chains of steps.
//!
//! A chain is an ordered list of steps followed by a final expression. A
//! binding step produces a container and binds it: the container either
//! hands over a value, with which the chain goes on, or ends the chain with
//! a result of its own. Whatever state a continuing container leaves behind
//! is merged into the container that the rest of the chain produces, so
//! that the state of an earlier step always comes before that of a later
//! one.
//!
//! [`binding`] holds the two capabilities a container type implements,
//! [`chain`] the evaluator, and [`laws`] what holds of every chain.
//!
//! ```
//! use ido::{evaluate, Control, Outcome, Step};
//!
//! type Bind = fn(&[u32]) -> Option<u32>;
//! type Plain = fn(&[u32]) -> Control<()>;
//!
//! let steps: [Step<Bind, Plain>; 2] = [
//!     Step::Bind(|_| Some(1)),
//!     Step::Bind(|bound| bound[0].checked_add(1)),
//! ];
//! let sum = evaluate(&steps, |bound: &[u32]| Some(bound[0] + bound[1]));
//! assert_eq!(sum, Outcome::Completed(Some(3)));
//!
//! let steps: [Step<Bind, Plain>; 2] = [
//!     Step::Bind(|_| Some(u32::MAX)),
//!     Step::Bind(|bound| bound[0].checked_add(1)),
//! ];
//! let sum = evaluate(&steps, |bound: &[u32]| Some(bound[0] + bound[1]));
//! assert_eq!(sum, Outcome::Stopped(None));
//! ```

pub mod binding;
pub mod chain;
pub mod laws;

pub use binding::{Bindable, Binding, Mergeable};
pub use chain::{conclude, evaluate, Control, Outcome, Step};
