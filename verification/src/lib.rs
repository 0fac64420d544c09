//! Search engine for the numbers game: given a handful of operands and a
//! target, find a calculation with `+ - * /` that combines operands, each at
//! most once, into the target or into the nearest amount within a tolerance.
//! A subtraction must leave a positive amount and a division no remainder.
//!
//! What the engine does:
//! - [`operation`]: the four operations and the evaluator.
//! - [`number`]: an amount with the operations that lead to it.
//! - [`expand`]: every way to combine two numbers of a state.
//! - [`order`]: the order in which the numbers of a state stand.
//! - [`seen`]: which states were met before, so that none is expanded twice.
//! - [`table`]: the shortest derivation met for each amount, and the lookup.
//! - [`search`]: the exploration of everything the operands lead to.
//! - [`text`], [`input`]: numbers as text, and a problem from words.
//!
//! What it means, and why it is right:
//! - [`derivation`]: derivations as expression trees.
//! - [`explore`]: the exploration as a mathematical function.
//! - [`forest`], [`moves`], [`closure`]: the exploration is sound and
//!   complete, and its derivations are the shortest.
//! - [`laws`]: what follows for the engine as a whole.

pub mod closure;
pub mod derivation;
pub mod expand;
pub mod explore;
pub mod forest;
pub mod input;
pub mod laws;
pub mod moves;
pub mod number;
pub mod operation;
pub mod order;
pub mod pairs;
pub mod search;
pub mod seen;
pub mod table;
pub mod text;

pub use number::Number;
pub use operation::{MOperation, Operation};
pub use search::{all_combinations, solve};
