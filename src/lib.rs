//! Compiles patterns made of literal characters and the postfix quantifiers
//! `+` and `*` into a nondeterministic finite automaton, and decides whether
//! the automaton accepts an input by subset simulation.

pub mod compiler;
pub mod language;
pub mod state_machine;

pub use compiler::{compile, compile_from, CompileError};
pub use state_machine::{StateMachine, StateRef};
