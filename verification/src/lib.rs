//! A verified simulator for single-tape Turing machines.
//!
//! The machine owns a one-sided, rightward-growing tape (`Ribbon`), an
//! ordered transition table with deterministic first-match dispatch, a set
//! of final state names, and a step counter.  `run` and `run_with_limit`
//! drive the simulation until the machine halts (no applicable transition)
//! or a step budget runs out, then report whether the halting state is one
//! of the final states.  A line-oriented textual description of a machine
//! can be parsed with `MachineTuring::from_text`.

pub mod loader;
pub mod machine_turing;
pub mod model;
