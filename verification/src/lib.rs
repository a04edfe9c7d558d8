//! Keeps track of a periodized strength-training program: a cyclic sequence
//! of training days, each a list of lifts with rep schemes and
//! weight-computation rules.  The crate holds the compact textual notation
//! for rep schemes and weight rules, with proved parse/format round trips,
//! and the progression engine that records a day's results, ratchets the
//! tracked weights, auto-regulates the reference weight at each cycle close,
//! and advances the program — all as pure value-to-value transitions.
//! Reading and writing files, prompting the lifter, and the command line
//! live outside the crate, behind the ports.

pub mod day;
pub mod digits;
pub mod json;
pub mod lifting;
pub mod ports;
pub mod programs;
pub mod set;
pub mod text;
pub mod weight_scheme;

use vstd::prelude::*;

verus! {

/// Malformed notation text: a missing delimiter or a field that is not a
/// number. Every parse in this crate fails with this instead of panicking.
#[derive(Clone, Copy, Debug, PartialEq, Eq, Structural)]
pub struct NotationError;

} // verus!
