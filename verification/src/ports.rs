use vstd::prelude::*;
use crate::lifting::{LiftAttempt, LiftAttemptResult};

verus! {

// The ports around the engine: where a program is kept and where the lifter
// answers questions.  The I/O itself lives outside the library; these are
// the value types and contracts the adapters agree on.

/// A port operation that could not be carried out.
#[derive(Clone, Copy, Debug, PartialEq, Eq, Structural)]
pub struct PersistenceError;

/// The file-system persistence adapter's state: the directory that holds
/// the saved data.
pub struct FileSystem {
    pub save_dir: String,
}

/// The terminal user-input adapter's state; the prompting itself happens
/// outside the library.
pub struct Tui {}

/// Make a terminal adapter.
pub fn new() -> (r: Tui)
    ensures
        r == (Tui {  }),
{
    Tui {  }
}

/// The minimal persistence port: keep one reference weight.
pub trait PersistanceAdapter {
    fn persist(&self, reference_weight: u64) -> Result<(), PersistenceError>;

    fn summon(&self) -> Option<u64>;
}

} // verus!
