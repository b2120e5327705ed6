//! What the arithmetic tier reports when it fails.

use vstd::prelude::*;

verus! {

/// Why the arithmetic tier failed, as a note for a diagnostic.
pub enum ArithmeticFailure {
    /// Values that satisfy the arithmetic facts and violate the goal, in
    /// source spelling: nothing linear would fill this.
    Counterexample(String),
    /// A count ran out: the goal was not decided either way.
    Budget(String),
}

impl ArithmeticFailure {
    /// The note.
    pub fn note(&self) -> (result: &str)
        ensures
            result@ == match self {
                ArithmeticFailure::Counterexample(note) => note@,
                ArithmeticFailure::Budget(note) => note@,
            },
    {
        match self {
            ArithmeticFailure::Counterexample(note) => note.as_str(),
            ArithmeticFailure::Budget(note) => note.as_str(),
        }
    }
}

} // verus!
