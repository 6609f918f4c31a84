use vstd::prelude::*;

verus! {

/// How often a line occurs on one side: only "none", "exactly once" and
/// "more than once" are told apart.
#[derive(Debug, Clone, Copy, PartialEq, Eq, Structural)]
pub enum Occurrences {
    Zero,
    One,
    Many,
}

impl Occurrences {
    /// The tally that stands for `n` occurrences.
    pub open spec fn of(n: nat) -> Occurrences {
        if n == 0 {
            Occurrences::Zero
        } else if n == 1 {
            Occurrences::One
        } else {
            Occurrences::Many
        }
    }

    /// Counts one more occurrence: zero becomes one, anything else many.
    pub fn increment(&mut self)
        ensures
            forall|n: nat| *old(self) == #[trigger] Occurrences::of(n) ==> *final(self) == Occurrences::of(n + 1),
            *final(self) == (if *old(self) == Occurrences::Zero {
                Occurrences::One
            } else {
                Occurrences::Many
            }),
    {
        *self = match self {
            Occurrences::Zero => Occurrences::One,
            _ => Occurrences::Many,
        };
    }
}

} // verus!
