//! Debounced key transitions, addressed by grid coordinate.

use vstd::prelude::*;

verus! {

/// A debounced state transition of one switch: a press or a release of the
/// switch at `(row, col)` in the shared logical coordinate space.
#[derive(Clone, Copy, Debug, PartialEq, Eq, Structural)]
pub enum Event {
    Press(u8, u8),
    Release(u8, u8),
}

impl Event {
    /// The row of the switch this event speaks of.
    pub open spec fn spec_row(self) -> u8 {
        match self {
            Event::Press(r, _) => r,
            Event::Release(r, _) => r,
        }
    }

    /// The column of the switch this event speaks of.
    pub open spec fn spec_col(self) -> u8 {
        match self {
            Event::Press(_, c) => c,
            Event::Release(_, c) => c,
        }
    }

    /// Whether this event is a press (as opposed to a release).
    pub open spec fn spec_is_press(self) -> bool {
        match self {
            Event::Press(_, _) => true,
            Event::Release(_, _) => false,
        }
    }

    pub fn row(&self) -> (r: u8)
        ensures
            r == self.spec_row(),
    {
        match self {
            Event::Press(r, _) => *r,
            Event::Release(r, _) => *r,
        }
    }

    pub fn col(&self) -> (c: u8)
        ensures
            c == self.spec_col(),
    {
        match self {
            Event::Press(_, c) => *c,
            Event::Release(_, c) => *c,
        }
    }

    pub fn is_press(&self) -> (b: bool)
        ensures
            b == self.spec_is_press(),
    {
        match self {
            Event::Press(_, _) => true,
            Event::Release(_, _) => false,
        }
    }
}

} // verus!
