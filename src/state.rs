use vstd::prelude::*;

verus! {

/// The classical or quantum status of one qubit.
#[derive(Clone, Copy, Debug, PartialEq, Eq, Structural)]
pub enum State {
    /// Collapsed, with classical value 0.
    ZERO,
    /// Collapsed, with classical value 1.
    ONE,
    /// In superposition: no classical value is determined.
    SUPERPOSITION,
}

impl State {
    /// True when the qubit is collapsed to the classical value `v`.
    pub open spec fn collapsed_to(self, v: int) -> bool {
        match self {
            State::ZERO => v == 0,
            State::ONE => v == 1,
            State::SUPERPOSITION => false,
        }
    }

    pub fn is_superposition(&self) -> (r: bool)
        ensures
            r == (*self == State::SUPERPOSITION),
    {
        match *self {
            State::SUPERPOSITION => true,
            _ => false,
        }
    }

    /// Whether the qubit is collapsed to the classical value `value`;
    /// a superposed qubit equals no classical value.
    pub fn is_collapsed_to(&self, value: u8) -> (r: bool)
        ensures
            r == self.collapsed_to(value as int),
    {
        match *self {
            State::ZERO => value == 0,
            State::ONE => value == 1,
            State::SUPERPOSITION => false,
        }
    }
}

} // verus!
