//! The instructions a register program is made of.
use vstd::prelude::*;

use crate::gate::Gate;

verus! {

/// One instruction: initialise, measure, or apply a gate.
#[derive(Clone, Copy, Debug, PartialEq, Eq, Structural)]
pub enum Instruction {
    INITIALIZE,
    MEASURE,
    GATE(Gate),
}

impl Instruction {
    /// Number of qubit operands the instruction takes; 0 means any number.
    pub open spec fn operand_count(self) -> nat {
        match self {
            Instruction::INITIALIZE => 0,
            Instruction::MEASURE => 0,
            Instruction::GATE(gate) => gate.arity(),
        }
    }

    pub fn parameter_length(&self) -> (r: usize)
        ensures
            r == self.operand_count(),
    {
        match self {
            Instruction::INITIALIZE => 0,
            Instruction::MEASURE => 0,
            Instruction::GATE(gate) => gate.parameter_length(),
        }
    }
}

} // verus!
