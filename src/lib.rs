//! A register of qubits simulated by one amplitude per basis state.
//!
//! The library enumerates the indices that agree with pinned qubit values,
//! splits the register into the orbits a gate acts on, and moves, transforms
//! and collapses amplitudes, each step proved against a model of the register.
//! It is generic in the amplitude type: the arithmetic on amplitudes is handed
//! in by the caller.
pub mod address_decoder;
pub mod gate;
pub mod instruction;
pub mod layout;
pub mod orbit;
pub mod qubit_counter;
pub mod qvm;
pub mod state;
