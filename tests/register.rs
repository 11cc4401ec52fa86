use num::complex::Complex64;
use qvm::gate::{cswap, swap, Gate};
use qvm::qvm::QVM;
use qvm::state::State;

fn c(re: f64, im: f64) -> Complex64 {
    Complex64 { re, im }
}

fn register(n: usize) -> QVM<Complex64> {
    QVM::new(n, c(0.0, 0.0), c(1.0, 0.0))
}

fn hadamard(v: Vec<Complex64>) -> Vec<Complex64> {
    let s = 1.0 / 2.0f64.sqrt();
    vec![(v[0] + v[1]) * s, (v[0] - v[1]) * s]
}

fn gate_function(gate: Gate) -> fn(Vec<Complex64>) -> Vec<Complex64> {
    match gate {
        Gate::H => hadamard,
        Gate::SWAP => swap::<Complex64>,
        Gate::CSWAP => cswap::<Complex64>,
    }
}

fn norm(q: &QVM<Complex64>) -> f64 {
    q.amplitudes().iter().map(|a| a.norm_sqr()).sum()
}

fn close(a: Complex64, b: Complex64) -> bool {
    (a - b).norm() < 1e-9
}

/// Measures with a fixed draw `r` in place of a random one.
fn measure_with(q: &mut QVM<Complex64>, address: usize, r: f64) -> Option<u8> {
    if address >= q.get_bits() || !q.is_superposition(address) {
        return q.measure(address, 0, |a| a);
    }
    let amps = q.amplitudes().clone();
    let mut rest = r;
    let mut sampled = amps.len();
    for (i, a) in amps.iter().enumerate() {
        rest -= a.norm_sqr();
        if rest <= 0.0 {
            sampled = i;
            break;
        }
    }
    assert!(sampled < amps.len());
    let measured = (sampled >> address) & 1;
    let removed: f64 = amps
        .iter()
        .enumerate()
        .filter(|(i, _)| (i >> address) & 1 != measured)
        .map(|(_, a)| a.norm_sqr())
        .sum();
    let weight = 1.0 / (1.0 - removed).sqrt();
    q.measure(address, sampled, move |a: Complex64| a * weight)
}

#[test]
fn new_register_starts_at_index_zero() {
    let q = register(2);
    assert_eq!(q.get_bits(), 2);
    assert!(close(q.amplitude(0), c(1.0, 0.0)));
    for i in 1..4 {
        assert!(close(q.amplitude(i), c(0.0, 0.0)));
    }
    assert!(!q.is_superposition(0));
    assert!(!q.is_superposition(1));
    assert!(q.is_superposition(2));
}

#[test]
fn scenario_promote_moves_amplitude() {
    let mut q = register(1);
    assert_eq!(q.set_superposition(0, 1), Some(true));
    assert!(close(q.amplitude(1), c(1.0, 0.0)));
    assert!(close(q.amplitude(0), c(0.0, 0.0)));
    assert!(q.is_superposition(0));
}

#[test]
fn scenario_hadamard_then_measure() {
    let mut q = register(1);
    q.set_superposition(0, 1);
    assert_eq!(q.pass_gate(Gate::H, vec![0], gate_function(Gate::H)), Some(true));
    let s = 1.0 / 2.0f64.sqrt();
    assert!(close(q.amplitude(0), c(s, 0.0)));
    assert!(close(q.amplitude(1), c(-s, 0.0)));
    assert_eq!(measure_with(&mut q, 0, 0.3), Some(0));
    assert!(close(q.amplitude(0), c(1.0, 0.0)));
    assert!(close(q.amplitude(1), c(0.0, 0.0)));
    assert!(!q.is_superposition(0));
}

#[test]
fn scenario_three_qubits_hadamard_on_basis_state() {
    let mut q = register(3);
    for a in 0..3 {
        assert_eq!(q.set_superposition(a, 1), Some(true));
    }
    assert!(close(q.amplitude(7), c(1.0, 0.0)));
    assert_eq!(q.pass_gate(Gate::H, vec![0], gate_function(Gate::H)), Some(true));
    let s = 1.0 / 2.0f64.sqrt();
    assert!(close(q.amplitude(6), c(s, 0.0)));
    assert!(close(q.amplitude(7), c(-s, 0.0)));
    for i in 0..6 {
        assert!(close(q.amplitude(i), c(0.0, 0.0)));
    }
}

#[test]
fn scenario_three_qubits_promoted_in_decreasing_order() {
    let mut q = register(3);
    for a in (0..3).rev() {
        assert_eq!(q.set_superposition(a, 1), Some(true));
    }
    assert!(close(q.amplitude(7), c(1.0, 0.0)));
}

#[test]
fn promote_twice_with_matching_value_keeps_amplitudes() {
    let mut q = register(2);
    let before = q.amplitudes().clone();
    assert_eq!(q.set_superposition(1, 0), Some(true));
    assert_eq!(q.amplitudes(), &before);
    assert!(q.is_superposition(1));
    assert_eq!(q.set_superposition(1, 0), Some(false));
    assert_eq!(q.amplitudes(), &before);
}

#[test]
fn promote_rejects_bad_arguments() {
    let mut q = register(2);
    assert_eq!(q.set_superposition(2, 0), None);
    assert_eq!(q.set_superposition(0, 2), None);
    assert!(!q.is_superposition(0));
}

#[test]
fn measure_rejects_bad_arguments() {
    let mut q = register(2);
    assert_eq!(measure_with(&mut q, 5, 0.5), None);
    assert_eq!(measure_with(&mut q, 0, 0.5), None);
}

#[test]
fn measure_collapses_and_renormalises() {
    let mut q = register(2);
    q.set_superposition(0, 0);
    q.set_superposition(1, 0);
    q.pass_gate(Gate::H, vec![0], gate_function(Gate::H));
    q.pass_gate(Gate::H, vec![1], gate_function(Gate::H));
    for i in 0..4 {
        assert!(close(q.amplitude(i), c(0.5, 0.0)));
    }
    // draws past the first three quarters select index 3, whose bit 1 is 1
    assert_eq!(measure_with(&mut q, 1, 0.8), Some(1));
    let s = 1.0 / 2.0f64.sqrt();
    assert!(close(q.amplitude(0), c(0.0, 0.0)));
    assert!(close(q.amplitude(1), c(0.0, 0.0)));
    assert!(close(q.amplitude(2), c(s, 0.0)));
    assert!(close(q.amplitude(3), c(s, 0.0)));
    assert!((norm(&q) - 1.0).abs() < 1e-9);
    assert!(!q.is_superposition(1));
}

#[test]
fn pass_gate_rejects_bad_addresses() {
    let mut q = register(3);
    for a in 0..3 {
        q.set_superposition(a, 0);
    }
    assert_eq!(q.pass_gate(Gate::SWAP, vec![0, 0], gate_function(Gate::SWAP)), None);
    assert_eq!(q.pass_gate(Gate::SWAP, vec![0, 3], gate_function(Gate::SWAP)), None);
    assert_eq!(q.pass_gate(Gate::SWAP, vec![0], gate_function(Gate::SWAP)), None);
}

#[test]
fn pass_gate_needs_superposed_qubits() {
    let mut q = register(2);
    q.set_superposition(0, 0);
    assert_eq!(q.pass_gate(Gate::SWAP, vec![0, 1], gate_function(Gate::SWAP)), Some(false));
}

#[test]
fn swap_gate_exchanges_qubits() {
    let mut q = register(3);
    q.set_superposition(0, 1);
    q.set_superposition(1, 0);
    q.set_superposition(2, 0);
    assert!(close(q.amplitude(1), c(1.0, 0.0)));
    assert_eq!(q.pass_gate(Gate::SWAP, vec![0, 2], gate_function(Gate::SWAP)), Some(true));
    assert!(close(q.amplitude(4), c(1.0, 0.0)));
    assert!(close(q.amplitude(1), c(0.0, 0.0)));
}

#[test]
fn cswap_gate_acts_only_with_control_set() {
    let mut q = register(3);
    q.set_superposition(0, 1);
    q.set_superposition(1, 0);
    q.set_superposition(2, 1);
    // index 5: qubits 0 and 2 are 1; control is the last address
    assert!(close(q.amplitude(5), c(1.0, 0.0)));
    assert_eq!(q.pass_gate(Gate::CSWAP, vec![0, 1, 2], gate_function(Gate::CSWAP)), Some(true));
    assert!(close(q.amplitude(6), c(1.0, 0.0)));
    assert!(close(q.amplitude(5), c(0.0, 0.0)));

    let mut p = register(3);
    p.set_superposition(0, 1);
    p.set_superposition(1, 0);
    p.set_superposition(2, 0);
    p.pass_gate(Gate::CSWAP, vec![0, 1, 2], gate_function(Gate::CSWAP));
    assert!(close(p.amplitude(1), c(1.0, 0.0)));
}

#[test]
fn norm_stays_one_through_a_program() {
    let mut q = register(3);
    for a in 0..3 {
        q.set_superposition(a, 1);
    }
    for a in 0..3 {
        q.pass_gate(Gate::H, vec![a], gate_function(Gate::H));
    }
    assert!((norm(&q) - 1.0).abs() < 1e-9);
    let v = measure_with(&mut q, 0, 0.4).unwrap();
    assert!((norm(&q) - 1.0).abs() < 1e-9);
    q.set_superposition(0, v);
    q.pass_gate(Gate::SWAP, vec![0, 2], gate_function(Gate::SWAP));
    assert!((norm(&q) - 1.0).abs() < 1e-9);
    let w = measure_with(&mut q, 0, 0.9).unwrap();
    for i in 0..8usize {
        if (i & 1) as u8 != w {
            assert_eq!(q.amplitude(i), c(0.0, 0.0));
        }
    }
    assert!((norm(&q) - 1.0).abs() < 1e-9);
}

#[test]
fn state_tag_predicates() {
    assert!(State::SUPERPOSITION.is_superposition());
    assert!(!State::ZERO.is_superposition());
    assert!(State::ZERO.is_collapsed_to(0));
    assert!(!State::ZERO.is_collapsed_to(1));
    assert!(State::ONE.is_collapsed_to(1));
    assert!(!State::SUPERPOSITION.is_collapsed_to(0));
    assert!(!State::SUPERPOSITION.is_collapsed_to(1));
}

#[test]
fn promote_at_matching_value_allows_gates() {
    let mut q = register(1);
    assert_eq!(q.set_superposition(0, 0), Some(true));
    assert!(close(q.amplitude(0), c(1.0, 0.0)));
    assert_eq!(q.pass_gate(Gate::H, vec![0], gate_function(Gate::H)), Some(true));
    let s = 1.0 / 2.0f64.sqrt();
    assert!(close(q.amplitude(0), c(s, 0.0)));
    assert!(close(q.amplitude(1), c(s, 0.0)));
}

#[test]
fn hadamard_on_middle_qubit_touches_each_orbit_once() {
    let mut q = register(3);
    q.set_superposition(0, 1);
    q.set_superposition(1, 0);
    q.set_superposition(2, 1);
    assert_eq!(q.pass_gate(Gate::H, vec![1], gate_function(Gate::H)), Some(true));
    let s = 1.0 / 2.0f64.sqrt();
    assert!(close(q.amplitude(5), c(s, 0.0)));
    assert!(close(q.amplitude(7), c(s, 0.0)));
    for i in [0usize, 1, 2, 3, 4, 6] {
        assert!(close(q.amplitude(i), c(0.0, 0.0)));
    }
}
