use qvm::gate::{cswap, swap, Gate};
use qvm::instruction::Instruction;

#[test]
fn gate_arities() {
    assert_eq!(Gate::H.parameter_length(), 1);
    assert_eq!(Gate::SWAP.parameter_length(), 2);
    assert_eq!(Gate::CSWAP.parameter_length(), 3);
}

#[test]
fn instruction_operand_counts() {
    assert_eq!(Instruction::INITIALIZE.parameter_length(), 0);
    assert_eq!(Instruction::MEASURE.parameter_length(), 0);
    assert_eq!(Instruction::GATE(Gate::SWAP).parameter_length(), 2);
    assert_eq!(Instruction::GATE(Gate::CSWAP).parameter_length(), 3);
}

#[test]
fn swap_exchanges_middle_entries() {
    assert_eq!(swap(vec![10, 20, 30, 40]), vec![10, 30, 20, 40]);
}

#[test]
fn cswap_exchanges_five_and_six() {
    assert_eq!(cswap(vec![0, 1, 2, 3, 4, 5, 6, 7]), vec![0, 1, 2, 3, 4, 6, 5, 7]);
}

#[test]
fn permutation_gates_keep_total_magnitude() {
    let v: Vec<f64> = vec![0.1, 0.7, 0.2, 0.5];
    let total = |x: &Vec<f64>| x.iter().map(|a| a * a).sum::<f64>();
    assert!((total(&swap(v.clone())) - total(&v)).abs() < 1e-12);
    let w: Vec<f64> = vec![0.1, 0.2, 0.3, 0.4, 0.5, 0.6, 0.7, 0.8];
    assert!((total(&cswap(w.clone())) - total(&w)).abs() < 1e-12);
}
