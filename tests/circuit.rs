use sumcheck_gkr::circuit::{Circuit, Gate, GateOp};
use sumcheck_gkr::field::Fe;

fn f(val: u64) -> Fe {
    Fe::from_u64(val)
}

#[test]
fn test_single_gate_add() {
    let gate = Gate::new(0, 1, 0, GateOp::Add);
    let circuit = Circuit::new(vec![vec![gate]]);

    let input = vec![f(3), f(4)];
    let mut circuit_clone = circuit.clone();
    let result = circuit_clone.evaluate(input);

    assert_eq!(result, f(7));
}

#[test]
fn test_single_gate_mul() {
    let gate = Gate::new(0, 1, 0, GateOp::Mul);
    let circuit = Circuit::new(vec![vec![gate]]);

    let input = vec![f(3), f(4)];
    let mut circuit_clone = circuit.clone();
    let result = circuit_clone.evaluate(input);

    assert_eq!(result, f(12));
}

#[test]
fn test_empty_circuit() {
    let circuit = Circuit::new(vec![]);
    let input = vec![f(5)];
    let mut circuit_clone = circuit.clone();
    let result = circuit_clone.evaluate(input);

    assert_eq!(result, f(5));
}

#[test]
fn test_two_layer_circuit() {
    // (3 + 4) * (4 * 5) = 140
    let layer1 = vec![Gate::new(0, 1, 0, GateOp::Add), Gate::new(1, 2, 1, GateOp::Mul)];
    let layer2 = vec![Gate::new(0, 1, 0, GateOp::Mul)];

    let circuit = Circuit::new(vec![layer1, layer2]);
    let input = vec![f(3), f(4), f(5)];
    let mut circuit_clone = circuit.clone();
    let result = circuit_clone.evaluate(input);

    assert_eq!(result, f(140));
}

#[test]
fn test_complex_multi_layer_circuit() {
    // A layer only reads the layer just below it, so the raw inputs are not
    // available to the second layer; the circuit is only built here.
    let layer1 = vec![Gate::new(0, 1, 0, GateOp::Add), Gate::new(2, 3, 1, GateOp::Mul)];
    let layer2 = vec![Gate::new(0, 1, 0, GateOp::Mul), Gate::new(0, 1, 1, GateOp::Mul)];
    let layer3 = vec![Gate::new(0, 1, 0, GateOp::Add)];

    let circuit = Circuit::new(vec![layer1, layer2, layer3]);
    let _input = vec![f(2), f(3), f(4), f(5)];
    let _circuit_clone = circuit.clone();
}

#[test]
fn test_add_i_mle_single_bit() {
    let gate_add = Gate::new(0, 1, 0, GateOp::Add);

    let mut circuit = Circuit::new(vec![vec![gate_add]]);
    let result = circuit.add_i_mle(0);

    assert_eq!(result[0].len(), 8);
    assert_eq!(result[1].len(), 8);
    assert_eq!(result[0][1], f(1));
    assert!(result[1].iter().all(|x| *x == f(0)));
}

#[test]
fn test_add_i_mle_two_bit_input() {
    let layer1 = vec![Gate::new(0, 1, 0, GateOp::Add), Gate::new(2, 3, 1, GateOp::Mul)];
    let layer2 = vec![Gate::new(0, 1, 0, GateOp::Mul)];
    let mut circuit = Circuit::new(vec![layer1, layer2]);
    let result = circuit.add_i_mle(0);

    assert_eq!(result[0].len(), 32);
    assert_eq!(result[1].len(), 32);
    assert_eq!(result[0][1], f(1));
    assert_eq!(result[1][27], f(1));
}

#[test]
fn test_add_i_mle_empty_layer() {
    let mut circuit = Circuit::new(vec![vec![]]);
    let result = circuit.add_i_mle(0);

    assert_eq!(result[0].len(), 2);
    assert_eq!(result[1].len(), 2);
    assert!(result[0].iter().all(|x| *x == f(0)));
    assert!(result[1].iter().all(|x| *x == f(0)));
}

#[test]
fn single_add_gate_wiring_has_one_entry() {
    let mut circuit = Circuit::new(vec![vec![Gate::new(0, 1, 0, GateOp::Add)]]);
    let result = circuit.add_i_mle(0);
    // output 0, left 0, right 1 with one bit each: index 0b001
    for k in 0..8 {
        let expected = if k == 1 { f(1) } else { f(0) };
        assert_eq!(result[0][k], expected);
        assert_eq!(result[1][k], f(0));
    }
}

#[test]
fn wiring_of_three_gates_uses_three_input_bits() {
    let layer = vec![
        Gate::new(0, 1, 0, GateOp::Add),
        Gate::new(2, 3, 1, GateOp::Mul),
        Gate::new(4, 5, 2, GateOp::Add),
    ];
    let mut circuit = Circuit::new(vec![layer]);
    let result = circuit.add_i_mle(0);
    // 6 gate inputs need 3 bits, outputs 2 bits: 2^8 entries
    assert_eq!(result[0].len(), 256);
    assert_eq!(result[1].len(), 256);
    let ones_add: Vec<usize> = (0..256).filter(|k| result[0][*k] == f(1)).collect();
    let ones_mul: Vec<usize> = (0..256).filter(|k| result[1][*k] == f(1)).collect();
    assert_eq!(ones_add, vec![1, (2 << 6) | (4 << 3) | 5]);
    assert_eq!(ones_mul, vec![(1 << 6) | (2 << 3) | 3]);
}

#[test]
fn evaluation_keeps_each_layer() {
    let layer1 = vec![Gate::new(0, 1, 0, GateOp::Add), Gate::new(1, 2, 1, GateOp::Mul)];
    let layer2 = vec![Gate::new(0, 1, 0, GateOp::Mul)];
    let mut circuit = Circuit::new(vec![layer1, layer2]);
    let result = circuit.evaluate(vec![f(3), f(4), f(5)]);
    assert_eq!(result, f(140));
    assert_eq!(circuit.get_w_poly(0), vec![f(7), f(20)]);
    assert_eq!(circuit.get_w_poly(1), vec![f(140)]);
}

#[test]
fn unwritten_outputs_are_zero_and_last_write_wins() {
    let layer = vec![
        Gate::new(0, 1, 2, GateOp::Add),
        Gate::new(0, 1, 2, GateOp::Mul),
    ];
    let mut circuit = Circuit::new(vec![layer]);
    let result = circuit.evaluate(vec![f(3), f(4)]);
    assert_eq!(result, f(0));
    assert_eq!(circuit.get_w_poly(0), vec![f(0), f(0), f(12)]);
}

#[test]
fn empty_layer_yields_one_zero() {
    let mut circuit = Circuit::new(vec![vec![]]);
    let result = circuit.evaluate(vec![f(9)]);
    assert_eq!(result, f(0));
    assert_eq!(circuit.get_w_poly(0), vec![f(0)]);
}

#[test]
fn execute_gate_reads_the_layer_below() {
    let mut add = Gate::new(2, 0, 0, GateOp::Add);
    let mut mul = Gate::new(1, 2, 0, GateOp::Mul);
    assert_eq!(add.execute_gate(vec![f(1), f(2), f(3)]), f(4));
    assert_eq!(mul.execute_gate(vec![f(1), f(2), f(3)]), f(6));
}
