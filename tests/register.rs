use num::Complex;
use quant::error::OperationError;
use quant::index::{binary_label, bits_to_index, power_of_two, qubit_value};
use quant::operation::{check_operation, get_duplicate, Operation};
use quant::register::Register;

type C = Complex<f64>;

fn c(re: f64, im: f64) -> C {
    Complex::new(re, im)
}

fn zero() -> C {
    c(0.0, 0.0)
}

fn one() -> C {
    c(1.0, 0.0)
}

fn reg(bits: &[bool]) -> Register<C> {
    Register::new(&bits.to_vec(), zero(), one())
}

fn unary(target: usize, m: [C; 4]) -> Operation<C> {
    Operation::new(vec![target], 2, 2, m.to_vec())
}

fn hadamard(t: usize) -> Operation<C> {
    let h = std::f64::consts::FRAC_1_SQRT_2;
    unary(t, [c(h, 0.0), c(h, 0.0), c(h, 0.0), c(-h, 0.0)])
}

fn not(t: usize) -> Operation<C> {
    unary(t, [zero(), one(), one(), zero()])
}

fn pauli_y(t: usize) -> Operation<C> {
    unary(t, [zero(), c(0.0, -1.0), c(0.0, 1.0), zero()])
}

fn pauli_z(t: usize) -> Operation<C> {
    unary(t, [one(), zero(), zero(), c(-1.0, 0.0)])
}

fn cnot(control: usize, target: usize) -> Operation<C> {
    let (o, l) = (zero(), one());
    Operation::new(
        vec![control, target],
        4,
        4,
        vec![l, o, o, o, o, o, o, l, o, o, l, o, o, l, o, o],
    )
}

/// Multiplies the matrix of `op` with one block of amplitudes.
fn times(op: &Operation<C>, block: &[C]) -> Vec<C> {
    let d = block.len();
    (0..d)
        .map(|row| (0..d).map(|col| op.entry(row, col) * block[col]).sum())
        .collect()
}

fn try_apply(r: &mut Register<C>, op: &Operation<C>) -> Result<(), OperationError> {
    let m = op.clone();
    r.try_apply(op, move |block: Vec<C>| times(&m, &block))
}

/// Measures `target` with the uniform sample `x`.
fn measure_with(r: &mut Register<C>, target: usize, x: f64) -> Result<bool, OperationError> {
    if target >= r.size() {
        return Err(OperationError::InvalidTarget(target));
    }
    let (mut p0, mut p1) = (0.0, 0.0);
    for (i, s) in r.state().iter().enumerate() {
        if qubit_value(i, target) {
            p1 += s.norm_sqr();
        } else {
            p0 += s.norm_sqr();
        }
    }
    let outcome = x >= p0;
    let scale = if outcome { p1 } else { p0 }.sqrt();
    r.try_collapse(target, outcome, zero(), move |a: C| a / scale)?;
    Ok(outcome)
}

fn norm(r: &Register<C>) -> f64 {
    r.state().iter().map(|a| a.norm_sqr()).sum()
}

fn close(a: &Register<C>, b: &Register<C>) -> bool {
    a.state().len() == b.state().len()
        && a.state().iter().zip(b.state()).all(|(x, y)| (x - y).norm() < 1e-8)
}

#[test]
fn invalid_target_returns_error() {
    let mut register = reg(&[false, false]);
    let res1 = try_apply(&mut register, &cnot(1, 2)).unwrap_err();
    let _ = try_apply(&mut register, &cnot(1, 1)).unwrap_err();
    try_apply(&mut register, &cnot(0, 1)).unwrap();

    assert_eq!(res1, OperationError::InvalidTarget(2));
}

#[test]
fn measure_on_zero_state_gives_false() {
    let mut register = reg(&[false]);
    let input = measure_with(&mut register, 0, 0.5).unwrap();
    let expected = false;

    assert_eq!(input, expected);
}

#[test]
fn size_and_length_follow_input() {
    for n in 0..6 {
        let r = reg(&vec![true; n]);
        assert_eq!(r.size(), n);
        assert_eq!(r.state().len(), 1 << n);
    }
}

#[test]
fn input_bit_k_is_index_bit_k() {
    let r = Register::new(&vec![true, false, true], 0u8, 1u8);
    assert_eq!(r.state(), &vec![0, 0, 0, 0, 0, 1, 0, 0]);
}

#[test]
fn classical_register_measures_its_bits() {
    let bits = [true, false, true, true];
    for x in [0.0, 0.3, 0.999] {
        let mut r = reg(&bits);
        for (k, b) in bits.iter().enumerate() {
            assert_eq!(measure_with(&mut r, k, x).unwrap(), *b);
        }
    }
}

#[test]
fn self_inverse_gates_twice_restore_state() {
    let gates: [fn(usize) -> Operation<C>; 4] = [hadamard, not, pauli_y, pauli_z];
    for g in gates {
        for t in 0..3 {
            for bits in [[false, false, false], [true, false, true], [false, true, true]] {
                let mut r = reg(&bits);
                let before = r.clone();
                try_apply(&mut r, &g(t)).unwrap();
                try_apply(&mut r, &g(t)).unwrap();
                assert!(close(&r, &before));
            }
        }
    }
}

#[test]
fn duplicate_target_rejected() {
    let mut r = reg(&[false, false, false]);
    assert_eq!(try_apply(&mut r, &cnot(1, 1)), Err(OperationError::InvalidTarget(1)));
}

#[test]
fn out_of_range_target_rejected_state_unchanged() {
    let mut r = reg(&[true, false]);
    try_apply(&mut r, &hadamard(0)).unwrap();
    let before = r.clone();
    assert_eq!(try_apply(&mut r, &cnot(1, 2)), Err(OperationError::InvalidTarget(2)));
    assert_eq!(r.state(), before.state());
    assert_eq!(measure_with(&mut r, 2, 0.5), Err(OperationError::InvalidTarget(2)));
    assert_eq!(r.state(), before.state());
}

#[test]
fn dimension_mismatch_rejected() {
    let mut r = reg(&[false, false]);
    let wide = Operation::new(vec![0], 2, 3, vec![one(); 6]);
    assert_eq!(try_apply(&mut r, &wide), Err(OperationError::InvalidDimensions(2, 3)));
    let big = Operation::new(vec![0], 4, 4, vec![one(); 16]);
    assert_eq!(try_apply(&mut r, &big), Err(OperationError::InvalidDimensions(4, 4)));
    let small = Operation::new(vec![0, 1], 2, 2, vec![one(); 4]);
    assert_eq!(try_apply(&mut r, &small), Err(OperationError::InvalidDimensions(2, 2)));
}

#[test]
fn not_then_measure_gives_true() {
    let mut r = reg(&[false]);
    try_apply(&mut r, &not(0)).unwrap();
    assert_eq!(r.state(), &vec![zero(), one()]);
    for x in [0.0, 0.5, 0.999] {
        let mut m = r.clone();
        assert!(measure_with(&mut m, 0, x).unwrap());
    }
}

#[test]
fn norm_kept_by_gates_and_measurement() {
    let mut r = reg(&[false, true, false]);
    try_apply(&mut r, &hadamard(0)).unwrap();
    try_apply(&mut r, &cnot(0, 2)).unwrap();
    try_apply(&mut r, &pauli_y(1)).unwrap();
    assert!((norm(&r) - 1.0).abs() < 1e-8);
    let b = measure_with(&mut r, 2, 0.7).unwrap();
    assert!(b);
    assert!((norm(&r) - 1.0).abs() < 1e-8);
    // Entangled by the CNOT: qubit 0 now agrees with qubit 2.
    assert!(measure_with(&mut r, 0, 0.0).unwrap());
}

#[test]
fn bell_state_amplitudes() {
    let mut r = reg(&[false, false]);
    try_apply(&mut r, &hadamard(0)).unwrap();
    try_apply(&mut r, &cnot(0, 1)).unwrap();
    let h = std::f64::consts::FRAC_1_SQRT_2;
    let expected = [h, 0.0, 0.0, h];
    for (a, e) in r.state().iter().zip(expected) {
        assert!((a - c(e, 0.0)).norm() < 1e-12);
    }
}

#[test]
fn cnot_control_is_first_target() {
    let mut r = reg(&[false, true, false]);
    try_apply(&mut r, &cnot(1, 2)).unwrap();
    // Qubits 1 and 2 are set: index 2 + 4.
    assert!((r.state()[6] - one()).norm() < 1e-12);
    let mut s = reg(&[false, true, false]);
    try_apply(&mut s, &cnot(2, 1)).unwrap();
    assert!((s.state()[2] - one()).norm() < 1e-12);
}

#[test]
fn measuring_a_superposition_collapses_it() {
    let mut r = reg(&[false]);
    try_apply(&mut r, &hadamard(0)).unwrap();
    let mut low = r.clone();
    assert!(!measure_with(&mut low, 0, 0.2).unwrap());
    assert_eq!(low.state()[1], zero());
    assert!((low.state()[0] - one()).norm() < 1e-12);
    let mut high = r.clone();
    assert!(measure_with(&mut high, 0, 0.8).unwrap());
    assert_eq!(high.state()[0], zero());
    assert!((high.state()[1] - one()).norm() < 1e-12);
}

#[test]
fn relabelling_moves_targets_to_low_qubits() {
    let mut r = Register::new(&vec![false, false, false], 0u32, 1u32);
    for i in 0..8 {
        r.set_amplitude(i, i as u32);
    }
    let op = Operation::new(vec![2, 0], 4, 4, vec![0u32; 16]);
    let p = r.try_permuted_state(&op).unwrap();
    assert_eq!(p, vec![0, 4, 1, 5, 2, 6, 3, 7]);
    let mut s = Register::new(&vec![false, false, false], 0u32, 1u32);
    s.set_permuted_state(op.targets(), &p);
    assert_eq!(s.state(), &(0..8).collect::<Vec<u32>>());
}

#[test]
fn blocks_go_through_the_product_once_each() {
    let mut r = Register::new(&vec![false, false, false], 0u32, 1u32);
    for i in 0..8 {
        r.set_amplitude(i, i as u32);
    }
    let op = Operation::new(vec![2, 0], 4, 4, vec![0u32; 16]);
    // Reverse each block of four: in new order [0, 4, 1, 5 | 2, 6, 3, 7].
    r.try_apply(&op, |b: Vec<u32>| b.into_iter().rev().collect()).unwrap();
    // New block [5, 1, 4, 0 | 7, 3, 6, 2] written back in the original order.
    assert_eq!(r.state(), &vec![5, 4, 7, 6, 1, 0, 3, 2]);
    let mut s = Register::new(&vec![false, false], 0u32, 1u32);
    assert_eq!(s.try_apply(&op, |b: Vec<u32>| b), Err(OperationError::InvalidTarget(2)));
}

#[test]
fn collapse_zeroes_disagreeing_states() {
    let mut r = Register::new(&vec![false, false], 0i32, 1i32);
    for i in 0..4 {
        r.set_amplitude(i, 10 + i as i32);
    }
    assert_eq!(r.try_collapse(1, true, 0, |a: i32| 2 * a), Ok(()));
    assert_eq!(r.state(), &vec![0, 0, 24, 26]);
    assert_eq!(r.try_collapse(5, true, 0, |a: i32| a), Err(OperationError::InvalidTarget(5)));
    assert_eq!(r.state(), &vec![0, 0, 24, 26]);
    assert_eq!(r.try_collapse(0, false, 0, |a: i32| a + 1), Ok(()));
    assert_eq!(r.state(), &vec![1, 0, 25, 0]);
}

#[test]
fn least_duplicate_is_reported() {
    assert_eq!(get_duplicate(&vec![3, 1, 3, 1]), Some(1));
    assert_eq!(get_duplicate(&vec![4, 2, 4]), Some(4));
    assert_eq!(get_duplicate(&vec![0, 1, 2]), None);
    assert_eq!(get_duplicate(&vec![]), None);
}

#[test]
fn check_order_is_shape_duplicates_range() {
    assert_eq!(check_operation(&vec![5, 5], 2, 2, 3), Err(OperationError::InvalidDimensions(2, 2)));
    assert_eq!(check_operation(&vec![5, 5], 4, 4, 3), Err(OperationError::InvalidTarget(5)));
    assert_eq!(check_operation(&vec![1, 7, 5], 8, 8, 3), Err(OperationError::InvalidTarget(7)));
    assert_eq!(check_operation(&vec![2, 0], 4, 4, 3), Ok(()));
    assert_eq!(check_operation(&vec![], 1, 1, 0), Ok(()));
}

#[test]
fn index_helpers() {
    assert_eq!(power_of_two(0), 1);
    assert_eq!(power_of_two(10), 1024);
    assert_eq!(bits_to_index(&vec![true, true, false, true]), 11);
    assert_eq!(bits_to_index(&vec![]), 0);
    assert!(qubit_value(11, 3));
    assert!(!qubit_value(11, 2));
    assert!(!qubit_value(0, 63));
}

#[test]
fn exact_self_inverse_block_product_twice_restores() {
    let mut r = Register::new(&vec![true, false, true], 0i64, 1i64);
    for i in 0..8 {
        r.set_amplitude(i, 3 * i as i64 - 5);
    }
    let before = r.state().clone();
    let op = Operation::new(vec![1, 2], 4, 4, vec![0i64; 16]);
    // Swaps the middle two amplitudes of each block and negates the ends.
    let flip = |b: Vec<i64>| vec![-b[0], b[2], b[1], -b[3]];
    r.try_apply(&op, flip).unwrap();
    assert_ne!(r.state(), &before);
    r.try_apply(&op, flip).unwrap();
    assert_eq!(r.state(), &before);
}

#[test]
fn labels_are_padded_binary() {
    let s = |i, w| binary_label(i, w).into_iter().collect::<String>();
    assert_eq!(s(5, 4), "0101");
    assert_eq!(s(0, 3), "000");
    assert_eq!(s(7, 3), "111");
    assert_eq!(s(0, 0), "0");
}
