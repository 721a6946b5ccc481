use quant::menu::{qubit_options, BinaryOperation, Choice, OperationType, UnaryOperation};

#[test]
fn menu_entries_in_order() {
    assert_eq!(Choice::choices(), vec![Choice::Show, Choice::Apply]);
    assert_eq!(OperationType::types(), vec![OperationType::Unary, OperationType::Binary]);
    assert_eq!(UnaryOperation::operations().len(), 6);
    assert_eq!(UnaryOperation::operations()[3], UnaryOperation::NOT);
    assert_eq!(BinaryOperation::operations(), vec![BinaryOperation::CNOT, BinaryOperation::Swap]);
}

#[test]
fn menu_labels_and_arity() {
    assert_eq!(Choice::Apply.name(), "Apply");
    assert_eq!(OperationType::Binary.name(), "Binary");
    assert_eq!(OperationType::Binary.arity(), 2);
    assert_eq!(OperationType::Unary.arity(), 1);
    assert_eq!(UnaryOperation::PauliY.name(), "PauliY");
    assert_eq!(BinaryOperation::Swap.name(), "Swap");
}

#[test]
fn qubit_options_count_up() {
    assert_eq!(qubit_options(4), vec![0, 1, 2, 3]);
    assert!(qubit_options(0).is_empty());
}
