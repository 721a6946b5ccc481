//! The choices offered by the interactive front end, in the order shown.
use vstd::prelude::*;

verus! {

/// What to do next with the register.
#[derive(Debug, Clone, Copy, PartialEq, Eq, Structural)]
pub enum Choice {
    Show,
    Apply,
}

impl Choice {
    pub fn choices() -> (r: Vec<Choice>)
        ensures
            r@ == seq![Choice::Show, Choice::Apply],
    {
        let r = vec![Choice::Show, Choice::Apply];
        assert(r@ =~= seq![Choice::Show, Choice::Apply]);
        r
    }

    /// The label shown for this choice.
    pub fn name(&self) -> (r: &'static str)
        ensures
            r@ == match self {
                Choice::Show => "Show"@,
                Choice::Apply => "Apply"@,
            },
    {
        match self {
            Choice::Show => "Show",
            Choice::Apply => "Apply",
        }
    }
}

/// How many qubits the operation to apply acts on.
#[derive(Debug, Clone, Copy, PartialEq, Eq, Structural)]
pub enum OperationType {
    Unary,
    Binary,
}

impl OperationType {
    pub fn types() -> (r: Vec<OperationType>)
        ensures
            r@ == seq![OperationType::Unary, OperationType::Binary],
    {
        let r = vec![OperationType::Unary, OperationType::Binary];
        assert(r@ =~= seq![OperationType::Unary, OperationType::Binary]);
        r
    }

    /// The number of targets of an operation of this type.
    pub fn arity(&self) -> (r: usize)
        ensures
            r == match self {
                OperationType::Unary => 1usize,
                OperationType::Binary => 2usize,
            },
    {
        match self {
            OperationType::Unary => 1,
            OperationType::Binary => 2,
        }
    }

    /// The label shown for this type.
    pub fn name(&self) -> (r: &'static str)
        ensures
            r@ == match self {
                OperationType::Unary => "Unary"@,
                OperationType::Binary => "Binary"@,
            },
    {
        match self {
            OperationType::Unary => "Unary",
            OperationType::Binary => "Binary",
        }
    }
}

/// The single-qubit gates on offer.
#[derive(Debug, Clone, Copy, PartialEq, Eq, Structural)]
pub enum UnaryOperation {
    Identity,
    Hadamard,
    Phase,
    NOT,
    PauliY,
    PauliZ,
}

impl UnaryOperation {
    pub fn operations() -> (r: Vec<UnaryOperation>)
        ensures
            r@ == seq![
                UnaryOperation::Identity,
                UnaryOperation::Hadamard,
                UnaryOperation::Phase,
                UnaryOperation::NOT,
                UnaryOperation::PauliY,
                UnaryOperation::PauliZ,
            ],
    {
        let r = vec![
            UnaryOperation::Identity,
            UnaryOperation::Hadamard,
            UnaryOperation::Phase,
            UnaryOperation::NOT,
            UnaryOperation::PauliY,
            UnaryOperation::PauliZ,
        ];
        assert(r@ =~= seq![
            UnaryOperation::Identity,
            UnaryOperation::Hadamard,
            UnaryOperation::Phase,
            UnaryOperation::NOT,
            UnaryOperation::PauliY,
            UnaryOperation::PauliZ,
        ]);
        r
    }

    /// The label shown for this gate.
    pub fn name(&self) -> (r: &'static str)
        ensures
            r@ == match self {
                UnaryOperation::Identity => "Identity"@,
                UnaryOperation::Hadamard => "Hadamard"@,
                UnaryOperation::Phase => "Phase"@,
                UnaryOperation::NOT => "NOT"@,
                UnaryOperation::PauliY => "PauliY"@,
                UnaryOperation::PauliZ => "PauliZ"@,
            },
    {
        match self {
            UnaryOperation::Identity => "Identity",
            UnaryOperation::Hadamard => "Hadamard",
            UnaryOperation::Phase => "Phase",
            UnaryOperation::NOT => "NOT",
            UnaryOperation::PauliY => "PauliY",
            UnaryOperation::PauliZ => "PauliZ",
        }
    }
}

/// The two-qubit gates on offer.
#[derive(Debug, Clone, Copy, PartialEq, Eq, Structural)]
pub enum BinaryOperation {
    CNOT,
    Swap,
}

impl BinaryOperation {
    pub fn operations() -> (r: Vec<BinaryOperation>)
        ensures
            r@ == seq![BinaryOperation::CNOT, BinaryOperation::Swap],
    {
        let r = vec![BinaryOperation::CNOT, BinaryOperation::Swap];
        assert(r@ =~= seq![BinaryOperation::CNOT, BinaryOperation::Swap]);
        r
    }

    /// The label shown for this gate.
    pub fn name(&self) -> (r: &'static str)
        ensures
            r@ == match self {
                BinaryOperation::CNOT => "CNOT"@,
                BinaryOperation::Swap => "Swap"@,
            },
    {
        match self {
            BinaryOperation::CNOT => "CNOT",
            BinaryOperation::Swap => "Swap",
        }
    }
}

/// The qubit indices offered when choosing a target: `0..size` in order.
pub fn qubit_options(size: usize) -> (r: Vec<usize>)
    ensures
        r@ == Seq::new(size as nat, |i: int| i as usize),
{
    let mut r: Vec<usize> = Vec::new();
    let mut i: usize = 0;
    while i < size
        invariant
            i <= size,
            r@ == Seq::new(i as nat, |k: int| k as usize),
        decreases size - i,
    {
        r.push(i);
        proof {
            assert(r@ =~= Seq::new((i + 1) as nat, |k: int| k as usize));
        }
        i = i + 1;
    }
    r
}

} // verus!
