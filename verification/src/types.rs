//! Identifiers and errors of circuits.

use vstd::prelude::*;

use crate::config::{Poseidon1Config, Poseidon2Config};

verus! {

/// A slot of the witness table.
#[derive(Clone, Copy, Debug, PartialEq, Eq, Hash, PartialOrd, Ord, Structural)]
pub struct WitnessId(pub u32);

/// An expression of a circuit under construction.
#[derive(Clone, Copy, Debug, PartialEq, Eq, Hash, PartialOrd, Ord, Structural)]
pub struct ExprId(pub usize);

/// An expression that a verifier circuit works on.
pub type Target = ExprId;

/// A non-primitive operation of a circuit.
#[derive(Clone, Copy, Debug, PartialEq, Eq, Hash, PartialOrd, Ord, Structural)]
pub struct NonPrimitiveOpId(pub usize);

/// The table that backs a non-primitive operation.
#[derive(Clone, Copy, Debug, PartialEq, Eq, Hash, Structural)]
pub enum NpoTypeId {
    Poseidon1Perm(Poseidon1Config),
    Poseidon2Perm(Poseidon2Config),
}

impl NpoTypeId {
    pub fn poseidon1_perm(config: Poseidon1Config) -> (r: Self)
        ensures
            r == NpoTypeId::Poseidon1Perm(config),
    {
        NpoTypeId::Poseidon1Perm(config)
    }

    pub fn poseidon2_perm(config: Poseidon2Config) -> (r: Self)
        ensures
            r == NpoTypeId::Poseidon2Perm(config),
    {
        NpoTypeId::Poseidon2Perm(config)
    }
}

/// Failures while a circuit is executed.
#[derive(Clone, Debug, PartialEq, Eq)]
pub enum CircuitError {
    /// An operation has the wrong number of input or output vectors.
    NonPrimitiveOpLayoutMismatch { op: NpoTypeId, expected: String, got: usize },
    /// An operation reads a value that it does not accept.
    IncorrectNonPrimitiveOpPrivateData {
        op: NpoTypeId,
        operation_index: NonPrimitiveOpId,
        expected: String,
        got: String,
    },
    /// A slot of an operation has the wrong number of elements.
    IncorrectNonPrimitiveOpPrivateDataSize { op: NpoTypeId, expected: String, got: usize },
    /// No permutation is configured for the operation.
    InvalidNonPrimitiveOpConfiguration { op: NpoTypeId },
    /// A Poseidon1 row continues a chain that was not started.
    Poseidon1ChainMissingPreviousState { operation_index: NonPrimitiveOpId },
    /// A Poseidon2 row continues a chain that was not started.
    Poseidon2ChainMissingPreviousState { operation_index: NonPrimitiveOpId },
    /// A witness slot is read before it is set.
    WitnessNotSet { witness_id: WitnessId },
    /// A witness slot is outside the table.
    WitnessIdOutOfBounds { witness_id: WitnessId },
    /// A witness slot is set to two different values.
    WitnessConflict { witness_id: WitnessId },
}

/// A circuit failure with its texts as sequences of characters.
pub enum CircuitFailure {
    LayoutMismatch { op: NpoTypeId, expected: Seq<char>, got: nat },
    IncorrectData {
        op: NpoTypeId,
        operation_index: NonPrimitiveOpId,
        expected: Seq<char>,
        got: Seq<char>,
    },
    IncorrectDataSize { op: NpoTypeId, expected: Seq<char>, got: nat },
    InvalidConfiguration { op: NpoTypeId },
    Chain1Missing { operation_index: NonPrimitiveOpId },
    Chain2Missing { operation_index: NonPrimitiveOpId },
    WitnessNotSet { witness_id: WitnessId },
    WitnessIdOutOfBounds { witness_id: WitnessId },
    WitnessConflict { witness_id: WitnessId },
}

impl View for CircuitError {
    type V = CircuitFailure;

    open spec fn view(&self) -> CircuitFailure {
        match *self {
            CircuitError::NonPrimitiveOpLayoutMismatch {
                op,
                expected,
                got,
            } => CircuitFailure::LayoutMismatch { op, expected: expected@, got: got as nat },
            CircuitError::IncorrectNonPrimitiveOpPrivateData {
                op,
                operation_index,
                expected,
                got,
            } => CircuitFailure::IncorrectData {
                op,
                operation_index,
                expected: expected@,
                got: got@,
            },
            CircuitError::IncorrectNonPrimitiveOpPrivateDataSize {
                op,
                expected,
                got,
            } => CircuitFailure::IncorrectDataSize { op, expected: expected@, got: got as nat },
            CircuitError::InvalidNonPrimitiveOpConfiguration {
                op,
            } => CircuitFailure::InvalidConfiguration { op },
            CircuitError::Poseidon1ChainMissingPreviousState {
                operation_index,
            } => CircuitFailure::Chain1Missing { operation_index },
            CircuitError::Poseidon2ChainMissingPreviousState {
                operation_index,
            } => CircuitFailure::Chain2Missing { operation_index },
            CircuitError::WitnessNotSet { witness_id } => CircuitFailure::WitnessNotSet {
                witness_id,
            },
            CircuitError::WitnessIdOutOfBounds {
                witness_id,
            } => CircuitFailure::WitnessIdOutOfBounds { witness_id },
            CircuitError::WitnessConflict { witness_id } => CircuitFailure::WitnessConflict {
                witness_id,
            },
        }
    }
}

} // verus!
