//! A simulator of a register of qubits: basis-state indexing, validation of
//! gate operations, and the relabelling of qubits that brings a gate's
//! targets into the low-order positions of the state vector.
pub mod index;
pub mod error;
pub mod operation;
pub mod permutation;
pub mod blocks;
pub mod register;
pub mod menu;
