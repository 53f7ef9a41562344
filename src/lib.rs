//! Structure of a reverse-mode automatic differentiation engine over scalars,
//! and of a multilayer perceptron wired from it.
//!
//! Nodes live in an arena (`Tape`) and are named by their index. A derived node
//! records which operation produced it and from which operands; every operand
//! index is smaller than the index of the node that uses it, so the graph is
//! acyclic by construction. The backward pass visits the nodes reached from a
//! root in decreasing index order, which is a reverse topological order.
use vstd::prelude::*;

pub mod backward;
pub mod nn;
pub mod tape;

pub use nn::{Layer, Mlp, Neuron};
pub use tape::{Op, Tape};
