//! A reverse-mode automatic-differentiation engine over scalars, and the
//! small neural-network layer built on it.
//!
//! Arithmetic on scalars is not part of the library. A [`Tape`] is made over
//! a calculator and a comparator that the caller supplies, and everything
//! here is proved for whatever those two compute.

pub mod backward;
pub mod classify;
pub mod graph;
pub mod laws;
pub mod loss;
pub mod nn;
pub mod numbers;
pub mod tape;
pub mod value;
pub mod walker;

pub use classify::{calculate_accuracy, get_predicted_label, one_hot_encode, softmax};
pub use graph::{BinaryOp, Graph, Node, Provenance, UnaryOp, Value};
pub use loss::cross_entropy_loss;
pub use nn::{weight_count, Layer, Neuron, NeuronModel, MLP};
pub use numbers::Calc;
pub use tape::Tape;
