//! A small numeric core for feed-forward neural networks: an N-dimensional
//! tensor engine with row-major storage, and a stack of dense layers trained
//! by gradient descent.
//!
//! The element type is generic. Shapes, indexing, broadcasting and the choice
//! of multiplication algorithm are proved exactly for every element type; the
//! values are described through the element type's own arithmetic, which the
//! contracts assume only where the type declares that it follows it.

pub mod shape;
pub mod scalar;
pub mod error;
pub mod tensor;
pub mod activations;
pub mod loss;
pub mod cpu_tensor_network;
pub mod pooling;
