//! Dense matrices with verified shape and arithmetic contracts, a pool of
//! reusable buffers keyed by element count, a product that runs on buffers
//! borrowed from such a pool, and a feed-forward network trained by
//! backpropagation on top of the matrix engine.

pub mod matrix;
pub mod integer;
pub mod pool;
pub mod pooled;
pub mod nn;
