//! Tensor layout, autograd bookkeeping, a binned GPU slab cache and data
//! loading, verified with Verus.
pub mod shape;
pub mod kernels;
pub mod arena;
pub mod device;
pub mod tensor;
pub mod autograd;
pub mod data;
pub mod nn;
pub mod ops;
pub mod binary;
