//! The verified core of a small PyTorch-style tensor runtime: shapes and
//! broadcasting, strided views and their gathers, the index plans of
//! concatenation, selection, one-hot encoding and reductions, convolution and
//! pooling geometry, the post-order that autograd walks, a seeded generator,
//! the error type with its messages, and the host-side decisions of the CUDA
//! backend (generated kernel sources, launch and cuBLAS parameters). Float
//! arithmetic runs outside, on the plans these functions compute.

pub mod cuda;
pub mod dense;
pub mod device;
pub mod dispatch;
pub mod dtype;
pub mod error;
pub mod geometry;
pub mod graph;
pub mod kernels;
pub mod layout;
pub mod reduce;
pub mod rng;
pub mod shape;
pub mod text;
