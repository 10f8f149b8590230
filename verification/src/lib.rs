//! Verified building blocks of a tensor engine: lazily fused streams of
//! operations, attention and its gradients, activation checkpointing and the
//! planning of device kernels.

pub mod attention;
pub mod backend;
pub mod blocked;
pub mod census;
pub mod checkpoint;
pub mod dispatch;
pub mod dtype;
pub mod exact;
pub mod flash;
pub mod handles;
pub mod holes;
pub mod ir;
pub mod linear;
pub mod multi;
pub mod optimizer;
pub mod processor;
pub mod quantization;
pub mod queue;
pub mod routing;
pub mod settings;
pub mod shape;
pub mod strategy;
pub mod tables;
pub mod tensor;
pub mod text;
pub mod trace;
