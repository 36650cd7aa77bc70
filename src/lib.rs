//! A byte-stream adapter over shared, immutable memory chunks.
pub mod adapter;
pub mod buffer;
pub mod stream;
