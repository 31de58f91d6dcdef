//! A cursored, read-only byte buffer with endian-aware decoding of
//! fixed-width integers, verified against a mathematical model of its bytes.

pub mod buffer;
pub mod chain;
pub mod endian;
pub mod flat;

pub use buffer::Buffer;
pub use chain::ChainBuffer;
pub use flat::SliceBuffer;
