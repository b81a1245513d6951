//! Per-stream byte reassembly and segmentation for a multiplexed transport.
//!
//! `RecvBuf` turns out-of-order chunks into an in-order byte run, `SendBuf`
//! re-segments application writes to a byte budget, and `Stream` /
//! `StreamTable` pair and multiplex them.
pub mod range_buf;
pub mod recv_buf;
pub mod send_buf;
pub mod stream;

pub use range_buf::RangeBuf;
pub use recv_buf::RecvBuf;
pub use send_buf::SendBuf;
pub use stream::{Stream, StreamIterator, StreamTable};
