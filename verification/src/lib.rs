//! A write-buffer flush controller for a sharded storage node.
//!
//! Each region owns a tablet with its own in-memory write buffer. The
//! controller tracks the most recently reported buffer size and the most
//! recent write-side access time of every region, and, given readings from
//! the node's global memory oracle, plans which tablets to flush so that the
//! node stays within its configured memory bounds while preferring cold and
//! large buffers.

pub mod config;
pub mod laws;
pub mod manager;
pub mod order;
pub mod plan;
pub mod readable;
pub mod table;

pub use config::Config;
pub use manager::{Msg, WriteBufferManager};
