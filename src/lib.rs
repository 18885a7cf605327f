//! A reader that wraps any `std::io::Read` and adds look-ahead (`peek`,
//! `peek_exact`) and nested checkpoints that rewind the stream when the work
//! done under them fails. Both work by buffering part of the stream.

mod source;
pub mod state;
pub mod laws;
mod reader;
mod window;

pub use reader::PeekRead;
pub use state::{PeekState, RECLAIM_THRESHOLD};
