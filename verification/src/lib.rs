//! Frame pacing analysis for a SurfaceFlinger hook.
//!
//! The library holds the logic that decides how janky the composition is:
//! the target frame rate and its frame time, the parsing of the control
//! files that a root daemon writes, the messages sent back to it, the search
//! for the symbols to hook and the bookkeeping of the shared frame-time
//! buffers. Reading and writing files, named pipes, threads and the hook
//! itself live outside this crate.

mod order;

pub mod analyze;
pub mod bound;
pub mod connect;
pub mod count;
pub mod error;
pub mod files;
pub mod fps;
pub mod hook;
pub mod message;
pub mod text;

pub use error::{Error, Result};
pub use fps::Fps;
pub use message::Message;
