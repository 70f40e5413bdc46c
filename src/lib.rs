//! A line-oriented journal of time-tracking records.
//!
//! Each line of a journal holds one record, or any other text, which is kept
//! as it stands. The journal is edited in memory through a cursor over a rope,
//! then written back by the caller.
pub mod buffer;
pub mod clock;
pub mod error;
pub mod iter;
pub mod journal;
pub mod lines;
pub mod record;
pub mod text;
pub mod timestamp;
