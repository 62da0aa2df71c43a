//! Capture of log records for assertions in tests.
//!
//! A [`Logger`] holds the capture queue: every log event handed to it becomes
//! an immutable [`Record`] at the back of the queue, and test code drains the
//! queue from the front. Installing the queue behind the process-wide `log`
//! facade is left to the host program.

mod logger;
mod record;

pub use logger::{start, Logger};
pub use record::Record;
