//! Reads a JVM thread dump into typed thread records, and groups the records by execution
//! state and by identical stack trace.

pub mod analyze;
pub mod dump;
pub mod state;
pub mod text;
pub mod thread;

pub use analyze::{by_stacktrace, by_state};
pub use dump::JThreadDump;
pub use state::{JThreadState, ParseError};
pub use thread::JThreadInfo;
