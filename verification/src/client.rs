//! The client: its configuration, its conversation with the daemon and the
//! upload of file contents.

pub mod config;
pub mod caller;
pub mod stream;
