//! Verified core of a file synchronisation tool: path handling, the wire
//! format of file listings, content hashes, the computation of the file
//! operations that turn one repository state into another, and the session
//! and configuration rules of the server and the client.

pub mod text;
pub mod aio;
pub mod key_gen;
pub mod filepipe;
pub mod config;
pub mod endpoint;
pub mod client;
