//! The decisions a client and a server make while storing, proving, reading, appending
//! to, editing and reshaping files; the messages themselves travel elsewhere.

pub mod client;
pub mod server;
