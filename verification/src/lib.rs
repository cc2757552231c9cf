//! Host-side helper for launching a local editor against a remote path.
//!
//! The crate holds the logic of a small HTTP service: resolving the socket
//! address to bind from override values and a discovered local address,
//! parsing the query string of a launch request, building the connection
//! URI handed to the editor process, and formatting the textual response.
//! The surrounding I/O (environment, network, process spawning) lives
//! outside the library and hands in plain values.

pub mod addr;
pub mod ip;
pub mod launch;
pub mod query;
pub mod text;
