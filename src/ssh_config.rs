//! Host aliases of an OpenSSH client configuration.
pub mod de;
pub mod reader;

pub use de::{from_str, Host, Hosts, ParserError};
