//! A recursive DNS resolver library: a bounded wire buffer with name
//! compression, the message model and record codec, and the decisions of the
//! delegation-following resolver and of the query service.
pub mod error;
pub mod buffer;
pub mod record_type;
pub mod header;
pub mod question;
pub mod record;
pub mod packet;
pub mod resolver;
