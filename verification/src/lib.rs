//! An in-memory key-value server core: the wire codec, the expiring store and
//! the command dispatcher, free of I/O.

pub mod command;
pub mod connection;
pub mod decode;
pub mod error;
pub mod resp;
pub mod roundtrip;
pub mod storage;
