//! A minimal key-value server core: a wire-frame codec with incremental
//! parsing, a connection read buffer, command decoding, and a shared
//! store, each with a proved contract.

pub mod codec;
pub mod command;
pub mod conn;
pub mod frame;
pub mod store;
