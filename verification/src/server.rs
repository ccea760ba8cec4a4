//! An echo server over many connections: which connection a datagram is for, what
//! is echoed, and when a connection starts over.

pub mod conn;
pub mod demux;
pub mod laws;
pub mod number;
pub mod pool;
pub mod settings;
