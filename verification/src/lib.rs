//! A reliable byte transport, request/response messaging and a small
//! key-value service, built over a simulated datagram channel that may
//! lose, duplicate, reorder, corrupt and truncate what it carries.

pub mod channel;
pub mod frame;
pub mod le;
pub mod rpc;
pub mod transport;
pub mod workload;
