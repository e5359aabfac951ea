//! Request/response messaging over the transport's byte stream, with
//! client retry and server-side deduplication: a retried request never
//! runs its handler twice.

pub mod client;
pub mod exchange;
pub mod framing;
pub mod laws;
pub mod message;
pub mod server;
pub mod session;

pub use self::client::RpcClient;
pub use self::framing::{frame, FrameReader};
pub use self::message::{Request, Response};
pub use self::server::{Handler, RpcServer};
