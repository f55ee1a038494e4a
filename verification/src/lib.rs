//! An embeddable, in-process key-value store that speaks a minimal
//! Redis-compatible wire protocol.
//!
//! The verified pieces are the RESP codec (`resp`), the command layer that
//! turns a decoded request into a store operation (`command`), the
//! in-memory store itself (`store`), and the pure decision logic of the
//! server lifecycle (`lifecycle`). The `handler` module ties codec,
//! commands and store together: one request buffer in, one reply buffer
//! out. The embedding program supplies the sockets and threads around
//! these pieces.

pub mod command;
pub mod handler;
pub mod lifecycle;
pub mod resp;
pub mod store;

pub use store::RedisLess;
pub use store::DataType;
pub use lifecycle::ServerState;
