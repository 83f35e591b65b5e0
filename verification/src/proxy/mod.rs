//! The proxy's protocols, its routing decisions and its bookkeeping.

pub mod balancer;
pub mod bridge;
pub mod bytes;
pub mod client;
pub mod config;
pub mod crypto;
pub mod fake_tls;
pub mod fallback;
pub mod greeting;
pub mod handshake;
pub mod hexadecimal;
pub mod pool;
pub mod random;
pub mod raw_websocket;
pub mod server;
pub mod splitter;
pub mod stats;
pub mod text;
pub mod utils;
