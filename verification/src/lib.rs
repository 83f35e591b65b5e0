//! Telegram MTProto to WebSocket bridge: the protocol logic of the proxy.

pub mod proxy;
pub mod ui;
pub mod utils;
