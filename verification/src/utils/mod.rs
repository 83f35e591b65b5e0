//! What surrounds the proxy.

pub mod update_check;
