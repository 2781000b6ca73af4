//! AES-128-CFB8 as a service over a local channel: the wire protocol, the
//! cipher engine bound to one session, and the per-connection state machine of
//! the daemon.

pub mod protocol;
pub mod cipher;
pub mod connection;
