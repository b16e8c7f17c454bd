//! A local gateway core: a length-prefixed binary frame codec, a
//! text-plus-JSON request/response protocol, and a broadcast relay that
//! bridges socket clients to a peripheral transport.

pub mod codec;
pub mod msg;
pub mod peer;
pub mod server;
pub mod text;
