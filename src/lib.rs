//! An XML-RPC endpoint: a value tree with its XML codec, minimal HTTP
//! framing, and a dispatcher from method names to handlers.
pub mod value;
pub mod grammar;
pub mod parse;
pub mod encode;
pub mod http;
pub mod server;
pub mod roundtrip;
