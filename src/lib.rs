//! Client-side transport for a length-prefixed, JSON-framed remote-procedure
//! protocol: wire framing, request correlation and the handshake gate.

pub mod codec;
pub mod correlator;
pub mod gate;
pub mod jsonrpc;
pub mod transport;
