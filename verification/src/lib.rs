//! Core wire protocol of a realtime bidirectional transport layer: typed
//! packets, payload framing under three modes (plain text, base64,
//! binary/XHR2), and the state of an HTTP long-polling transport.

pub mod b64;
pub mod codec;
pub mod digits;
pub mod laws;
pub mod packet;
pub mod polling;

pub use codec::decode_payload;
pub use codec::encode_payload;
pub use packet::Error;
pub use packet::Packet;
pub use packet::ID;
pub use polling::Polling;
