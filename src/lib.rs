//! A Redis client library core: the RESP2 wire format (parser, serializer, typed
//! mapping), a streaming codec, and the decisions of a connection (liveness, health).

use vstd::prelude::*;

/// Streaming decoder and encoder over a byte buffer.
pub mod codec;
/// The frames of commands, and the decisions of multi-step commands.
pub mod command;
/// Liveness of a connection, and what a connection pool needs.
pub mod connection;
/// The RESP value tree.
pub mod data;
/// Reading values from bytes.
pub mod de;
/// Errors, and which of them a connection survives.
pub mod error;
/// Properties of reading and writing that hold for all inputs.
pub mod laws;
/// Typed replies of stream and pubsub commands.
pub mod model;
/// The RESP grammar and its parsers.
pub mod parser;
/// Writing values as bytes.
pub mod ser;
/// Mapping values to and from Rust types.
pub mod typed;

pub use codec::Codec;
pub use connection::{Manager, Status};
pub use data::{Data, DataView};
pub use de::{from_bytes, Deserializer};
pub use error::{Error, ReadError};
pub use parser::ParseError;
pub use ser::{to_bytes, NullType, Options, Serializer};
pub use typed::{from_data, to_data, Bytes, FromData, Pairs, ToData, Variant};

verus! {

} // verus!
