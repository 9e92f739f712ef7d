//! Codec and schema-resolution core for a bit-granular demo-recording format.
//!
//! The wire format is little-endian and bit-addressed: values need not start
//! on byte boundaries.  Every encodable value has a mathematical encoding
//! (a `Seq<bool>`) given by a spec function, the writers are proved to emit
//! exactly that encoding, and the readers are proved to decode it back to the
//! original value while consuming exactly its bits.

pub mod bits;
pub mod cursor;
pub mod error;
pub mod sendprop;
pub mod datatable;
pub mod state;
pub mod flatten;
pub mod message;
pub mod handler;
pub mod voice;
pub mod analyser;
pub mod packet;

pub use datatable::DataTablePacket;
pub use error::ParseError;
pub use packet::Packet;
pub use packet::PacketType;
pub use state::ParserState;
