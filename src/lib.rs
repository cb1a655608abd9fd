//! A reliable message layer over fixed eight-byte CAN frames: bit-packed
//! headers, fragmentation of messages into packets, per-fragment
//! acknowledgement with retransmission, and reassembly of incoming messages.
use vstd::prelude::*;

pub mod buffers;
pub mod errors;
pub mod header;
pub mod ids;
pub mod message;
pub mod packet;
pub mod protocol;
pub mod reassembly;

pub use errors::{MessageCreationError, ProtocolError, SendError};
pub use header::Header;
pub use ids::{CanId, MessageId, SeqId};
pub use message::Message;
pub use packet::{Packet, Read, Write};
pub use protocol::Protocol;
pub use reassembly::MessageInProgress;

verus! {

/// The endpoint under the name that application code also uses for it.
///
/// `Protocol` is also what takes the place of a sender that wrote every
/// message straight to a `Write` transport and kept one slot per message id:
/// `Message::send` writes the unacknowledged fragments of one message to such
/// a transport, and `Protocol` queues the messages, the acknowledgements and
/// the reassemblies.
pub type Messages = Protocol;

} // verus!
