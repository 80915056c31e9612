//! Vocabulary of the surrounding peer-to-peer layer: the layer that decodes
//! headers off the wire and drives the block tree is an external collaborator,
//! and only the plain data types it exchanges are declared here.
use vstd::prelude::*;

verus! {

/// Identifies a peer endpoint; the network layer maps it to a real address.
pub type PeerId = u64;

/// A timeout duration, in milliseconds.
pub type Timeout = u64;

/// Link direction of the peer connection.
#[derive(Clone, Copy, Debug, PartialEq, Eq)]
pub enum Link {
    /// Inbound connection.
    Inbound,
    /// Outbound connection.
    Outbound,
}

/// A message that can be sent to a peer.
pub trait Message: Sized + Send + Sync + 'static {
    /// The message payload.
    type Payload: Clone + core::fmt::Debug;

    /// Construct a message from a payload and magic.
    fn from_parts(payload: Self::Payload, magic: u32) -> Self;

    /// Retrieve the message payload.
    fn payload(&self) -> &Self::Payload;

    /// Retrieve the message magic.
    fn magic(&self) -> u32;

    /// Display the message.
    fn display(&self) -> &'static str;
}

/// Timeout source descriptor.
#[derive(Debug, Clone, Copy, PartialEq, Eq)]
pub enum TimeoutSource {
    /// Header sync.
    Synch(PeerId),
    /// Peer connect.
    Connect(PeerId),
    /// Peer handshake.
    Handshake(PeerId),
    /// Peer ping.
    Ping(PeerId),
    /// A general timeout.
    Global,
}

/// A protocol input event, parametrized over the network message type.
/// These are input events generated outside of the protocol.
#[derive(Debug, Clone)]
pub enum Input<M, C> {
    /// New connection with a peer.
    Connected {
        /// Remote peer id.
        addr: PeerId,
        /// Local peer id.
        local_addr: PeerId,
        /// Link direction.
        link: Link,
    },
    /// Disconnected from peer.
    Disconnected(PeerId),
    /// Received a message from a remote peer.
    Received(PeerId, M),
    /// Sent a message to a remote peer, of the given size.
    Sent(PeerId, usize),
    /// An external command has been received.
    Command(C),
    /// A timeout has been reached.
    Timeout(TimeoutSource),
}

} // verus!
