//! A process-local key-value cache that can synchronize its contents with a
//! remote peer over a message-oriented connection.
//!
//! The cache itself is an ordered map from string keys to string values
//! ([`store::MemoryCache`]). A single entry travels over the wire as a small
//! self-delimited JSON object ([`codec`]), and one synchronization attempt
//! with a peer is driven by the explicit state machine in [`session`]: on
//! connect the full local snapshot is pushed entry by entry, and for the rest
//! of the session inbound messages are decoded and applied to the store.
//! The transport itself (sockets, event loops) stays outside this crate; it
//! hands the session plain byte messages and carries away the bytes the
//! session asks it to send.

pub mod codec;
pub mod order;
pub mod session;
pub mod store;
