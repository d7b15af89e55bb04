//! Typed message shapes carried over the mesh: commands, results, events
//! and transfers, all sharing the canonical payload tree and wire media
//! type.
use crate::codec::CanonValue;
use vstd::prelude::*;

verus! {

pub type MessageId = String;

pub type CorrelationId = String;

pub type IdentityHash = String;

pub type OperationName = String;

pub type EventName = String;

/// A caller's preference for the delivery channel of one envelope.
#[derive(Clone, Copy, Debug, PartialEq, Eq, Structural)]
pub enum TransferHint {
    Link,
    Lxmf,
}

/// The direction of a transfer envelope.
#[derive(Clone, Copy, Debug, PartialEq, Eq, Structural)]
pub enum TransferDirection {
    Upload,
    Download,
}

/// A command submitted to the mesh: asks the destination to perform the
/// named operation on the payload.
pub struct MeshCommandEnvelope {
    pub message_id: MessageId,
    pub operation: OperationName,
    pub sent_at: String,
    pub source_identity: IdentityHash,
    pub destination_identity: IdentityHash,
    pub content_type: String,
    pub payload: CanonValue,
    pub ttl_ms: Option<u64>,
    pub transport_hint: Option<TransferHint>,
}

/// The response to a command. Its `correlation_id` always references the
/// triggering command's `message_id`; the bridge sets it, never the caller.
pub struct MeshResultEnvelope {
    pub message_id: MessageId,
    pub correlation_id: CorrelationId,
    pub operation: OperationName,
    pub sent_at: String,
    pub source_identity: IdentityHash,
    pub destination_identity: IdentityHash,
    pub content_type: String,
    pub payload: CanonValue,
    pub ttl_ms: Option<u64>,
    pub transport_hint: Option<TransferHint>,
}

/// A named event published to the mesh.
pub struct MeshEventEnvelope {
    pub message_id: MessageId,
    pub event: EventName,
    pub sent_at: String,
    pub source_identity: IdentityHash,
    pub destination_identity: IdentityHash,
    pub content_type: String,
    pub payload: CanonValue,
    pub ttl_ms: Option<u64>,
    pub transport_hint: Option<TransferHint>,
}

/// A transfer dispatched over the mesh, upload or download.
pub struct MeshTransferEnvelope {
    pub message_id: MessageId,
    pub correlation_id: Option<CorrelationId>,
    pub operation: OperationName,
    pub sent_at: String,
    pub source_identity: IdentityHash,
    pub destination_identity: IdentityHash,
    pub content_type: String,
    pub direction: TransferDirection,
    pub payload: CanonValue,
    pub ttl_ms: Option<u64>,
    pub transport_hint: Option<TransferHint>,
}

} // verus!
