//! The mesh bridge: transport selection and the reference in-memory
//! implementation of the bridge operations.
//!
//! Dispatch is at-most-once: a command is never re-sent on failure;
//! callers that need a retry must resubmit a new command with a fresh
//! `message_id`.
use crate::codec::{CanonValue, SpecTree};
use crate::envelope::{
    MeshCommandEnvelope, MeshEventEnvelope, MeshResultEnvelope, MeshTransferEnvelope, TransferHint,
};
use crate::util::{blank, is_blank, new_message_id, now_rfc3339};
use vstd::prelude::*;

verus! {

/// The delivery channel chosen for one envelope.
#[derive(Clone, Copy, Debug, PartialEq, Eq, Structural)]
pub enum TransportSelection {
    Link,
    Lxmf,
}

/// An acknowledgment that a mesh operation was accepted — not that it was
/// delivered end to end.
pub struct BridgeReceipt {
    pub message_id: String,
    pub accepted_at: String,
    pub transport: TransportSelection,
}

/// How the bridge fails.
#[derive(Debug)]
pub enum BridgeError {
    DaemonUnavailable,
    SendFailed(String),
    InvalidPayload(String),
}

impl BridgeError {
    /// A human-readable rendering of the error.
    pub open spec fn spec_message(self) -> Seq<char> {
        match self {
            BridgeError::DaemonUnavailable => "daemon RPC unavailable"@,
            BridgeError::SendFailed(s) => "bridge send failure: "@ + s@,
            BridgeError::InvalidPayload(s) => "invalid payload: "@ + s@,
        }
    }

    /// A human-readable rendering of the error.
    pub fn message(&self) -> (r: String)
        ensures
            r@ == self.spec_message(),
    {
        match self {
            BridgeError::DaemonUnavailable => String::from_str("daemon RPC unavailable"),
            BridgeError::SendFailed(s) => {
                let mut m = String::from_str("bridge send failure: ");
                m.append(s.as_str());
                m
            }
            BridgeError::InvalidPayload(s) => {
                let mut m = String::from_str("invalid payload: ");
                m.append(s.as_str());
                m
            }
        }
    }
}

/// The transport-selection policy: a pure function of the envelope's hint
/// and the bridge's two flags, a strict priority chain.
pub open spec fn spec_select_transport(
    prefer_link: bool,
    link_available: bool,
    hint: Option<TransferHint>,
) -> TransportSelection {
    if hint == Some(TransferHint::Link) && link_available {
        TransportSelection::Link
    } else if hint == Some(TransferHint::Lxmf) {
        TransportSelection::Lxmf
    } else if hint == Some(TransferHint::Link) {
        TransportSelection::Lxmf
    } else if hint is None && prefer_link && link_available {
        TransportSelection::Link
    } else {
        TransportSelection::Lxmf
    }
}

/// The five branches of the priority chain, spelled out: each case of
/// (hint, prefer_link, link_available) falls under exactly one branch, and
/// Lxmf is the universal fallback.
pub proof fn lemma_transport_priority(
    prefer_link: bool,
    link_available: bool,
    hint: Option<TransferHint>,
)
    ensures
        hint == Some(TransferHint::Link) && link_available ==> spec_select_transport(
            prefer_link,
            link_available,
            hint,
        ) == TransportSelection::Link,
        hint == Some(TransferHint::Lxmf) ==> spec_select_transport(
            prefer_link,
            link_available,
            hint,
        ) == TransportSelection::Lxmf,
        hint == Some(TransferHint::Link) && !link_available ==> spec_select_transport(
            prefer_link,
            link_available,
            hint,
        ) == TransportSelection::Lxmf,
        hint is None && prefer_link && link_available ==> spec_select_transport(
            prefer_link,
            link_available,
            hint,
        ) == TransportSelection::Link,
        hint is None && !(prefer_link && link_available) ==> spec_select_transport(
            prefer_link,
            link_available,
            hint,
        ) == TransportSelection::Lxmf,
{
}

/// The hint naming a chosen transport.
pub open spec fn hint_of(t: TransportSelection) -> TransferHint {
    match t {
        TransportSelection::Link => TransferHint::Link,
        TransportSelection::Lxmf => TransferHint::Lxmf,
    }
}

/// The payload of a result envelope acknowledging acceptance over the
/// chosen transport.
pub open spec fn spec_acceptance_payload(t: TransportSelection) -> SpecTree {
    SpecTree::Obj(
        seq![
            ("status"@, SpecTree::Str("accepted"@)),
            (
                "transport"@,
                SpecTree::Str(
                    match t {
                        TransportSelection::Link => "link"@,
                        TransportSelection::Lxmf => "lxmf"@,
                    },
                ),
            ),
        ],
    )
}

/// Builds the acceptance payload for a chosen transport.
fn acceptance_payload(transport: TransportSelection) -> (r: CanonValue)
    ensures
        r@ == spec_acceptance_payload(transport),
{
    let name = match transport {
        TransportSelection::Link => String::from_str("link"),
        TransportSelection::Lxmf => String::from_str("lxmf"),
    };
    let mut entries: Vec<(String, CanonValue)> = Vec::new();
    let k1 = String::from_str("status");
    let v1 = CanonValue::Str(String::from_str("accepted"));
    proof {
        assert(k1@ == "status"@);
        assert(v1@ == SpecTree::Str("accepted"@));
    }
    entries.push((k1, v1));
    let k2 = String::from_str("transport");
    let v2 = CanonValue::Str(name);
    proof {
        assert(k2@ == "transport"@);
    }
    entries.push((k2, v2));
    let ghost ev = entries@;
    let r = CanonValue::Obj(entries);
    proof {
        let et = r@->Obj_0;
        let st = spec_acceptance_payload(transport)->Obj_0;
        assert(et.len() == 2);
        assert(et[0] == (ev[0].0@, ev[0].1@));
        assert(et[1] == (ev[1].0@, ev[1].1@));
        assert(et[0].0 == "status"@ && et[0].1 == SpecTree::Str("accepted"@));
        assert(et[1].0 == "transport"@ && et[1].1 == st[1].1);
        assert(et =~= st);
    }
    r
}

/// The reference bridge: completes synchronously, with a configurable
/// transport policy. A real deployment substitutes a network-backed
/// implementation with the same contracts.
#[derive(Clone, Copy, Debug)]
pub struct InMemoryRpcMeshBridge {
    pub prefer_link: bool,
    pub link_available: bool,
}

impl InMemoryRpcMeshBridge {
    pub fn new(prefer_link: bool, link_available: bool) -> (r: Self)
        ensures
            r.prefer_link == prefer_link,
            r.link_available == link_available,
    {
        InMemoryRpcMeshBridge { prefer_link, link_available }
    }

    /// Chooses a transport for the given hint under this bridge's policy.
    pub fn select_transport(&self, hint: Option<TransferHint>) -> (t: TransportSelection)
        ensures
            t == spec_select_transport(self.prefer_link, self.link_available, hint),
    {
        match hint {
            Some(TransferHint::Link) => if self.link_available {
                TransportSelection::Link
            } else {
                TransportSelection::Lxmf
            },
            Some(TransferHint::Lxmf) => TransportSelection::Lxmf,
            None => if self.prefer_link && self.link_available {
                TransportSelection::Link
            } else {
                TransportSelection::Lxmf
            },
        }
    }

    /// Dispatches one command, at most once. Rejects with `InvalidPayload`
    /// exactly when the operation name is empty or whitespace-only, with
    /// no result envelope and no side effect; otherwise returns a result
    /// whose correlation references the command, whose identities are
    /// swapped, and whose payload acknowledges acceptance over the chosen
    /// transport.
    pub fn send_command(&self, envelope: MeshCommandEnvelope) -> (r: Result<
        MeshResultEnvelope,
        BridgeError,
    >)
        ensures
            blank(envelope.operation@) ==> (r matches Err(e) && e matches
                BridgeError::InvalidPayload(m) && m@ == "operation cannot be empty"@),
            !blank(envelope.operation@) ==> (r matches Ok(res) && ({
                let t = spec_select_transport(
                    self.prefer_link,
                    self.link_available,
                    envelope.transport_hint,
                );
                &&& res.correlation_id == envelope.message_id
                &&& res.operation == envelope.operation
                &&& res.source_identity == envelope.destination_identity
                &&& res.destination_identity == envelope.source_identity
                &&& res.content_type@ == crate::canonical_content_type()
                &&& res.payload@ == spec_acceptance_payload(t)
                &&& res.ttl_ms == envelope.ttl_ms
                &&& res.transport_hint == Some(hint_of(t))
            })),
    {
        if is_blank(envelope.operation.as_str()) {
            return Err(
                BridgeError::InvalidPayload(String::from_str("operation cannot be empty")),
            );
        }
        let transport = self.select_transport(envelope.transport_hint);
        let payload = acceptance_payload(transport);
        Ok(
            MeshResultEnvelope {
                message_id: new_message_id(),
                correlation_id: envelope.message_id,
                operation: envelope.operation,
                sent_at: now_rfc3339(),
                source_identity: envelope.destination_identity,
                destination_identity: envelope.source_identity,
                content_type: crate::content_type_string(),
                payload,
                ttl_ms: envelope.ttl_ms,
                transport_hint: Some(
                    match transport {
                        TransportSelection::Link => TransferHint::Link,
                        TransportSelection::Lxmf => TransferHint::Lxmf,
                    },
                ),
            },
        )
    }

    /// Acknowledges one published event over the chosen transport.
    pub fn publish_event(&self, envelope: MeshEventEnvelope) -> (r: Result<
        BridgeReceipt,
        BridgeError,
    >)
        ensures
            r matches Ok(rec) && rec.message_id == envelope.message_id && rec.transport
                == spec_select_transport(
                self.prefer_link,
                self.link_available,
                envelope.transport_hint,
            ),
    {
        let transport = self.select_transport(envelope.transport_hint);
        Ok(
            BridgeReceipt {
                message_id: envelope.message_id,
                accepted_at: now_rfc3339(),
                transport,
            },
        )
    }

    /// Acknowledges one started transfer over the chosen transport.
    pub fn start_transfer(&self, envelope: MeshTransferEnvelope) -> (r: Result<
        BridgeReceipt,
        BridgeError,
    >)
        ensures
            r matches Ok(rec) && rec.message_id == envelope.message_id && rec.transport
                == spec_select_transport(
                self.prefer_link,
                self.link_available,
                envelope.transport_hint,
            ),
    {
        let transport = self.select_transport(envelope.transport_hint);
        Ok(
            BridgeReceipt {
                message_id: envelope.message_id,
                accepted_at: now_rfc3339(),
                transport,
            },
        )
    }

    /// A liveness probe standing in for a real receipt lookup: rejects an
    /// empty `message_id` with `InvalidPayload`, and acknowledges every
    /// non-empty one. A real implementation must treat this as a genuine
    /// idempotent status query keyed by `message_id`.
    pub fn query_receipt(&self, message_id: &str) -> (r: Result<Option<BridgeReceipt>, BridgeError>)
        ensures
            message_id@.len() == 0 ==> (r matches Err(e) && e matches BridgeError::InvalidPayload(
                m,
            ) && m@ == "message_id cannot be empty"@),
            message_id@.len() > 0 ==> (r matches Ok(rec) && rec matches Some(rec)
                && rec.message_id@ == message_id@ && rec.transport == (if self.link_available {
                TransportSelection::Link
            } else {
                TransportSelection::Lxmf
            })),
    {
        if message_id.is_empty() {
            return Err(
                BridgeError::InvalidPayload(String::from_str("message_id cannot be empty")),
            );
        }
        let correlation = String::from_str(message_id);
        Ok(
            Some(
                BridgeReceipt {
                    message_id: correlation,
                    accepted_at: now_rfc3339(),
                    transport: if self.link_available {
                        TransportSelection::Link
                    } else {
                        TransportSelection::Lxmf
                    },
                },
            ),
        )
    }

    /// Drains at most `limit` pending events. The reference bridge holds
    /// no backlog, so the batch is always empty.
    pub fn poll_events(&self, _limit: usize) -> (r: Result<Vec<MeshEventEnvelope>, BridgeError>)
        ensures
            r matches Ok(batch) && batch@.len() == 0,
    {
        Ok(Vec::new())
    }
}

} // verus!
