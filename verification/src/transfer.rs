//! Transfer-facing request and record shapes.
use vstd::prelude::*;

verus! {

/// Lifecycle status of a tracked unit of asynchronous work.
#[derive(Clone, Copy, Debug, PartialEq, Eq, Structural)]
pub enum TransferStatus {
    Queued,
    Running,
    Success,
    Failed,
}

/// What a caller submits to start an upload.
pub struct TransferUploadRequest {
    pub destination_identity: String,
    pub file_name: String,
    pub media_type: String,
    pub payload_base64: String,
}

/// A transfer's lifecycle as shown to callers.
pub struct TransferRecord {
    pub transfer_id: String,
    pub status: TransferStatus,
    pub submitted_at: String,
    pub updated_at: String,
    pub failure_reason: Option<String>,
}

} // verus!
