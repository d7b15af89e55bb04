//! The in-memory durable-record model: jobs, job results, transfers and
//! configuration revisions, keyed by unique identifiers. This mirrors the
//! store's interface contract; a deployment backs it with a database
//! adapter that upholds the same behaviour.
use crate::codec::CanonValue;
use crate::util::{new_message_id, now_rfc3339};
use vstd::prelude::*;

verus! {

/// Where the durable store lives.
pub struct StorageConfig {
    pub sqlite_path: String,
}

/// One dispatched command's durable record.
pub struct JobRecord {
    pub job_id: String,
    pub operation: String,
    pub status: String,
    pub payload: CanonValue,
    pub submitted_at: String,
    pub updated_at: String,
    pub failure_reason: Option<String>,
}

/// The bridge's response payload for a job that reached `success`.
pub struct JobResultRecord {
    pub job_id: String,
    pub result: CanonValue,
    pub completed_at: String,
}

/// One dispatched transfer's durable record.
pub struct TransferRecord {
    pub transfer_id: String,
    pub status: String,
    pub metadata: CanonValue,
    pub submitted_at: String,
    pub updated_at: String,
    pub failure_reason: Option<String>,
}

/// One appended node-configuration revision.
pub struct NodeConfigRevision {
    pub revision_id: i64,
    pub config_json: String,
    pub created_at: String,
}

/// How the store fails.
#[derive(Debug)]
pub enum StorageError {
    /// An insert collided with an existing identifier.
    DuplicateIdentifier,
}

impl StorageError {
    /// A human-readable rendering of the error.
    pub fn message(&self) -> (r: String)
        ensures
            r@ == "duplicate identifier"@,
    {
        String::from_str("duplicate identifier")
    }
}

/// Prefixes a bare file path with the sqlite scheme; a path that already
/// carries the scheme is kept as it is.
pub fn normalize_sqlite_uri(raw: &str) -> (r: String)
    ensures
        has_sqlite_scheme(raw@) ==> r@ == raw@,
        !has_sqlite_scheme(raw@) ==> r@ == "sqlite://"@ + raw@,
{
    if starts_with_sqlite_scheme(raw) {
        String::from_str(raw)
    } else {
        let mut out = String::from_str("sqlite://");
        out.append(raw);
        out
    }
}

/// Whether a path already begins with `sqlite:`.
pub open spec fn has_sqlite_scheme(s: Seq<char>) -> bool {
    s.len() >= 7 && s[0] == 's' && s[1] == 'q' && s[2] == 'l' && s[3] == 'i' && s[4] == 't' && s[5]
        == 'e' && s[6] == ':'
}

fn starts_with_sqlite_scheme(raw: &str) -> (r: bool)
    ensures
        r == has_sqlite_scheme(raw@),
{
    let n = raw.unicode_len();
    if n < 7 {
        return false;
    }
    raw.get_char(0) == 's' && raw.get_char(1) == 'q' && raw.get_char(2) == 'l' && raw.get_char(3)
        == 'i' && raw.get_char(4) == 't' && raw.get_char(5) == 'e' && raw.get_char(6) == ':'
}

/// The in-memory store. The orchestrator is its sole writer; it goes
/// through the methods below, which keep identifiers unique.
pub struct MemoryStorage {
    pub jobs: Vec<JobRecord>,
    pub job_results: Vec<JobResultRecord>,
    pub transfers: Vec<TransferRecord>,
    pub config_revisions: Vec<NodeConfigRevision>,
}

impl MemoryStorage {
    /// The stored jobs, in insertion order.
    pub open spec fn jobs(self) -> Seq<JobRecord> {
        self.jobs@
    }

    /// The stored job results, in insertion order.
    pub open spec fn job_results(self) -> Seq<JobResultRecord> {
        self.job_results@
    }

    /// The stored transfers, in insertion order.
    pub open spec fn transfers(self) -> Seq<TransferRecord> {
        self.transfers@
    }

    /// The appended configuration revisions, in insertion order.
    pub open spec fn config_revisions(self) -> Seq<NodeConfigRevision> {
        self.config_revisions@
    }

    /// Identifiers are unique within each table.
    pub open spec fn wf(self) -> bool {
        (forall|i: int, j: int|
            0 <= i < j < self.jobs().len() ==> (#[trigger] self.jobs()[i]).job_id@ != (
            #[trigger] self.jobs()[j]).job_id@) && (forall|i: int, j: int|
            0 <= i < j < self.job_results().len() ==> (#[trigger] self.job_results()[i]).job_id@
                != (#[trigger] self.job_results()[j]).job_id@) && (forall|i: int, j: int|
            0 <= i < j < self.transfers().len() ==> (#[trigger] self.transfers()[i]).transfer_id@
                != (#[trigger] self.transfers()[j]).transfer_id@)
    }

    /// Whether a job with this identifier exists.
    pub open spec fn has_job(self, id: Seq<char>) -> bool {
        exists|i: int| 0 <= i < self.jobs().len() && (#[trigger] self.jobs()[i]).job_id@ == id
    }

    /// The index of the job with this identifier.
    pub open spec fn job_index(self, id: Seq<char>) -> int {
        choose|i: int| 0 <= i < self.jobs().len() && (#[trigger] self.jobs()[i]).job_id@ == id
    }

    /// Whether a result for this job identifier exists.
    pub open spec fn has_job_result(self, id: Seq<char>) -> bool {
        exists|i: int|
            0 <= i < self.job_results().len() && (#[trigger] self.job_results()[i]).job_id@ == id
    }

    /// The index of the result for this job identifier.
    pub open spec fn job_result_index(self, id: Seq<char>) -> int {
        choose|i: int|
            0 <= i < self.job_results().len() && (#[trigger] self.job_results()[i]).job_id@ == id
    }

    /// Whether a transfer with this identifier exists.
    pub open spec fn has_transfer(self, id: Seq<char>) -> bool {
        exists|i: int|
            0 <= i < self.transfers().len() && (#[trigger] self.transfers()[i]).transfer_id@ == id
    }

    /// The index of the transfer with this identifier.
    pub open spec fn transfer_index(self, id: Seq<char>) -> int {
        choose|i: int|
            0 <= i < self.transfers().len() && (#[trigger] self.transfers()[i]).transfer_id@ == id
    }

    pub fn new() -> (r: Self)
        ensures
            r.wf(),
            r.jobs().len() == 0,
            r.job_results().len() == 0,
            r.transfers().len() == 0,
            r.config_revisions().len() == 0,
    {
        MemoryStorage {
            jobs: Vec::new(),
            job_results: Vec::new(),
            transfers: Vec::new(),
            config_revisions: Vec::new(),
        }
    }

    /// Creates a job in status `queued` under the given identifier and
    /// timestamp; rejects a duplicate identifier, changing nothing.
    #[verifier::loop_isolation(false)]
    pub fn create_job_with(
        &mut self,
        job_id: String,
        now: String,
        operation: &str,
        payload: CanonValue,
    ) -> (r: Result<JobRecord, StorageError>)
        requires
            old(self).wf(),
        ensures
            final(self).wf(),
            final(self).job_results() == old(self).job_results(),
            final(self).transfers() == old(self).transfers(),
            final(self).config_revisions() == old(self).config_revisions(),
            (match r {
                Ok(rec) => !old(self).has_job(job_id@) && final(self).jobs() == old(
                    self,
                ).jobs().push(final(self).jobs().last()) && ({
                    let stored = final(self).jobs().last();
                    &&& stored.job_id == job_id
                    &&& stored.operation@ == operation@
                    &&& stored.status@ == "queued"@
                    &&& stored.payload@ == payload@
                    &&& stored.submitted_at == now
                    &&& stored.updated_at == now
                    &&& stored.failure_reason is None
                    &&& rec.job_id == job_id
                    &&& rec.operation@ == operation@
                    &&& rec.status@ == "queued"@
                    &&& rec.payload == payload
                    &&& rec.submitted_at == now
                    &&& rec.updated_at == now
                    &&& rec.failure_reason is None
                }),
                Err(e) => old(self).has_job(job_id@) && e == StorageError::DuplicateIdentifier
                    && final(self).jobs() == old(self).jobs(),
            }),
    {
        let mut i: usize = 0;
        while i < self.jobs.len()
            invariant
                i <= self.jobs@.len(),
                forall|j: int| 0 <= j < i ==> (#[trigger] self.jobs@[j]).job_id@ != job_id@,
            decreases self.jobs@.len() - i,
        {
            if vstd::std_specs::vec::vec_index(&self.jobs, i).job_id == job_id {
                return Err(StorageError::DuplicateIdentifier);
            }
            i = i + 1;
        }
        let stored = JobRecord {
            job_id: job_id.clone(),
            operation: String::from_str(operation),
            status: String::from_str("queued"),
            payload: crate::codec::duplicate(&payload),
            submitted_at: now.clone(),
            updated_at: now.clone(),
            failure_reason: None,
        };
        self.jobs.push(stored);
        Ok(
            JobRecord {
                job_id,
                operation: String::from_str(operation),
                status: String::from_str("queued"),
                payload,
                submitted_at: now.clone(),
                updated_at: now,
                failure_reason: None,
            },
        )
    }

    /// Creates a job in status `queued` under a fresh identifier and the
    /// current time. A collision of the generated identifier is the one
    /// failure, and leaves the store unchanged.
    pub fn create_job(&mut self, operation: &str, payload: CanonValue) -> (r: Result<
        JobRecord,
        StorageError,
    >)
        requires
            old(self).wf(),
        ensures
            final(self).wf(),
            final(self).job_results() == old(self).job_results(),
            final(self).transfers() == old(self).transfers(),
            final(self).config_revisions() == old(self).config_revisions(),
            (match r {
                Ok(rec) => !old(self).has_job(rec.job_id@) && final(self).jobs() == old(
                    self,
                ).jobs().push(final(self).jobs().last()) && ({
                    let stored = final(self).jobs().last();
                    &&& stored.job_id == rec.job_id
                    &&& stored.operation@ == operation@
                    &&& stored.status@ == "queued"@
                    &&& stored.payload@ == payload@
                    &&& stored.failure_reason is None
                    &&& rec.operation@ == operation@
                    &&& rec.status@ == "queued"@
                    &&& rec.payload == payload
                    &&& rec.failure_reason is None
                    &&& stored.submitted_at == rec.submitted_at
                    &&& stored.updated_at == rec.updated_at
                    &&& stored.submitted_at == stored.updated_at
                    &&& rec.submitted_at == rec.updated_at
                }),
                Err(e) => e == StorageError::DuplicateIdentifier && final(self).jobs() == old(
                    self,
                ).jobs(),
            }),
    {
        let job_id = new_message_id();
        let now = now_rfc3339();
        self.create_job_with(job_id, now, operation, payload)
    }

    /// Sets the status, failure reason and update time of the job with
    /// this identifier; a missing identifier changes nothing.
    #[verifier::loop_isolation(false)]
    pub fn update_job_status_at(
        &mut self,
        job_id: &str,
        status: &str,
        failure_reason: Option<&str>,
        now: String,
    )
        requires
            old(self).wf(),
        ensures
            final(self).wf(),
            final(self).job_results() == old(self).job_results(),
            final(self).transfers() == old(self).transfers(),
            final(self).config_revisions() == old(self).config_revisions(),
            !old(self).has_job(job_id@) ==> final(self).jobs() == old(self).jobs(),
            old(self).has_job(job_id@) ==> ({
                let i = old(self).job_index(job_id@);
                let stored = final(self).jobs()[i];
                &&& final(self).jobs().len() == old(self).jobs().len()
                &&& (forall|j: int|
                    0 <= j < old(self).jobs().len() && j != i ==> final(self).jobs()[j] == old(
                        self,
                    ).jobs()[j])
                &&& stored.job_id == old(self).jobs()[i].job_id
                &&& stored.operation == old(self).jobs()[i].operation
                &&& stored.payload == old(self).jobs()[i].payload
                &&& stored.submitted_at == old(self).jobs()[i].submitted_at
                &&& stored.status@ == status@
                &&& stored.updated_at == now
                &&& (failure_reason is None ==> stored.failure_reason is None)
                &&& (failure_reason matches Some(fr) ==> (stored.failure_reason matches Some(sf)
                    && sf@ == fr@))
            }),
    {
        let n = self.jobs.len();
        let mut i: usize = 0;
        while i < n
            invariant
                i <= n,
                n == self.jobs@.len(),
                self.jobs@ == old(self).jobs(),
                self.job_results@ == old(self).job_results(),
                self.transfers@ == old(self).transfers(),
                self.config_revisions@ == old(self).config_revisions(),
                forall|j: int| 0 <= j < i ==> (#[trigger] self.jobs@[j]).job_id@ != job_id@,
            decreases n - i,
        {
            if crate::util::str_eq(vstd::std_specs::vec::vec_index(&self.jobs, i).job_id.as_str(), job_id) {
                proof {
                    assert(old(self).has_job(job_id@));
                    assert(old(self).job_index(job_id@) == i);
                }
                let rec = vstd::std_specs::vec::vec_index_mut(&mut self.jobs, i);
                rec.status = String::from_str(status);
                rec.updated_at = now;
                rec.failure_reason = match failure_reason {
                    None => None,
                    Some(fr) => Some(String::from_str(fr)),
                };
                proof {
                    assert forall|a: int, b: int|
                        0 <= a < b < self.jobs@.len() implies (#[trigger] self.jobs@[a]).job_id@
                        != (#[trigger] self.jobs@[b]).job_id@ by {
                        assert(old(self).jobs()[a].job_id@ != old(self).jobs()[b].job_id@);
                        if a != i {
                            assert(self.jobs@[a] == old(self).jobs()[a]);
                        }
                        if b != i {
                            assert(self.jobs@[b] == old(self).jobs()[b]);
                        }
                    }
                }
                return ;
            }
            i = i + 1;
        }
    }

    /// Sets the status of the job with this identifier at the current
    /// time; a missing identifier changes nothing.
    pub fn update_job_status(&mut self, job_id: &str, status: &str, failure_reason: Option<&str>)
        requires
            old(self).wf(),
        ensures
            final(self).wf(),
            final(self).job_results() == old(self).job_results(),
            final(self).transfers() == old(self).transfers(),
            final(self).config_revisions() == old(self).config_revisions(),
            !old(self).has_job(job_id@) ==> final(self).jobs() == old(self).jobs(),
            old(self).has_job(job_id@) ==> ({
                let i = old(self).job_index(job_id@);
                let stored = final(self).jobs()[i];
                &&& final(self).jobs().len() == old(self).jobs().len()
                &&& (forall|j: int|
                    0 <= j < old(self).jobs().len() && j != i ==> final(self).jobs()[j] == old(
                        self,
                    ).jobs()[j])
                &&& stored.job_id == old(self).jobs()[i].job_id
                &&& stored.operation == old(self).jobs()[i].operation
                &&& stored.payload == old(self).jobs()[i].payload
                &&& stored.submitted_at == old(self).jobs()[i].submitted_at
                &&& stored.status@ == status@
                &&& (failure_reason is None ==> stored.failure_reason is None)
                &&& (failure_reason matches Some(fr) ==> (stored.failure_reason matches Some(sf)
                    && sf@ == fr@))
            }),
    {
        let now = now_rfc3339();
        self.update_job_status_at(job_id, status, failure_reason, now)
    }

    /// Upserts the result for a job identifier: the last write wins, and a
    /// retried writer is tolerated. Inserts when absent, overwrites when
    /// present.
    #[verifier::loop_isolation(false)]
    pub fn insert_job_result_at(&mut self, job_id: &str, result: CanonValue, completed_at: String)
        requires
            old(self).wf(),
        ensures
            final(self).wf(),
            final(self).jobs() == old(self).jobs(),
            final(self).transfers() == old(self).transfers(),
            final(self).config_revisions() == old(self).config_revisions(),
            final(self).has_job_result(job_id@),
            !old(self).has_job_result(job_id@) ==> final(self).job_results() == old(
                self,
            ).job_results().push(final(self).job_results().last()) && ({
                let stored = final(self).job_results().last();
                &&& stored.job_id@ == job_id@
                &&& stored.result@ == result@
                &&& stored.completed_at == completed_at
            }),
            old(self).has_job_result(job_id@) ==> ({
                let i = old(self).job_result_index(job_id@);
                let stored = final(self).job_results()[i];
                &&& final(self).job_results().len() == old(self).job_results().len()
                &&& (forall|j: int|
                    0 <= j < old(self).job_results().len() && j != i ==> final(self).job_results()[j] == old(self).job_results()[j])
                &&& stored.job_id == old(self).job_results()[i].job_id
                &&& stored.result@ == result@
                &&& stored.completed_at == completed_at
            }),
    {
        let n = self.job_results.len();
        let mut i: usize = 0;
        while i < n
            invariant
                i <= n,
                n == self.job_results@.len(),
                self.job_results@ == old(self).job_results(),
                self.jobs@ == old(self).jobs(),
                self.transfers@ == old(self).transfers(),
                self.config_revisions@ == old(self).config_revisions(),
                forall|j: int| 0 <= j < i ==> (#[trigger] self.job_results@[j]).job_id@ != job_id@,
            decreases n - i,
        {
            if crate::util::str_eq(vstd::std_specs::vec::vec_index(&self.job_results, i).job_id.as_str(), job_id) {
                proof {
                    assert(old(self).has_job_result(job_id@));
                    assert(old(self).job_result_index(job_id@) == i);
                }
                let rec = vstd::std_specs::vec::vec_index_mut(&mut self.job_results, i);
                rec.result = result;
                rec.completed_at = completed_at;
                proof {
                    assert(self.job_results@[i as int].job_id@ == job_id@);
                    assert(self.has_job_result(job_id@));
                    assert forall|a: int, b: int|
                        0 <= a < b < self.job_results@.len() implies (
                        #[trigger] self.job_results@[a]).job_id@ != (
                        #[trigger] self.job_results@[b]).job_id@ by {
                        assert(old(self).job_results()[a].job_id@ != old(
                            self,
                        ).job_results()[b].job_id@);
                        if a != i {
                            assert(self.job_results@[a] == old(self).job_results()[a]);
                        }
                        if b != i {
                            assert(self.job_results@[b] == old(self).job_results()[b]);
                        }
                    }
                }
                return ;
            }
            i = i + 1;
        }
        self.job_results.push(
            JobResultRecord { job_id: String::from_str(job_id), result, completed_at },
        );
        proof {
            let last = final(self).job_results().len() - 1;
            assert(final(self).job_results()[last].job_id@ == job_id@);
            assert(final(self).has_job_result(job_id@));
        }
    }

    /// Upserts the result for a job identifier at the current time.
    pub fn insert_job_result(&mut self, job_id: &str, result: CanonValue)
        requires
            old(self).wf(),
        ensures
            final(self).wf(),
            final(self).jobs() == old(self).jobs(),
            final(self).transfers() == old(self).transfers(),
            final(self).config_revisions() == old(self).config_revisions(),
            final(self).has_job_result(job_id@),
            !old(self).has_job_result(job_id@) ==> final(self).job_results() == old(
                self,
            ).job_results().push(final(self).job_results().last()) && ({
                let stored = final(self).job_results().last();
                &&& stored.job_id@ == job_id@
                &&& stored.result@ == result@
            }),
            old(self).has_job_result(job_id@) ==> ({
                let i = old(self).job_result_index(job_id@);
                let stored = final(self).job_results()[i];
                &&& final(self).job_results().len() == old(self).job_results().len()
                &&& (forall|j: int|
                    0 <= j < old(self).job_results().len() && j != i ==> final(self).job_results()[j] == old(self).job_results()[j])
                &&& stored.job_id == old(self).job_results()[i].job_id
                &&& stored.result@ == result@
            }),
    {
        let now = now_rfc3339();
        self.insert_job_result_at(job_id, result, now)
    }

    /// Looks up a job by identifier.
    #[verifier::loop_isolation(false)]
    pub fn get_job(&self, job_id: &str) -> (r: Option<&JobRecord>)
        requires
            self.wf(),
        ensures
            (match r {
                Some(rec) => self.has_job(job_id@) && *rec == self.jobs()[self.job_index(job_id@)],
                None => !self.has_job(job_id@),
            }),
    {
        let n = self.jobs.len();
        let mut i: usize = 0;
        while i < n
            invariant
                i <= n,
                n == self.jobs@.len(),
                forall|j: int| 0 <= j < i ==> (#[trigger] self.jobs@[j]).job_id@ != job_id@,
            decreases n - i,
        {
            let rec = vstd::std_specs::vec::vec_index(&self.jobs, i);
            if crate::util::str_eq(rec.job_id.as_str(), job_id) {
                proof {
                    assert(self.has_job(job_id@));
                    assert(self.job_index(job_id@) == i);
                }
                return Some(rec);
            }
            i = i + 1;
        }
        None
    }

    /// Looks up a job result by job identifier.
    #[verifier::loop_isolation(false)]
    pub fn get_job_result(&self, job_id: &str) -> (r: Option<&JobResultRecord>)
        requires
            self.wf(),
        ensures
            (match r {
                Some(rec) => self.has_job_result(job_id@) && *rec == self.job_results()[
                    self.job_result_index(job_id@)],
                None => !self.has_job_result(job_id@),
            }),
    {
        let n = self.job_results.len();
        let mut i: usize = 0;
        while i < n
            invariant
                i <= n,
                n == self.job_results@.len(),
                forall|j: int| 0 <= j < i ==> (#[trigger] self.job_results@[j]).job_id@ != job_id@,
            decreases n - i,
        {
            let rec = vstd::std_specs::vec::vec_index(&self.job_results, i);
            if crate::util::str_eq(rec.job_id.as_str(), job_id) {
                proof {
                    assert(self.has_job_result(job_id@));
                    assert(self.job_result_index(job_id@) == i);
                }
                return Some(rec);
            }
            i = i + 1;
        }
        None
    }

    /// Creates a transfer in status `queued` under the given identifier
    /// and timestamp; rejects a duplicate identifier, changing nothing.
    #[verifier::loop_isolation(false)]
    pub fn create_transfer_with(
        &mut self,
        transfer_id: String,
        now: String,
        metadata: CanonValue,
    ) -> (r: Result<TransferRecord, StorageError>)
        requires
            old(self).wf(),
        ensures
            final(self).wf(),
            final(self).jobs() == old(self).jobs(),
            final(self).job_results() == old(self).job_results(),
            final(self).config_revisions() == old(self).config_revisions(),
            (match r {
                Ok(rec) => !old(self).has_transfer(transfer_id@) && final(self).transfers() == old(
                    self,
                ).transfers().push(final(self).transfers().last()) && ({
                    let stored = final(self).transfers().last();
                    &&& stored.transfer_id == transfer_id
                    &&& stored.status@ == "queued"@
                    &&& stored.metadata@ == metadata@
                    &&& stored.submitted_at == now
                    &&& stored.updated_at == now
                    &&& stored.failure_reason is None
                    &&& rec.transfer_id == transfer_id
                    &&& rec.status@ == "queued"@
                    &&& rec.metadata == metadata
                    &&& rec.submitted_at == now
                    &&& rec.updated_at == now
                    &&& rec.failure_reason is None
                }),
                Err(e) => old(self).has_transfer(transfer_id@) && e
                    == StorageError::DuplicateIdentifier && final(self).transfers() == old(
                    self,
                ).transfers(),
            }),
    {
        let mut i: usize = 0;
        while i < self.transfers.len()
            invariant
                i <= self.transfers@.len(),
                forall|j: int|
                    0 <= j < i ==> (#[trigger] self.transfers@[j]).transfer_id@ != transfer_id@,
            decreases self.transfers@.len() - i,
        {
            if vstd::std_specs::vec::vec_index(&self.transfers, i).transfer_id == transfer_id {
                return Err(StorageError::DuplicateIdentifier);
            }
            i = i + 1;
        }
        let stored = TransferRecord {
            transfer_id: transfer_id.clone(),
            status: String::from_str("queued"),
            metadata: crate::codec::duplicate(&metadata),
            submitted_at: now.clone(),
            updated_at: now.clone(),
            failure_reason: None,
        };
        self.transfers.push(stored);
        Ok(
            TransferRecord {
                transfer_id,
                status: String::from_str("queued"),
                metadata,
                submitted_at: now.clone(),
                updated_at: now,
                failure_reason: None,
            },
        )
    }

    /// Creates a transfer in status `queued` under a fresh identifier and
    /// the current time.
    pub fn create_transfer(&mut self, metadata: CanonValue) -> (r: Result<
        TransferRecord,
        StorageError,
    >)
        requires
            old(self).wf(),
        ensures
            final(self).wf(),
            final(self).jobs() == old(self).jobs(),
            final(self).job_results() == old(self).job_results(),
            final(self).config_revisions() == old(self).config_revisions(),
            (match r {
                Ok(rec) => !old(self).has_transfer(rec.transfer_id@) && final(self).transfers()
                    == old(self).transfers().push(final(self).transfers().last()) && ({
                    let stored = final(self).transfers().last();
                    &&& stored.transfer_id == rec.transfer_id
                    &&& stored.status@ == "queued"@
                    &&& stored.metadata@ == metadata@
                    &&& stored.failure_reason is None
                    &&& rec.status@ == "queued"@
                    &&& rec.metadata == metadata
                    &&& rec.failure_reason is None
                    &&& stored.submitted_at == rec.submitted_at
                    &&& stored.updated_at == rec.updated_at
                    &&& stored.submitted_at == stored.updated_at
                    &&& rec.submitted_at == rec.updated_at
                }),
                Err(e) => e == StorageError::DuplicateIdentifier && final(self).transfers() == old(
                    self,
                ).transfers(),
            }),
    {
        let transfer_id = new_message_id();
        let now = now_rfc3339();
        self.create_transfer_with(transfer_id, now, metadata)
    }

    /// Sets the status, failure reason and update time of the transfer
    /// with this identifier; a missing identifier changes nothing.
    #[verifier::loop_isolation(false)]
    pub fn update_transfer_status_at(
        &mut self,
        transfer_id: &str,
        status: &str,
        failure_reason: Option<&str>,
        now: String,
    )
        requires
            old(self).wf(),
        ensures
            final(self).wf(),
            final(self).jobs() == old(self).jobs(),
            final(self).job_results() == old(self).job_results(),
            final(self).config_revisions() == old(self).config_revisions(),
            !old(self).has_transfer(transfer_id@) ==> final(self).transfers() == old(
                self,
            ).transfers(),
            old(self).has_transfer(transfer_id@) ==> ({
                let i = old(self).transfer_index(transfer_id@);
                let stored = final(self).transfers()[i];
                &&& final(self).transfers().len() == old(self).transfers().len()
                &&& (forall|j: int|
                    0 <= j < old(self).transfers().len() && j != i ==> final(self).transfers()[j]
                        == old(self).transfers()[j])
                &&& stored.transfer_id == old(self).transfers()[i].transfer_id
                &&& stored.metadata == old(self).transfers()[i].metadata
                &&& stored.submitted_at == old(self).transfers()[i].submitted_at
                &&& stored.status@ == status@
                &&& stored.updated_at == now
                &&& (failure_reason is None ==> stored.failure_reason is None)
                &&& (failure_reason matches Some(fr) ==> (stored.failure_reason matches Some(sf)
                    && sf@ == fr@))
            }),
    {
        let n = self.transfers.len();
        let mut i: usize = 0;
        while i < n
            invariant
                i <= n,
                n == self.transfers@.len(),
                self.transfers@ == old(self).transfers(),
                self.jobs@ == old(self).jobs(),
                self.job_results@ == old(self).job_results(),
                self.config_revisions@ == old(self).config_revisions(),
                forall|j: int|
                    0 <= j < i ==> (#[trigger] self.transfers@[j]).transfer_id@ != transfer_id@,
            decreases n - i,
        {
            if crate::util::str_eq(
                vstd::std_specs::vec::vec_index(&self.transfers, i).transfer_id.as_str(),
                transfer_id,
            ) {
                proof {
                    assert(old(self).has_transfer(transfer_id@));
                    assert(old(self).transfer_index(transfer_id@) == i);
                }
                let rec = vstd::std_specs::vec::vec_index_mut(&mut self.transfers, i);
                rec.status = String::from_str(status);
                rec.updated_at = now;
                rec.failure_reason = match failure_reason {
                    None => None,
                    Some(fr) => Some(String::from_str(fr)),
                };
                proof {
                    assert forall|a: int, b: int|
                        0 <= a < b < self.transfers@.len() implies (
                        #[trigger] self.transfers@[a]).transfer_id@ != (
                        #[trigger] self.transfers@[b]).transfer_id@ by {
                        assert(old(self).transfers()[a].transfer_id@ != old(
                            self,
                        ).transfers()[b].transfer_id@);
                        if a != i {
                            assert(self.transfers@[a] == old(self).transfers()[a]);
                        }
                        if b != i {
                            assert(self.transfers@[b] == old(self).transfers()[b]);
                        }
                    }
                }
                return ;
            }
            i = i + 1;
        }
    }

    /// Sets the status of the transfer with this identifier at the current
    /// time; a missing identifier changes nothing.
    pub fn update_transfer_status(
        &mut self,
        transfer_id: &str,
        status: &str,
        failure_reason: Option<&str>,
    )
        requires
            old(self).wf(),
        ensures
            final(self).wf(),
            final(self).jobs() == old(self).jobs(),
            final(self).job_results() == old(self).job_results(),
            final(self).config_revisions() == old(self).config_revisions(),
            !old(self).has_transfer(transfer_id@) ==> final(self).transfers() == old(
                self,
            ).transfers(),
            old(self).has_transfer(transfer_id@) ==> ({
                let i = old(self).transfer_index(transfer_id@);
                let stored = final(self).transfers()[i];
                &&& final(self).transfers().len() == old(self).transfers().len()
                &&& (forall|j: int|
                    0 <= j < old(self).transfers().len() && j != i ==> final(self).transfers()[j]
                        == old(self).transfers()[j])
                &&& stored.transfer_id == old(self).transfers()[i].transfer_id
                &&& stored.metadata == old(self).transfers()[i].metadata
                &&& stored.submitted_at == old(self).transfers()[i].submitted_at
                &&& stored.status@ == status@
                &&& (failure_reason is None ==> stored.failure_reason is None)
                &&& (failure_reason matches Some(fr) ==> (stored.failure_reason matches Some(sf)
                    && sf@ == fr@))
            }),
    {
        let now = now_rfc3339();
        self.update_transfer_status_at(transfer_id, status, failure_reason, now)
    }

    /// Looks up a transfer by identifier.
    #[verifier::loop_isolation(false)]
    pub fn get_transfer(&self, transfer_id: &str) -> (r: Option<&TransferRecord>)
        requires
            self.wf(),
        ensures
            (match r {
                Some(rec) => self.has_transfer(transfer_id@) && *rec == self.transfers()[
                    self.transfer_index(transfer_id@)],
                None => !self.has_transfer(transfer_id@),
            }),
    {
        let n = self.transfers.len();
        let mut i: usize = 0;
        while i < n
            invariant
                i <= n,
                n == self.transfers@.len(),
                forall|j: int|
                    0 <= j < i ==> (#[trigger] self.transfers@[j]).transfer_id@ != transfer_id@,
            decreases n - i,
        {
            let rec = vstd::std_specs::vec::vec_index(&self.transfers, i);
            if crate::util::str_eq(rec.transfer_id.as_str(), transfer_id) {
                proof {
                    assert(self.has_transfer(transfer_id@));
                    assert(self.transfer_index(transfer_id@) == i);
                }
                return Some(rec);
            }
            i = i + 1;
        }
        None
    }

    /// Appends one configuration revision, numbered consecutively from one.
    pub fn append_node_config_revision(&mut self, config_json: &str) -> (r: NodeConfigRevision)
        requires
            old(self).wf(),
            old(self).config_revisions().len() < 0x7fff_ffff_ffff_ffff,
        ensures
            final(self).wf(),
            final(self).jobs() == old(self).jobs(),
            final(self).job_results() == old(self).job_results(),
            final(self).transfers() == old(self).transfers(),
            final(self).config_revisions() == old(self).config_revisions().push(
                final(self).config_revisions().last(),
            ),
            ({
                let stored = final(self).config_revisions().last();
                &&& stored.revision_id == old(self).config_revisions().len() + 1
                &&& stored.config_json@ == config_json@
                &&& r.revision_id == stored.revision_id
                &&& r.config_json@ == config_json@
                &&& r.created_at == stored.created_at
            }),
    {
        let now = now_rfc3339();
        let revision_id = (self.config_revisions.len() as i64) + 1;
        let stored = NodeConfigRevision {
            revision_id,
            config_json: String::from_str(config_json),
            created_at: now.clone(),
        };
        self.config_revisions.push(stored);
        NodeConfigRevision { revision_id, config_json: String::from_str(config_json), created_at: now }
    }
}

} // verus!
