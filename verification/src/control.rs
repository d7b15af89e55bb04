//! The control plane: synchronous submission of jobs and transfers, the
//! lifecycle state machine that advances them to a terminal status, the
//! shared node configuration, and the bounded in-process log.
//!
//! Submission creates the durable record in `queued` and returns at once;
//! a separate execution step owns the identifier from then on and drives
//! it `queued -> running -> success | failed`, never backwards. Status is
//! persisted before the bridge is invoked, and a job's result is persisted
//! before its status flips to `success`.
use crate::bridge::InMemoryRpcMeshBridge;
use crate::bus::{EventBus, SseUpdate};
use crate::codec::{lex_lt, CanonValue, SpecTree};
use crate::envelope::MeshCommandEnvelope;
use crate::storage::{
    JobRecord, JobResultRecord, MemoryStorage, NodeConfigRevision, StorageError, TransferRecord,
};
use crate::transfer::TransferUploadRequest;
use crate::util::{
    blank, contains_sub, eq_ignore_ascii, new_message_id, now_rfc3339, str_contains,
    str_eq, str_eq_ignore_ascii_case,
};
use vstd::prelude::*;

verus! {

broadcast use vstd::string::group_string_axioms;

/// The node's shared configuration. A reader never observes a partial
/// update: the control plane replaces it whole.
pub struct NodeConfig {
    pub rpc_endpoint: String,
    pub http_bind: String,
    pub http_auth_token: Option<String>,
    pub sqlite_path: String,
    pub acl_mode: String,
    pub prefer_link: bool,
}

/// A point-in-time health summary.
pub struct NodeStatus {
    pub healthy: bool,
    pub ready: bool,
    pub daemon_connected: bool,
    pub timestamp: String,
}

/// One line of the bounded in-process log.
pub struct LogLine {
    pub timestamp: String,
    pub level: String,
    pub message: String,
}

impl View for LogLine {
    type V = (Seq<char>, Seq<char>, Seq<char>);

    open spec fn view(&self) -> (Seq<char>, Seq<char>, Seq<char>) {
        (self.timestamp@, self.level@, self.message@)
    }
}

/// The views of a sequence of log lines.
pub open spec fn line_views(s: Seq<LogLine>) -> Seq<(Seq<char>, Seq<char>, Seq<char>)> {
    Seq::new(s.len(), |i: int| s[i]@)
}

/// A filter over the in-process log.
pub struct LogQuery {
    pub since: Option<String>,
    pub level: Option<String>,
    pub contains: Option<String>,
    pub limit: Option<usize>,
}

/// How many lines the in-process log retains; older lines are evicted
/// oldest first.
pub const LOG_BUFFER_CAPACITY: usize = 500;

/// How many lines a query returns when it does not say.
pub const LOG_QUERY_DEFAULT_LIMIT: usize = 200;

/// Whether one log line passes a query's level, text and time filters.
pub open spec fn line_matches(
    v: (Seq<char>, Seq<char>, Seq<char>),
    level: Option<Seq<char>>,
    needle: Option<Seq<char>>,
    since: Option<Seq<char>>,
) -> bool {
    (match level {
        Option::None => true,
        Option::Some(l) => eq_ignore_ascii(v.1, l),
    }) && (match needle {
        Option::None => true,
        Option::Some(nd) => contains_sub(v.2, nd),
    }) && (match since {
        Option::None => true,
        Option::Some(sc) => !lex_lt(v.0, sc),
    })
}

/// The lines passing the filters, in order.
pub open spec fn filtered_views(
    vs: Seq<(Seq<char>, Seq<char>, Seq<char>)>,
    level: Option<Seq<char>>,
    needle: Option<Seq<char>>,
    since: Option<Seq<char>>,
) -> Seq<(Seq<char>, Seq<char>, Seq<char>)>
    decreases vs.len(),
{
    if vs.len() == 0 {
        Seq::empty()
    } else {
        let rest = filtered_views(vs.subrange(1, vs.len() as int), level, needle, since);
        if line_matches(vs[0], level, needle, since) {
            seq![vs[0]] + rest
        } else {
            rest
        }
    }
}

/// The view of a query's level filter.
pub open spec fn query_level(q: LogQuery) -> Option<Seq<char>> {
    match q.level {
        Option::None => Option::None,
        Option::Some(l) => Option::Some(l@),
    }
}

/// The view of a query's text filter.
pub open spec fn query_contains(q: LogQuery) -> Option<Seq<char>> {
    match q.contains {
        Option::None => Option::None,
        Option::Some(c) => Option::Some(c@),
    }
}

/// The view of a query's time filter.
pub open spec fn query_since(q: LogQuery) -> Option<Seq<char>> {
    match q.since {
        Option::None => Option::None,
        Option::Some(s) => Option::Some(s@),
    }
}

/// The query's limit, defaulted.
pub open spec fn query_limit(q: LogQuery) -> int {
    match q.limit {
        Option::None => LOG_QUERY_DEFAULT_LIMIT as int,
        Option::Some(l) => l as int,
    }
}

/// The bounded in-process log buffer.
pub struct LogBuffer {
    pub lines: Vec<LogLine>,
}

impl LogBuffer {
    /// The retained lines, oldest first.
    pub open spec fn views(self) -> Seq<(Seq<char>, Seq<char>, Seq<char>)> {
        line_views(self.lines@)
    }

    /// At most the capacity is retained.
    pub open spec fn wf(self) -> bool {
        self.lines@.len() <= LOG_BUFFER_CAPACITY
    }

    pub fn new() -> (r: Self)
        ensures
            r.wf(),
            r.views().len() == 0,
    {
        LogBuffer { lines: Vec::new() }
    }

    /// Appends one line under the given timestamp, evicting the oldest
    /// line if the buffer is full. Best-effort bookkeeping: it never fails.
    pub fn write_at(&mut self, level: &str, message: &str, timestamp: String)
        requires
            old(self).wf(),
        ensures
            final(self).wf(),
            old(self).views().len() < LOG_BUFFER_CAPACITY ==> final(self).views() == old(self).views().push((timestamp@, level@, message@)),
            old(self).views().len() == LOG_BUFFER_CAPACITY ==> final(self).views() == old(self).views().push((timestamp@, level@, message@)).subrange(
                1,
                LOG_BUFFER_CAPACITY as int + 1,
            ),
    {
        if self.lines.len() == LOG_BUFFER_CAPACITY {
            let _evicted = self.lines.remove(0);
        }
        self.lines.push(
            LogLine { timestamp, level: String::from_str(level), message: String::from_str(message) },
        );
        proof {
            if old(self).views().len() < LOG_BUFFER_CAPACITY {
                assert(self.views() =~= old(self).views().push((timestamp@, level@, message@)));
            } else {
                assert(self.views() =~= old(self).views().push(
                    (timestamp@, level@, message@),
                ).subrange(1, LOG_BUFFER_CAPACITY as int + 1));
            }
        }
    }

    /// Appends one line at the current time.
    pub fn write(&mut self, level: &str, message: &str)
        requires
            old(self).wf(),
        ensures
            final(self).wf(),
            old(self).views().len() < LOG_BUFFER_CAPACITY ==> (final(self).views().len() == old(self).views().len() + 1 && final(self).views().subrange(0, old(self).views().len() as int)
                == old(self).views() && final(self).views().last().1 == level@ && final(self).views().last().2 == message@),
            old(self).views().len() == LOG_BUFFER_CAPACITY ==> (final(self).views().len()
                == LOG_BUFFER_CAPACITY && final(self).views().subrange(
                0,
                LOG_BUFFER_CAPACITY as int - 1,
            ) == old(self).views().subrange(1, LOG_BUFFER_CAPACITY as int) && final(self).views().last().1 == level@ && final(self).views().last().2 == message@),
    {
        let now = now_rfc3339();
        let ghost pre = self.views();
        self.write_at(level, message, now);
        proof {
            if pre.len() < LOG_BUFFER_CAPACITY {
                assert(self.views().subrange(0, pre.len() as int) =~= pre);
            } else {
                assert(self.views().subrange(0, LOG_BUFFER_CAPACITY as int - 1) =~= pre.subrange(
                    1,
                    LOG_BUFFER_CAPACITY as int,
                ));
            }
        }
    }
}

/// Structural copy of a log line.
fn dup_line(line: &LogLine) -> (r: LogLine)
    ensures
        r@ == line@,
{
    LogLine {
        timestamp: line.timestamp.clone(),
        level: line.level.clone(),
        message: line.message.clone(),
    }
}

/// Whether one line passes the query's filters.
fn line_passes(line: &LogLine, query: &LogQuery) -> (r: bool)
    ensures
        r == line_matches(line@, query_level(*query), query_contains(*query), query_since(*query)),
{
    let level_ok = match &query.level {
        Option::None => true,
        Option::Some(l) => str_eq_ignore_ascii_case(line.level.as_str(), l.as_str()),
    };
    if !level_ok {
        return false;
    }
    let contains_ok = match &query.contains {
        Option::None => true,
        Option::Some(needle) => str_contains(line.message.as_str(), needle.as_str()),
    };
    if !contains_ok {
        return false;
    }
    match &query.since {
        Option::None => true,
        Option::Some(since) => !crate::codec::str_lt(
            line.timestamp.as_str(),
            since.as_str(),
        ),
    }
}

/// Filters the retained log: level (case-insensitive), message text, and
/// minimum timestamp, then keeps only the newest `limit` matches.
#[verifier::loop_isolation(false)]
pub fn filter_logs(lines: &Vec<LogLine>, query: &LogQuery) -> (r: Vec<LogLine>)
    ensures
        ({
            let f = filtered_views(
                line_views(lines@),
                query_level(*query),
                query_contains(*query),
                query_since(*query),
            );
            let lim = query_limit(*query);
            line_views(r@) == (if f.len() > lim {
                f.subrange(f.len() - lim, f.len() as int)
            } else {
                f
            })
        }),
{
    let ghost lvl = query_level(*query);
    let ghost nd = query_contains(*query);
    let ghost sc = query_since(*query);
    let ghost full = line_views(lines@);
    let mut out: Vec<LogLine> = Vec::new();
    let n = lines.len();
    let mut i: usize = 0;
    proof {
        assert(full.subrange(0, full.len() as int) =~= full);
    }
    while i < n
        invariant
            i <= n,
            n == lines@.len(),
            filtered_views(full, lvl, nd, sc) == line_views(out@) + filtered_views(
                full.subrange(i as int, full.len() as int),
                lvl,
                nd,
                sc,
            ),
        decreases n - i,
    {
        let ghost suffix = full.subrange(i as int, full.len() as int);
        let line = vstd::std_specs::vec::vec_index(lines, i);
        proof {
            assert(suffix[0] == line@);
            assert(suffix.subrange(1, suffix.len() as int) =~= full.subrange(
                i + 1,
                full.len() as int,
            ));
        }
        if line_passes(line, query) {
            let ghost out_before = out@;
            let copy = dup_line(line);
            out.push(copy);
            proof {
                assert(line_views(out@) =~= line_views(out_before).push(line@));
                assert(line_views(out_before).push(line@) + filtered_views(
                    full.subrange(i + 1, full.len() as int),
                    lvl,
                    nd,
                    sc,
                ) =~= line_views(out_before) + (seq![line@] + filtered_views(
                    full.subrange(i + 1, full.len() as int),
                    lvl,
                    nd,
                    sc,
                )));
            }
        }
        i = i + 1;
    }
    proof {
        assert(full.subrange(n as int, full.len() as int).len() == 0);
        assert(filtered_views(full.subrange(n as int, full.len() as int), lvl, nd, sc)
            =~= Seq::<(Seq<char>, Seq<char>, Seq<char>)>::empty());
        assert(line_views(out@) + filtered_views(
            full.subrange(n as int, full.len() as int),
            lvl,
            nd,
            sc,
        ) =~= line_views(out@));
    }
    let limit = match query.limit {
        Option::None => LOG_QUERY_DEFAULT_LIMIT,
        Option::Some(l) => l,
    };
    let ghost f = filtered_views(full, lvl, nd, sc);
    let ghost mut removed: int = 0;
    while out.len() > limit
        invariant
            0 <= removed,
            removed + out@.len() == f.len(),
            line_views(out@) == f.subrange(removed, f.len() as int),
            f.len() > query_limit(*query) ==> out@.len() >= limit,
            f.len() <= query_limit(*query) ==> removed == 0,
            query_limit(*query) == limit,
        decreases out@.len(),
    {
        let ghost before = out@;
        let _dropped = out.remove(0);
        proof {
            let prev = removed;
            removed = removed + 1;
            assert forall|j: int| 0 <= j < out@.len() implies line_views(out@)[j] == f.subrange(
                removed,
                f.len() as int,
            )[j] by {
                assert(out@[j] == before[j + 1]);
                assert(line_views(before)[j + 1] == f.subrange(prev, f.len() as int)[j + 1]);
                assert(f.subrange(prev, f.len() as int)[j + 1] == f[prev + 1 + j]);
                assert(f.subrange(removed, f.len() as int)[j] == f[removed + j]);
            }
            assert(line_views(out@) =~= f.subrange(removed, f.len() as int));
        }
    }
    proof {
        if f.len() > query_limit(*query) {
            assert(out@.len() == limit);
            assert(line_views(out@) == f.subrange(f.len() - query_limit(*query), f.len() as int));
        } else {
            assert(removed == 0);
            assert(line_views(out@) =~= f);
        }
    }
    out
}

/// The outcome of the bearer-token check.
pub enum AuthDecision {
    /// The request may proceed.
    Allowed,
    /// A token is required but none is configured.
    TokenMissing,
    /// The presented credential does not match.
    Unauthorized,
}

/// The tag on every job lifecycle update.
pub open spec fn job_status_event() -> Seq<char> {
    "job.status.changed"@
}

/// The payload of a lifecycle update: the identifier and its new status.
pub open spec fn spec_status_event(
    id_key: Seq<char>,
    id: Seq<char>,
    status: Seq<char>,
) -> SpecTree {
    SpecTree::Obj(seq![(id_key, SpecTree::Str(id)), ("status"@, SpecTree::Str(status))])
}

/// The payload of a failure update: identifier, reason and status.
pub open spec fn spec_failed_event(id: Seq<char>, reason: Seq<char>) -> SpecTree {
    SpecTree::Obj(
        seq![
            ("job_id"@, SpecTree::Str(id)),
            ("reason"@, SpecTree::Str(reason)),
            ("status"@, SpecTree::Str("failed"@)),
        ],
    )
}

/// Builds a two-field lifecycle payload.
fn status_event_payload(id_key: &str, id: &str, status: &str) -> (r: CanonValue)
    ensures
        r@ == spec_status_event(id_key@, id@, status@),
{
    let mut entries: Vec<(String, CanonValue)> = Vec::new();
    let k1 = String::from_str(id_key);
    let v1 = CanonValue::Str(String::from_str(id));
    entries.push((k1, v1));
    let k2 = String::from_str("status");
    let v2 = CanonValue::Str(String::from_str(status));
    entries.push((k2, v2));
    let ghost ev = entries@;
    let r = CanonValue::Obj(entries);
    proof {
        let et = r@->Obj_0;
        assert(et[0] == (ev[0].0@, ev[0].1@));
        assert(et[1] == (ev[1].0@, ev[1].1@));
        assert(et =~= spec_status_event(id_key@, id@, status@)->Obj_0);
    }
    r
}

/// Builds a failure payload with the reason.
fn failed_event_payload(id: &str, reason: &str) -> (r: CanonValue)
    ensures
        r@ == spec_failed_event(id@, reason@),
{
    let mut entries: Vec<(String, CanonValue)> = Vec::new();
    let k1 = String::from_str("job_id");
    let v1 = CanonValue::Str(String::from_str(id));
    entries.push((k1, v1));
    let k2 = String::from_str("reason");
    let v2 = CanonValue::Str(String::from_str(reason));
    entries.push((k2, v2));
    let k3 = String::from_str("status");
    let v3 = CanonValue::Str(String::from_str("failed"));
    entries.push((k3, v3));
    let ghost ev = entries@;
    let r = CanonValue::Obj(entries);
    proof {
        let et = r@->Obj_0;
        assert(et[0] == (ev[0].0@, ev[0].1@));
        assert(et[1] == (ev[1].0@, ev[1].1@));
        assert(et[2] == (ev[2].0@, ev[2].1@));
        assert(et =~= spec_failed_event(id@, reason@)->Obj_0);
    }
    r
}

/// The first value held under `key` in an object payload, when it is a
/// string.
pub open spec fn assoc_first(entries: Seq<(Seq<char>, SpecTree)>, key: Seq<char>) -> Option<
    SpecTree,
>
    decreases entries.len(),
{
    if entries.len() == 0 {
        Option::None
    } else if entries[0].0 == key {
        Option::Some(entries[0].1)
    } else {
        assoc_first(entries.subrange(1, entries.len() as int), key)
    }
}

/// The string found under `key` at the top level of a payload, if any.
pub open spec fn spec_lookup_str(t: SpecTree, key: Seq<char>) -> Option<Seq<char>> {
    match t {
        SpecTree::Obj(es) => match assoc_first(es, key) {
            Option::Some(v) => match v {
                SpecTree::Str(s) => Option::Some(s),
                _ => Option::None,
            },
            _ => Option::None,
        },
        _ => Option::None,
    }
}

/// The integer found under `key` at the top level of a payload, if any.
pub open spec fn spec_lookup_int(t: SpecTree, key: Seq<char>) -> Option<int> {
    match t {
        SpecTree::Obj(es) => match assoc_first(es, key) {
            Option::Some(v) => match v {
                SpecTree::Int(i) => Option::Some(i),
                _ => Option::None,
            },
            _ => Option::None,
        },
        _ => Option::None,
    }
}

/// The size recorded for a transfer payload: its byte length, capped at
/// the signed 64-bit maximum the metadata tree can carry.
pub open spec fn transfer_payload_size(s: Seq<char>) -> int {
    let bl = vstd::utf8::encode_utf8(s).len() as int;
    if bl > i64::MAX {
        i64::MAX as int
    } else {
        bl
    }
}

/// Finds the first string held under `key` at the top level of a payload.
#[verifier::loop_isolation(false)]
fn lookup_str<'a>(v: &'a CanonValue, key: &str) -> (r: Option<&'a String>)
    ensures
        (match r {
            Option::Some(s) => spec_lookup_str(v@, key@) == Option::Some(s@),
            Option::None => spec_lookup_str(v@, key@) is None,
        }),
{
    match v {
        CanonValue::Obj(entries) => {
            let ghost et = v@->Obj_0;
            let n = entries.len();
            let mut i: usize = 0;
            proof {
                assert(et.subrange(0, et.len() as int) =~= et);
            }
            while i < n
                invariant
                    i <= n,
                    n == entries@.len(),
                    et.len() == n,
                    forall|j: int|
                        0 <= j < n ==> #[trigger] et[j] == (entries@[j].0@, entries@[j].1@),
                    assoc_first(et, key@) == assoc_first(
                        et.subrange(i as int, et.len() as int),
                        key@,
                    ),
                decreases n - i,
            {
                let ghost suffix = et.subrange(i as int, et.len() as int);
                proof {
                    assert(suffix[0] == et[i as int]);
                    assert(suffix.subrange(1, suffix.len() as int) =~= et.subrange(
                        i + 1,
                        et.len() as int,
                    ));
                }
                let pair = vstd::std_specs::vec::vec_index(entries, i);
                if str_eq(pair.0.as_str(), key) {
                    match &pair.1 {
                        CanonValue::Str(s) => {
                            return Some(s);
                        }
                        _ => {
                            return None;
                        }
                    }
                }
                i = i + 1;
            }
            proof {
                assert(et.subrange(n as int, et.len() as int).len() == 0);
            }
            None
        }
        _ => None,
    }
}

/// The orchestrator and its collaborators: the durable store, the mesh
/// bridge, the shared configuration, the event bus and the log buffer.
pub struct ControlPlane {
    pub storage: MemoryStorage,
    pub bridge: InMemoryRpcMeshBridge,
    pub node_config: NodeConfig,
    pub contract_doc: String,
    pub sse_bus: EventBus,
    pub log_buffer: LogBuffer,
    pub require_bearer: bool,
}

impl ControlPlane {
    /// The standing invariant: unique identifiers, a well-formed bus and
    /// bounded log, and — whenever a job's status reads `success` — a
    /// result record that was written no later than the status flip.
    pub open spec fn wf(self) -> bool {
        &&& self.storage.wf()
        &&& self.sse_bus.wf()
        &&& self.log_buffer.wf()
        &&& forall|i: int|
            0 <= i < self.storage.jobs().len() && (#[trigger] self.storage.jobs()[i]).status@
                == "success"@ ==> self.storage.has_job_result(self.storage.jobs()[i].job_id@)
    }

    pub fn new(
        storage: MemoryStorage,
        bridge: InMemoryRpcMeshBridge,
        node_config: NodeConfig,
        contract_doc: String,
        require_bearer: bool,
    ) -> (r: Self)
        requires
            storage.wf(),
            forall|i: int|
                0 <= i < storage.jobs().len() && (#[trigger] storage.jobs()[i]).status@
                    == "success"@ ==> storage.has_job_result(storage.jobs()[i].job_id@),
        ensures
            r.wf(),
            r.storage == storage,
            r.bridge == bridge,
            r.node_config == node_config,
            r.contract_doc == contract_doc,
            r.require_bearer == require_bearer,
            r.sse_bus.sub_count() == 0,
            r.sse_bus.published().len() == 0,
            r.log_buffer.views().len() == 0,
    {
        ControlPlane {
            storage,
            bridge,
            node_config,
            contract_doc,
            sse_bus: EventBus::new(),
            log_buffer: LogBuffer::new(),
            require_bearer,
        }
    }

    /// Submits one command: the job is created synchronously in `queued`
    /// (so the caller gets its identifier at once), the submission is
    /// logged, and a `queued` lifecycle update is published. The detached
    /// execution step is expected to follow exactly once.
    pub fn submit_command(&mut self, operation: &str, payload: CanonValue) -> (r: Result<
        JobRecord,
        StorageError,
    >)
        requires
            old(self).wf(),
        ensures
            final(self).wf(),
            final(self).bridge == old(self).bridge,
            final(self).node_config == old(self).node_config,
            final(self).require_bearer == old(self).require_bearer,
            final(self).storage.transfers() == old(self).storage.transfers(),
            final(self).storage.job_results() == old(self).storage.job_results(),
            final(self).sse_bus.sub_count() == old(self).sse_bus.sub_count(),
            (match r {
                Ok(rec) => !old(self).storage.has_job(rec.job_id@) && final(self).storage.jobs()
                    == old(self).storage.jobs().push(final(self).storage.jobs().last()) && ({
                    let stored = final(self).storage.jobs().last();
                    &&& stored.job_id == rec.job_id
                    &&& stored.operation@ == operation@
                    &&& stored.status@ == "queued"@
                    &&& stored.payload@ == payload@
                    &&& rec.operation@ == operation@
                    &&& rec.status@ == "queued"@
                    &&& rec.payload == payload
                }) && final(self).sse_bus.published() == old(self).sse_bus.published().push(
                    (job_status_event(), spec_status_event("job_id"@, rec.job_id@, "queued"@)),
                ),
                Err(_) => final(self).storage.jobs() == old(self).storage.jobs() && final(self).sse_bus.published() == old(self).sse_bus.published(),
            }),
    {
        let created = self.storage.create_job(operation, payload);
        match created {
            Ok(rec) => {
                let mut msg = String::from_str("job submitted for operation ");
                msg.append(operation);
                self.log_buffer.write("info", msg.as_str());
                let data = status_event_payload("job_id", rec.job_id.as_str(), "queued");
                self.sse_bus.publish(
                    SseUpdate { event_type: String::from_str("job.status.changed"), data },
                );
                proof {
                    reveal_strlit("queued");
                    reveal_strlit("success");
                    assert forall|i: int|
                        0 <= i < self.storage.jobs().len() && (
                        #[trigger] self.storage.jobs()[i]).status@ == "success"@ implies
                        self.storage.has_job_result(self.storage.jobs()[i].job_id@) by {
                        lemma_status_literals_distinct();
                        if i == old(self).storage.jobs().len() {
                            assert(self.storage.jobs()[i].status@ == "queued"@);
                            assert(false);
                        }
                        assert(self.storage.jobs()[i] == old(self).storage.jobs()[i]);
                        assert(old(self).storage.has_job_result(
                            old(self).storage.jobs()[i].job_id@,
                        ));
                        let w = choose|w: int|
                            0 <= w < old(self).storage.job_results().len() && (#[trigger] old(
                                self,
                            ).storage.job_results()[w]).job_id@ == old(
                                self,
                            ).storage.jobs()[i].job_id@;
                        assert(self.storage.job_results()[w].job_id@
                            == self.storage.jobs()[i].job_id@);
                    }
                }
                Ok(rec)
            }
            Err(e) => Err(e),
        }
    }

    /// Advances one submitted command to its terminal status. The status
    /// is persisted as `running` before the bridge is invoked; on bridge
    /// success the result is persisted before the flip to `success`; on
    /// bridge rejection the job fails with the rendered reason and is
    /// never retried. One `running` and one terminal lifecycle update are
    /// published, in that order.
    pub fn process_command_job(&mut self, job_id: &str, operation: &str, payload: CanonValue)
        requires
            old(self).wf(),
        ensures
            final(self).wf(),
            final(self).bridge == old(self).bridge,
            final(self).node_config == old(self).node_config,
            final(self).storage.transfers() == old(self).storage.transfers(),
            final(self).sse_bus.sub_count() == old(self).sse_bus.sub_count(),
            final(self).sse_bus.published() == old(self).sse_bus.published().push(
                (job_status_event(), spec_status_event("job_id"@, job_id@, "running"@)),
            ).push(
                (
                    job_status_event(),
                    if blank(operation@) {
                        spec_failed_event(
                            job_id@,
                            "invalid payload: operation cannot be empty"@,
                        )
                    } else {
                        spec_status_event("job_id"@, job_id@, "success"@)
                    },
                ),
            ),
            !blank(operation@) ==> final(self).storage.has_job_result(job_id@) && ({
                let res = final(self).storage.job_results()[final(self).storage.job_result_index(
                    job_id@,
                )];
                res.result@ == crate::bridge::spec_acceptance_payload(
                    crate::bridge::spec_select_transport(
                        old(self).bridge.prefer_link,
                        old(self).bridge.link_available,
                        Option::None,
                    ),
                )
            }),
            blank(operation@) ==> final(self).storage.job_results() == old(self).storage.job_results(),
            old(self).storage.has_job(job_id@) ==> ({
                let i = old(self).storage.job_index(job_id@);
                let stored = final(self).storage.jobs()[i];
                &&& final(self).storage.jobs().len() == old(self).storage.jobs().len()
                &&& stored.job_id == old(self).storage.jobs()[i].job_id
                &&& stored.status@ == (if blank(operation@) {
                    "failed"@
                } else {
                    "success"@
                })
                &&& (blank(operation@) ==> (stored.failure_reason matches Some(fr) && fr@
                    == "invalid payload: operation cannot be empty"@))
            }),
            !old(self).storage.has_job(job_id@) ==> final(self).storage.jobs() == old(self).storage.jobs(),
    {
        self.storage.update_job_status(job_id, "running", None);
        let data = status_event_payload("job_id", job_id, "running");
        self.sse_bus.publish(
            SseUpdate { event_type: String::from_str("job.status.changed"), data },
        );
        let destination = match lookup_str(&payload, "destination_identity") {
            Some(s) => s.clone(),
            None => String::from_str("mesh"),
        };
        let envelope = MeshCommandEnvelope {
            message_id: new_message_id(),
            operation: String::from_str(operation),
            sent_at: now_rfc3339(),
            source_identity: String::from_str("local-node"),
            destination_identity: destination,
            content_type: crate::content_type_string(),
            payload,
            ttl_ms: None,
            transport_hint: None,
        };
        let outcome = self.bridge.send_command(envelope);
        match outcome {
            Ok(result) => {
                self.storage.insert_job_result(job_id, result.payload);
                self.storage.update_job_status(job_id, "success", None);
                let data = status_event_payload("job_id", job_id, "success");
                self.sse_bus.publish(
                    SseUpdate { event_type: String::from_str("job.status.changed"), data },
                );
                let mut msg = String::from_str("job ");
                msg.append(job_id);
                msg.append(" completed");
                self.log_buffer.write("info", msg.as_str());
                proof {
                    lemma_status_literals_distinct();
                    assert(self.storage.has_job_result(job_id@));
                    assert forall|i: int|
                        0 <= i < self.storage.jobs().len() && (
                        #[trigger] self.storage.jobs()[i]).status@ == "success"@ implies
                        self.storage.has_job_result(self.storage.jobs()[i].job_id@) by {
                        let pre = old(self).storage;
                        if pre.has_job(job_id@) && i == pre.job_index(job_id@) {
                            assert(self.storage.jobs()[i].job_id == pre.jobs()[i].job_id);
                            assert(pre.jobs()[i].job_id@ == job_id@);
                        } else {
                            assert(self.storage.jobs()[i] == pre.jobs()[i]);
                            assert(pre.has_job_result(pre.jobs()[i].job_id@));
                            let w = choose|w: int|
                                0 <= w < pre.job_results().len() && (
                                #[trigger] pre.job_results()[w]).job_id@
                                    == pre.jobs()[i].job_id@;
                            assert(self.storage.job_results()[w].job_id@
                                == pre.jobs()[i].job_id@);
                        }
                    }
                }
            }
            Err(error) => {
                let reason = error.message();
                proof {
                    reveal_strlit("invalid payload: ");
                    reveal_strlit("operation cannot be empty");
                    reveal_strlit("invalid payload: operation cannot be empty");
                    assert(reason@ =~= "invalid payload: operation cannot be empty"@);
                }
                self.storage.update_job_status(job_id, "failed", Some(reason.as_str()));
                let data = failed_event_payload(job_id, reason.as_str());
                self.sse_bus.publish(
                    SseUpdate { event_type: String::from_str("job.status.changed"), data },
                );
                let mut msg = String::from_str("job ");
                msg.append(job_id);
                msg.append(" failed");
                self.log_buffer.write("error", msg.as_str());
                proof {
                    lemma_status_literals_distinct();
                    assert forall|i: int|
                        0 <= i < self.storage.jobs().len() && (
                        #[trigger] self.storage.jobs()[i]).status@ == "success"@ implies
                        self.storage.has_job_result(self.storage.jobs()[i].job_id@) by {
                        let pre = old(self).storage;
                        if pre.has_job(job_id@) && i == pre.job_index(job_id@) {
                            assert(self.storage.jobs()[i].status@ == "failed"@);
                            assert(false);
                        } else {
                            assert(self.storage.jobs()[i] == pre.jobs()[i]);
                            assert(pre.has_job_result(pre.jobs()[i].job_id@));
                            let w = choose|w: int|
                                0 <= w < pre.job_results().len() && (
                                #[trigger] pre.job_results()[w]).job_id@
                                    == pre.jobs()[i].job_id@;
                            assert(self.storage.job_results()[w].job_id@
                                == pre.jobs()[i].job_id@);
                        }
                    }
                }
            }
        }
    }

    /// Looks up a job.
    pub fn get_job(&self, job_id: &str) -> (r: Option<&JobRecord>)
        requires
            self.wf(),
        ensures
            (match r {
                Some(rec) => self.storage.has_job(job_id@) && *rec == self.storage.jobs()[
                    self.storage.job_index(job_id@)],
                None => !self.storage.has_job(job_id@),
            }),
    {
        self.storage.get_job(job_id)
    }

    /// Looks up a job's result.
    pub fn get_job_result(&self, job_id: &str) -> (r: Option<&JobResultRecord>)
        requires
            self.wf(),
        ensures
            (match r {
                Some(rec) => self.storage.has_job_result(job_id@) && *rec
                    == self.storage.job_results()[self.storage.job_result_index(job_id@)],
                None => !self.storage.has_job_result(job_id@),
            }),
    {
        self.storage.get_job_result(job_id)
    }

    /// Looks up a transfer.
    pub fn get_transfer(&self, transfer_id: &str) -> (r: Option<&TransferRecord>)
        requires
            self.wf(),
        ensures
            (match r {
                Some(rec) => self.storage.has_transfer(transfer_id@) && *rec
                    == self.storage.transfers()[self.storage.transfer_index(transfer_id@)],
                None => !self.storage.has_transfer(transfer_id@),
            }),
    {
        self.storage.get_transfer(transfer_id)
    }

    /// Submits one transfer: the record is created synchronously in
    /// `queued` with its metadata, and a `queued` progress update is
    /// published.
    pub fn submit_transfer(&mut self, request: &TransferUploadRequest) -> (r: Result<
        TransferRecord,
        StorageError,
    >)
        requires
            old(self).wf(),
        ensures
            final(self).wf(),
            final(self).storage.jobs() == old(self).storage.jobs(),
            final(self).storage.job_results() == old(self).storage.job_results(),
            final(self).sse_bus.sub_count() == old(self).sse_bus.sub_count(),
            (match r {
                Ok(rec) => final(self).storage.transfers() == old(self).storage.transfers().push(
                    final(self).storage.transfers().last(),
                ) && ({
                    let stored = final(self).storage.transfers().last();
                    &&& stored.transfer_id == rec.transfer_id
                    &&& stored.status@ == "queued"@
                    &&& rec.status@ == "queued"@
                    &&& spec_lookup_str(stored.metadata@, "destination_identity"@)
                        == Option::Some(request.destination_identity@)
                    &&& spec_lookup_str(stored.metadata@, "file_name"@) == Option::Some(
                        request.file_name@,
                    )
                    &&& spec_lookup_str(stored.metadata@, "media_type"@) == Option::Some(
                        request.media_type@,
                    )
                    &&& spec_lookup_int(stored.metadata@, "payload_size"@) == Option::Some(
                        transfer_payload_size(request.payload_base64@),
                    )
                }) && final(self).sse_bus.published() == old(self).sse_bus.published().push(
                    (
                        "transfer.progress"@,
                        spec_status_event("transfer_id"@, rec.transfer_id@, "queued"@),
                    ),
                ),
                Err(_) => final(self).storage.transfers() == old(self).storage.transfers() && final(self).sse_bus.published() == old(self).sse_bus.published(),
            }),
    {
        let size_bytes = request.payload_base64.as_str().as_bytes_vec();
        let size: i64 = if (size_bytes.len() as u64) <= 0x7fff_ffff_ffff_ffffu64 {
            size_bytes.len() as i64
        } else {
            i64::MAX
        };
        let mut entries: Vec<(String, CanonValue)> = Vec::new();
        let k1 = String::from_str("destination_identity");
        let v1 = CanonValue::Str(request.destination_identity.clone());
        entries.push((k1, v1));
        let k2 = String::from_str("file_name");
        let v2 = CanonValue::Str(request.file_name.clone());
        entries.push((k2, v2));
        let k3 = String::from_str("media_type");
        let v3 = CanonValue::Str(request.media_type.clone());
        entries.push((k3, v3));
        let k4 = String::from_str("payload_size");
        let v4 = CanonValue::Int(size);
        entries.push((k4, v4));
        let ghost ev = entries@;
        let metadata = CanonValue::Obj(entries);
        proof {
            let et = metadata@->Obj_0;
            assert(et[0] == (ev[0].0@, ev[0].1@));
            assert(et[1] == (ev[1].0@, ev[1].1@));
            assert(et[2] == (ev[2].0@, ev[2].1@));
            assert(et[3] == (ev[3].0@, ev[3].1@));
            reveal_strlit("destination_identity");
            reveal_strlit("file_name");
            reveal_strlit("media_type");
            reveal_strlit("payload_size");
            assert("destination_identity"@.len() == 20);
            assert("file_name"@.len() == 9);
            assert("media_type"@.len() == 10);
            assert(assoc_first(et, "destination_identity"@) == Option::Some(et[0].1));
            let t1 = et.subrange(1, et.len() as int);
            assert(t1[0] == et[1]);
            let t2 = t1.subrange(1, t1.len() as int);
            assert(t2[0] == et[2]);
            assert(assoc_first(et, "file_name"@) == assoc_first(t1, "file_name"@));
            assert(assoc_first(t1, "file_name"@) == Option::Some(et[1].1));
            assert(assoc_first(et, "media_type"@) == assoc_first(t1, "media_type"@));
            assert(assoc_first(t1, "media_type"@) == assoc_first(t2, "media_type"@));
            assert(assoc_first(t2, "media_type"@) == Option::Some(et[2].1));
            assert("payload_size"@.len() == 12);
            let t3 = t2.subrange(1, t2.len() as int);
            assert(t3[0] == et[3]);
            assert(assoc_first(et, "payload_size"@) == assoc_first(t1, "payload_size"@));
            assert(assoc_first(t1, "payload_size"@) == assoc_first(t2, "payload_size"@));
            assert(assoc_first(t2, "payload_size"@) == assoc_first(t3, "payload_size"@));
            assert(assoc_first(t3, "payload_size"@) == Option::Some(et[3].1));
            assert(et[3].1 == SpecTree::Int(size as int));
            assert(size as int == transfer_payload_size(request.payload_base64@));
        }
        let created = self.storage.create_transfer(metadata);
        match created {
            Ok(rec) => {
                let data = status_event_payload("transfer_id", rec.transfer_id.as_str(), "queued");
                self.sse_bus.publish(
                    SseUpdate { event_type: String::from_str("transfer.progress"), data },
                );
                Ok(rec)
            }
            Err(e) => Err(e),
        }
    }

    /// Advances one submitted transfer to `success`, publishing a
    /// `running` progress update and then a completion update.
    pub fn process_transfer_job(&mut self, transfer_id: &str)
        requires
            old(self).wf(),
        ensures
            final(self).wf(),
            final(self).storage.jobs() == old(self).storage.jobs(),
            final(self).storage.job_results() == old(self).storage.job_results(),
            final(self).sse_bus.sub_count() == old(self).sse_bus.sub_count(),
            final(self).sse_bus.published() == old(self).sse_bus.published().push(
                (
                    "transfer.progress"@,
                    spec_status_event("transfer_id"@, transfer_id@, "running"@),
                ),
            ).push(
                (
                    "transfer.completed"@,
                    spec_status_event("transfer_id"@, transfer_id@, "success"@),
                ),
            ),
            old(self).storage.has_transfer(transfer_id@) ==> ({
                let i = old(self).storage.transfer_index(transfer_id@);
                let stored = final(self).storage.transfers()[i];
                &&& final(self).storage.transfers().len() == old(self).storage.transfers().len()
                &&& stored.transfer_id == old(self).storage.transfers()[i].transfer_id
                &&& stored.status@ == "success"@
            }),
            !old(self).storage.has_transfer(transfer_id@) ==> final(self).storage.transfers()
                == old(self).storage.transfers(),
    {
        self.storage.update_transfer_status(transfer_id, "running", None);
        let data = status_event_payload("transfer_id", transfer_id, "running");
        self.sse_bus.publish(
            SseUpdate { event_type: String::from_str("transfer.progress"), data },
        );
        self.storage.update_transfer_status(transfer_id, "success", None);
        let data2 = status_event_payload("transfer_id", transfer_id, "success");
        self.sse_bus.publish(
            SseUpdate { event_type: String::from_str("transfer.completed"), data: data2 },
        );
        let mut msg = String::from_str("transfer ");
        msg.append(transfer_id);
        msg.append(" completed");
        self.log_buffer.write("info", msg.as_str());
    }

    /// Replaces the node configuration whole and appends a durable
    /// revision of its serialized form, publishing a configuration
    /// update.
    pub fn update_config(&mut self, payload: NodeConfig, serialized: &str) -> (r:
        NodeConfigRevision)
        requires
            old(self).wf(),
            old(self).storage.config_revisions().len() < 0x7fff_ffff_ffff_ffff,
        ensures
            final(self).wf(),
            final(self).node_config == payload,
            final(self).storage.jobs() == old(self).storage.jobs(),
            final(self).storage.job_results() == old(self).storage.job_results(),
            final(self).storage.transfers() == old(self).storage.transfers(),
            final(self).storage.config_revisions() == old(self).storage.config_revisions().push(
                final(self).storage.config_revisions().last(),
            ),
            final(self).storage.config_revisions().last().config_json@ == serialized@,
            r.config_json@ == serialized@,
            r.revision_id == old(self).storage.config_revisions().len() + 1,
            final(self).sse_bus.published().len() == old(self).sse_bus.published().len() + 1,
            final(self).sse_bus.published().last().0 == "node.config.updated"@,
    {
        self.node_config = payload;
        let revision = self.storage.append_node_config_revision(serialized);
        self.log_buffer.write("info", "node config updated");
        let ts = now_rfc3339();
        let mut entries: Vec<(String, CanonValue)> = Vec::new();
        entries.push((String::from_str("updated_at"), CanonValue::Str(ts)));
        let data = CanonValue::Obj(entries);
        self.sse_bus.publish(
            SseUpdate { event_type: String::from_str("node.config.updated"), data },
        );
        revision
    }

    /// The bearer-token check: write operations need the configured token
    /// presented as a bearer credential; reads pass.
    pub fn authorize(&self, write_operation: bool, provided: Option<&str>) -> (r: AuthDecision)
        ensures
            (!write_operation || !self.require_bearer) ==> r is Allowed,
            write_operation && self.require_bearer && self.node_config.http_auth_token is None
                ==> r is TokenMissing,
            write_operation && self.require_bearer && (match self.node_config.http_auth_token {
                Some(tok) => (match provided {
                    Some(p) => p@ == "Bearer "@ + tok@,
                    None => false,
                }),
                None => false,
            }) ==> r is Allowed,
            write_operation && self.require_bearer && (self.node_config.http_auth_token matches
                Some(tok) && !(match provided {
                Some(p) => p@ == "Bearer "@ + tok@,
                None => false,
            })) ==> r is Unauthorized,
    {
        if !write_operation || !self.require_bearer {
            return AuthDecision::Allowed;
        }
        match &self.node_config.http_auth_token {
            None => AuthDecision::TokenMissing,
            Some(tok) => {
                let mut expected = String::from_str("Bearer ");
                expected.append(tok.as_str());
                match provided {
                    Some(p) => {
                        if str_eq(p, expected.as_str()) {
                            AuthDecision::Allowed
                        } else {
                            AuthDecision::Unauthorized
                        }
                    }
                    None => AuthDecision::Unauthorized,
                }
            }
        }
    }

    /// A health summary: the reference bridge always acknowledges the
    /// status probe, so the node reads ready.
    pub fn node_status(&self) -> (r: NodeStatus)
        ensures
            r.healthy,
            r.ready,
            r.daemon_connected,
    {
        proof {
            reveal_strlit("status-probe");
            assert("status-probe"@.len() == 12);
        }
        let probe = self.bridge.query_receipt("status-probe");
        let ready = match probe {
            Ok(_) => true,
            Err(_) => false,
        };
        NodeStatus { healthy: true, ready, daemon_connected: ready, timestamp: now_rfc3339() }
    }

    /// The readiness probe: acknowledged by the reference bridge.
    pub fn health_ready(&self) -> (r: bool)
        ensures
            r,
    {
        proof {
            reveal_strlit("readiness-probe");
            assert("readiness-probe"@.len() == 15);
        }
        let probe = self.bridge.query_receipt("readiness-probe");
        match probe {
            Ok(_) => true,
            Err(_) => false,
        }
    }

    /// The retained log, filtered.
    pub fn get_logs(&self, query: &LogQuery) -> (r: Vec<LogLine>)
        ensures
            ({
                let f = filtered_views(
                    self.log_buffer.views(),
                    query_level(*query),
                    query_contains(*query),
                    query_since(*query),
                );
                let lim = query_limit(*query);
                line_views(r@) == (if f.len() > lim {
                    f.subrange(f.len() - lim, f.len() as int)
                } else {
                    f
                })
            }),
    {
        filter_logs(&self.log_buffer.lines, query)
    }
}

/// The four status words are pairwise distinct.
pub proof fn lemma_status_literals_distinct()
    ensures
        "queued"@ != "running"@,
        "queued"@ != "success"@,
        "queued"@ != "failed"@,
        "running"@ != "success"@,
        "running"@ != "failed"@,
        "success"@ != "failed"@,
{
    reveal_strlit("queued");
    reveal_strlit("running");
    reveal_strlit("success");
    reveal_strlit("failed");
    assert("queued"@.len() == 6);
    assert("running"@.len() == 7);
    assert("success"@.len() == 7);
    assert("failed"@.len() == 6);
    assert("queued"@[0] == 'q');
    assert("failed"@[0] == 'f');
    assert("running"@[0] == 'r');
    assert("success"@[0] == 's');
}

/// The rank of a lifecycle status: later statuses rank higher, and the
/// two terminal statuses share the top rank.
pub open spec fn status_rank(s: Seq<char>) -> int {
    if s == "queued"@ {
        0
    } else if s == "running"@ {
        1
    } else if s == "success"@ || s == "failed"@ {
        2
    } else {
        3
    }
}

/// One permitted move of a job's status: stay, or advance along
/// `queued -> running -> success | failed`, possibly skipping `running`.
pub open spec fn lifecycle_step(a: Seq<char>, b: Seq<char>) -> bool {
    a == b || (a == "queued"@ && (b == "running"@ || b == "success"@ || b == "failed"@)) || (a
        == "running"@ && (b == "success"@ || b == "failed"@))
}

/// Whether `xs` is a subsequence of `ys`, in order.
pub open spec fn is_subsequence<T>(xs: Seq<T>, ys: Seq<T>) -> bool
    decreases xs.len(), ys.len(),
{
    if xs.len() == 0 {
        true
    } else if ys.len() == 0 {
        false
    } else if xs[0] == ys[0] {
        is_subsequence(xs.subrange(1, xs.len() as int), ys.subrange(1, ys.len() as int))
    } else {
        is_subsequence(xs, ys.subrange(1, ys.len() as int))
    }
}

/// Job monotonicity: a status trace whose adjacent entries are distinct
/// permitted moves is a subsequence of `queued, running, success` or of
/// `queued, running, failed` — never any other order, never a regression.
pub proof fn lemma_job_status_monotonic(observed: Seq<Seq<char>>)
    requires
        forall|i: int| 0 <= i < observed.len() ==> status_rank(#[trigger] observed[i]) < 3,
        forall|i: int|
            0 <= i < observed.len() - 1 ==> lifecycle_step(#[trigger] observed[i], observed[i + 1]),
        forall|i: int| 0 <= i < observed.len() - 1 ==> #[trigger] observed[i] != observed[i + 1],
    ensures
        is_subsequence(observed, seq!["queued"@, "running"@, "success"@]) || is_subsequence(
            observed,
            seq!["queued"@, "running"@, "failed"@],
        ),
{
    let cs = seq!["queued"@, "running"@, "success"@];
    let cf = seq!["queued"@, "running"@, "failed"@];
    lemma_status_literals_distinct();
    // adjacent distinct permitted moves strictly raise the rank
    assert forall|i: int|
        0 <= i < observed.len() - 1 implies status_rank(#[trigger] observed[i]) < status_rank(
        observed[i + 1],
    ) by {
        assert(lifecycle_step(observed[i], observed[i + 1]));
        assert(observed[i] != observed[i + 1]);
    }
    if observed.len() > 3 {
        assert(status_rank(observed[0]) >= 0);
        assert(status_rank(observed[1]) >= 1);
        assert(status_rank(observed[2]) >= 2);
        assert(status_rank(observed[3]) >= 3);
        assert(false);
    }
    if observed.len() == 0 {
        assert(is_subsequence(observed, cs));
    } else if observed.len() == 1 {
        let a = observed[0];
        lemma_single_subsequence(observed, a, cs, cf);
    } else if observed.len() == 2 {
        let a = observed[0];
        let b = observed[1];
        assert(status_rank(a) < status_rank(b));
        lemma_pair_subsequence(observed, a, b, cs, cf);
    } else {
        assert(status_rank(observed[0]) <= 0 || status_rank(observed[1]) <= 1 || status_rank(
            observed[2],
        ) <= 2);
        assert(status_rank(observed[0]) == 0 && status_rank(observed[1]) == 1 && status_rank(
            observed[2],
        ) == 2) by {
            assert(status_rank(observed[0]) < status_rank(observed[1]));
            assert(status_rank(observed[1]) < status_rank(observed[2]));
            assert(status_rank(observed[2]) < 3);
        }
        assert(observed[0] == "queued"@);
        assert(observed[1] == "running"@);
        if observed[2] == "success"@ {
            assert(observed =~= cs);
            lemma_subsequence_refl(cs);
        } else {
            assert(observed =~= cf);
            lemma_subsequence_refl(cf);
        }
    }
}

/// A sequence is a subsequence of itself.
proof fn lemma_subsequence_refl<T>(xs: Seq<T>)
    ensures
        is_subsequence(xs, xs),
    decreases xs.len(),
{
    if xs.len() > 0 {
        lemma_subsequence_refl(xs.subrange(1, xs.len() as int));
    }
}

/// A subsequence's tail is a subsequence too.
proof fn lemma_subsequence_weaken<T>(tail: Seq<T>, xs: Seq<T>, ys: Seq<T>)
    requires
        is_subsequence(xs, ys),
        tail == xs.subrange(1, xs.len() as int),
        xs.len() > 0,
    ensures
        is_subsequence(tail, ys),
    decreases ys.len(), 1int,
{
    if ys.len() > 0 {
        if xs[0] == ys[0] {
            lemma_subsequence_grow(tail, ys.subrange(1, ys.len() as int), ys);
        } else {
            lemma_subsequence_weaken(tail, xs, ys.subrange(1, ys.len() as int));
            lemma_subsequence_grow(tail, ys.subrange(1, ys.len() as int), ys);
        }
    }
}

/// A subsequence of the tail is a subsequence of the whole.
proof fn lemma_subsequence_grow<T>(xs: Seq<T>, tail: Seq<T>, ys: Seq<T>)
    requires
        is_subsequence(xs, tail),
        ys.len() > 0,
        tail == ys.subrange(1, ys.len() as int),
    ensures
        is_subsequence(xs, ys),
    decreases ys.len(), 0int,
{
    if xs.len() == 0 {
    } else {
        if xs[0] == ys[0] {
            lemma_subsequence_weaken(xs.subrange(1, xs.len() as int), xs, tail);
        }
    }
}

/// A one-element trace of a valid status is a subsequence of a chain.
proof fn lemma_single_subsequence(
    observed: Seq<Seq<char>>,
    a: Seq<char>,
    cs: Seq<Seq<char>>,
    cf: Seq<Seq<char>>,
)
    requires
        observed.len() == 1,
        observed[0] == a,
        status_rank(a) < 3,
        cs == seq!["queued"@, "running"@, "success"@],
        cf == seq!["queued"@, "running"@, "failed"@],
    ensures
        is_subsequence(observed, cs) || is_subsequence(observed, cf),
{
    assert(observed =~= seq![a]);
    if a == "queued"@ || a == "running"@ || a == "success"@ {
        lemma_member_subsequence(a, cs);
        assert(is_subsequence(seq![a], cs));
    } else {
        assert(a == "failed"@);
        lemma_member_subsequence(a, cf);
        assert(is_subsequence(seq![a], cf));
    }
}

/// A singleton of any member is a subsequence.
proof fn lemma_member_subsequence<T>(x: T, ys: Seq<T>)
    requires
        ys.contains(x),
    ensures
        is_subsequence(seq![x], ys),
    decreases ys.len(),
{
    assert(ys.len() > 0);
    assert(seq![x].len() == 1);
    assert(seq![x][0] == x);
    if ys[0] == x {
        assert(seq![x].subrange(1, 1) =~= Seq::<T>::empty());
        assert(is_subsequence(
            seq![x].subrange(1, seq![x].len() as int),
            ys.subrange(1, ys.len() as int),
        ));
        assert(is_subsequence(seq![x], ys));
    } else {
        assert(ys.subrange(1, ys.len() as int).contains(x)) by {
            let w = choose|w: int| 0 <= w < ys.len() && ys[w] == x;
            assert(ys.subrange(1, ys.len() as int)[w - 1] == x);
        }
        lemma_member_subsequence(x, ys.subrange(1, ys.len() as int));
    }
}

/// A rank-increasing pair of valid statuses is a subsequence of a chain.
proof fn lemma_pair_subsequence(
    observed: Seq<Seq<char>>,
    a: Seq<char>,
    b: Seq<char>,
    cs: Seq<Seq<char>>,
    cf: Seq<Seq<char>>,
)
    requires
        observed.len() == 2,
        observed[0] == a,
        observed[1] == b,
        status_rank(a) < status_rank(b),
        status_rank(a) < 3,
        status_rank(b) < 3,
        cs == seq!["queued"@, "running"@, "success"@],
        cf == seq!["queued"@, "running"@, "failed"@],
    ensures
        is_subsequence(observed, cs) || is_subsequence(observed, cf),
{
    assert(observed =~= seq![a, b]);
    let tail_s = cs.subrange(1, 3);
    let tail_f = cf.subrange(1, 3);
    assert(tail_s =~= seq!["running"@, "success"@]);
    assert(tail_f =~= seq!["running"@, "failed"@]);
    if a == "queued"@ {
        // observed drops into the tail of a chain
        if b == "running"@ {
            assert(seq![a, b].subrange(1, 2) =~= seq![b]);
            lemma_member_subsequence(b, tail_s);
            assert(is_subsequence(seq![b], tail_s));
            assert(is_subsequence(observed, cs));
        } else if b == "success"@ {
            assert(seq![a, b].subrange(1, 2) =~= seq![b]);
            lemma_member_subsequence(b, tail_s);
            assert(is_subsequence(observed, cs));
        } else {
            assert(b == "failed"@);
            assert(seq![a, b].subrange(1, 2) =~= seq![b]);
            lemma_member_subsequence(b, tail_f);
            assert(is_subsequence(observed, cf));
        }
    } else {
        assert(a == "running"@);
        assert(status_rank(b) == 2);
        if b == "success"@ {
            assert(observed =~= seq!["running"@, "success"@]);
            lemma_subsequence_refl(tail_s);
            lemma_subsequence_grow(observed, tail_s, cs);
            assert(is_subsequence(observed, cs));
        } else {
            assert(b == "failed"@);
            assert(observed =~= seq!["running"@, "failed"@]);
            lemma_subsequence_refl(tail_f);
            lemma_subsequence_grow(observed, tail_f, cf);
            assert(is_subsequence(observed, cf));
        }
    }
}

/// Result existence: whenever a well-formed control plane shows a job as
/// `success`, a result record for that identifier exists — it was written
/// no later than the status flip.
pub proof fn lemma_success_has_result(cp: ControlPlane, id: Seq<char>)
    requires
        cp.wf(),
        cp.storage.has_job(id),
        cp.storage.jobs()[cp.storage.job_index(id)].status@ == "success"@,
    ensures
        cp.storage.has_job_result(id),
{
    let i = cp.storage.job_index(id);
    assert(0 <= i < cp.storage.jobs().len() && cp.storage.jobs()[i].job_id@ == id);
}

} // verus!
