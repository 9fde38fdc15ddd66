//! The stream controller: the ingestion pipeline, the acknowledgement
//! table, and replay.
//!
//! The pipeline validates, orders, deduplicates, persists and emits
//! operations. The controller owns the pipeline state, tracks the highest
//! acknowledged sequence number per log, and re-emits unacknowledged
//! operations on request.

use vstd::prelude::*;
use vstd::pervasive::VecAdditionalExecFns;

use crate::bytes::bytes_eq;
use crate::crypto::KEY_LEN;
use crate::extensions::{LogId, LogPath, Stream};
use crate::operation::{
    check_body, check_header_wf, check_signature, extract_log_id, extract_prune, extract_stream,
    header_id, header_wf, opt_bytes_view, spec_body_ok, spec_extract_log_id, spec_extract_prune,
    spec_extract_stream, spec_header_id, spec_sig_ok, Header, HeaderV, Operation, OperationV,
};
use crate::store::{
    has_log, log_index_of, op_valid, record_wf, store_wf, LogRecordV, LogStore,
    lemma_log_index_unique, lemma_prune_keeps_record_wf, lemma_update_keeps_store_wf,
};

verus! {

/// A per-operation validation failure inside the pipeline.
#[derive(Clone, Copy, Debug, PartialEq, Eq, Structural)]
pub enum StreamError {
    /// The header is structurally malformed.
    MalformedHeader,
    /// The signature is absent or does not verify under the header's key.
    InvalidSignature,
    /// The body does not match the declared payload hash and size.
    PayloadMismatch,
    /// The header carries no extensions record, so no log can be derived.
    MissingLogId,
    /// An operation with the same sequence number but a different hash is
    /// already stored.
    Fork,
    /// A first operation (sequence zero) carries a backlink.
    BadFirstOperation,
    /// The backlink does not match the hash of the log's latest operation.
    BrokenBacklink,
}

/// A failure of a stream controller command.
#[derive(Clone, Copy, Debug, PartialEq, Eq, Structural)]
pub enum StreamControllerError {
    /// An acknowledged operation id is not in the store.
    AckedUnknownOperation,
    /// The acknowledged operation carries no log id.
    MissingLogId,
}

/// What the pipeline did with one operation.
#[derive(Clone, Copy, Debug, PartialEq, Eq, Structural)]
pub enum IngestOutcome {
    /// Validated and persisted; `pruned` reports whether the operation's
    /// prune flag deleted earlier entries of its log.
    Persisted { pruned: bool },
    /// Already stored with an identical hash (or below the log's pruning
    /// point); dropped silently.
    Duplicate,
    /// Its predecessor has not arrived yet; held back.
    Buffered,
    /// Rejected by validation; dropped with an error.
    Rejected(StreamError),
}

/// The pipeline's decision for one incoming `(header, body)`, in the fixed
/// order of checks: structure, signature, body consistency, log derivation,
/// then ordering and deduplication against the store.
pub open spec fn spec_ingest_case(
    s: Seq<LogRecordV>,
    h: HeaderV,
    body: Option<Seq<u8>>,
) -> IngestOutcome {
    if !header_wf(h) {
        IngestOutcome::Rejected(StreamError::MalformedHeader)
    } else if !spec_sig_ok(h) {
        IngestOutcome::Rejected(StreamError::InvalidSignature)
    } else if !spec_body_ok(h, body) {
        IngestOutcome::Rejected(StreamError::PayloadMismatch)
    } else if spec_extract_log_id(h) is None {
        IngestOutcome::Rejected(StreamError::MissingLogId)
    } else {
        let l = spec_extract_log_id(h)->Some_0;
        if has_log(s, h.public_key, l) {
            let rec = s[log_index_of(s, h.public_key, l)];
            if h.seq_num < rec.start_seq {
                IngestOutcome::Duplicate
            } else if h.seq_num < rec.start_seq + rec.ops.len() {
                if spec_header_id(h) == spec_header_id(
                    rec.ops[h.seq_num - rec.start_seq].header,
                ) {
                    IngestOutcome::Duplicate
                } else {
                    IngestOutcome::Rejected(StreamError::Fork)
                }
            } else if h.seq_num == rec.start_seq + rec.ops.len() {
                if h.backlink == Option::Some(spec_header_id(rec.ops.last().header)) {
                    IngestOutcome::Persisted { pruned: spec_extract_prune(h) }
                } else {
                    IngestOutcome::Rejected(StreamError::BrokenBacklink)
                }
            } else {
                IngestOutcome::Buffered
            }
        } else {
            if h.seq_num == 0 {
                if h.backlink is None {
                    IngestOutcome::Persisted { pruned: spec_extract_prune(h) }
                } else {
                    IngestOutcome::Rejected(StreamError::BadFirstOperation)
                }
            } else {
                IngestOutcome::Buffered
            }
        }
    }
}

/// The store after the pipeline processed one `(header, body)`: unchanged
/// unless the decision was to persist, in which case the operation is
/// appended to its log (or opens it), and a set prune flag deletes all
/// earlier entries of that log.
pub open spec fn spec_ingest_after(
    s: Seq<LogRecordV>,
    h: HeaderV,
    body: Option<Seq<u8>>,
) -> Seq<LogRecordV> {
    let op = OperationV { header: h, body };
    match spec_ingest_case(s, h, body) {
        IngestOutcome::Persisted { pruned } => {
            let l = spec_extract_log_id(h)->Some_0;
            if has_log(s, h.public_key, l) {
                let k = log_index_of(s, h.public_key, l);
                if pruned {
                    s.update(
                        k,
                        LogRecordV {
                            author: s[k].author,
                            log_id: s[k].log_id,
                            start_seq: h.seq_num,
                            ops: seq![op],
                        },
                    )
                } else {
                    s.update(k, LogRecordV { ops: s[k].ops.push(op), ..s[k] })
                }
            } else {
                s.push(
                    LogRecordV { author: h.public_key, log_id: l, start_seq: 0, ops: seq![op] },
                )
            }
        },
        _ => s,
    }
}

/// Runs one operation through the pipeline: validate, order, deduplicate,
/// persist, prune. Returns what was done; the store changes exactly as
/// `spec_ingest_after` says.
#[verifier::rlimit(100)]
pub fn ingest_operation(store: &mut LogStore, header: &Header, body: &Option<Vec<u8>>) -> (r:
    IngestOutcome)
    requires
        old(store).wf(),
    ensures
        r == spec_ingest_case(old(store)@, header@, opt_bytes_view(*body)),
        final(store)@ =~= spec_ingest_after(old(store)@, header@, opt_bytes_view(*body)),
        final(store).wf(),
{
    let ghost s0 = store@;
    let ghost hv = header@;
    let ghost bv = opt_bytes_view(*body);
    if !check_header_wf(header) {
        return IngestOutcome::Rejected(StreamError::MalformedHeader);
    }
    if !check_signature(header) {
        return IngestOutcome::Rejected(StreamError::InvalidSignature);
    }
    if !check_body(header, body) {
        return IngestOutcome::Rejected(StreamError::PayloadMismatch);
    }
    let log_id = match extract_log_id(header) {
        Option::None => {
            return IngestOutcome::Rejected(StreamError::MissingLogId);
        },
        Option::Some(l) => l,
    };
    let pruned = extract_prune(header);
    match store.find_log(header.public_key.as_slice(), &log_id) {
        Option::Some(k) => ingest_into_existing(store, header, body, pruned, k),
        Option::None => ingest_into_fresh(store, header, body, pruned, log_id),
    }
}

/// The ordering, deduplication and persistence step for an operation whose
/// log is already present.
#[verifier::rlimit(100)]
fn ingest_into_existing(
    store: &mut LogStore,
    header: &Header,
    body: &Option<Vec<u8>>,
    pruned: bool,
    k: usize,
) -> (r: IngestOutcome)
    requires
        old(store).wf(),
        header_wf(header@),
        spec_sig_ok(header@),
        spec_body_ok(header@, opt_bytes_view(*body)),
        spec_extract_log_id(header@) is Some,
        pruned == spec_extract_prune(header@),
        has_log(old(store)@, header@.public_key, spec_extract_log_id(header@)->Some_0),
        k as int == log_index_of(
            old(store)@,
            header@.public_key,
            spec_extract_log_id(header@)->Some_0,
        ),
        k < old(store)@.len(),
        old(store)@[k as int].author == header@.public_key,
        old(store)@[k as int].log_id == spec_extract_log_id(header@)->Some_0,
    ensures
        r == spec_ingest_case(old(store)@, header@, opt_bytes_view(*body)),
        final(store)@ =~= spec_ingest_after(old(store)@, header@, opt_bytes_view(*body)),
        final(store).wf(),
{
    let ghost s0 = store@;
    let ghost hv = header@;
    let ghost bv = opt_bytes_view(*body);
    {
        {
            let rec_start = store.logs[k].start_seq;
            let rec_len = store.logs[k].ops.len();
            proof {
                assert(store.logs[k as int]@ == s0[k as int]);
                assert(record_wf(s0[k as int]));
            }
            if header.seq_num < rec_start {
                IngestOutcome::Duplicate
            } else if header.seq_num - rec_start < rec_len as u64 {
                let j = (header.seq_num - rec_start) as usize;
                let stored_id = header_id(&store.logs[k].ops[j].header);
                let incoming_id = header_id(header);
                proof {
                    assert(store.logs[k as int].ops[j as int]@ == s0[k as int].ops[j as int]);
                }
                if bytes_eq(stored_id.as_slice(), incoming_id.as_slice()) {
                    IngestOutcome::Duplicate
                } else {
                    IngestOutcome::Rejected(StreamError::Fork)
                }
            } else if header.seq_num - rec_start == rec_len as u64 {
                let last_id = header_id(&store.logs[k].ops[rec_len - 1].header);
                proof {
                    assert(store.logs[k as int].ops[rec_len - 1]@ == s0[k as int].ops.last());
                }
                let backlink_ok = match &header.backlink {
                    Option::None => false,
                    Option::Some(b) => bytes_eq(b.as_slice(), last_id.as_slice()),
                };
                if backlink_ok {
                    let seq_num = header.seq_num;
                    store.append_op(
                        k,
                        Operation {
                            header: header.clone(),
                            body: crate::operation::clone_opt_bytes(body),
                        },
                    );
                    if pruned {
                        proof {
                            assert(store@[k as int].start_seq == s0[k as int].start_seq);
                            assert(store@[k as int].ops.len() == s0[k as int].ops.len() + 1);
                        }
                        store.prune_record(k, seq_num);
                        proof {
                            let after_append = s0.update(
                                k as int,
                                LogRecordV {
                                    ops: s0[k as int].ops.push(OperationV { header: hv, body: bv }),
                                    ..s0[k as int]
                                },
                            );
                            assert(after_append[k as int].ops.skip(
                                seq_num - after_append[k as int].start_seq,
                            ) =~= seq![OperationV { header: hv, body: bv }]);
                            assert(store@ =~= spec_ingest_after(s0, hv, bv));
                        }
                    } else {
                        proof {
                            assert(store@ =~= spec_ingest_after(s0, hv, bv));
                        }
                    }
                    IngestOutcome::Persisted { pruned }
                } else {
                    IngestOutcome::Rejected(StreamError::BrokenBacklink)
                }
            } else {
                IngestOutcome::Buffered
            }
        }
    }
}

/// The ordering and persistence step for an operation whose log is not yet
/// present: only a first operation (sequence zero, no backlink) opens one.
#[verifier::rlimit(100)]
fn ingest_into_fresh(
    store: &mut LogStore,
    header: &Header,
    body: &Option<Vec<u8>>,
    pruned: bool,
    log_id: LogId,
) -> (r: IngestOutcome)
    requires
        old(store).wf(),
        header_wf(header@),
        spec_sig_ok(header@),
        spec_body_ok(header@, opt_bytes_view(*body)),
        spec_extract_log_id(header@) == Option::Some(log_id@),
        pruned == spec_extract_prune(header@),
        !has_log(old(store)@, header@.public_key, log_id@),
    ensures
        r == spec_ingest_case(old(store)@, header@, opt_bytes_view(*body)),
        final(store)@ =~= spec_ingest_after(old(store)@, header@, opt_bytes_view(*body)),
        final(store).wf(),
{
    let ghost s0 = store@;
    let ghost hv = header@;
    let ghost bv = opt_bytes_view(*body);
    if header.seq_num == 0 {
        let backlink_none = match &header.backlink {
            Option::None => true,
            Option::Some(_) => false,
        };
        if backlink_none {
            store.insert_new_log(
                Operation { header: header.clone(), body: crate::operation::clone_opt_bytes(body) },
                log_id,
            );
            proof {
                assert(store@ =~= spec_ingest_after(s0, hv, bv));
            }
            IngestOutcome::Persisted { pruned }
        } else {
            IngestOutcome::Rejected(StreamError::BadFirstOperation)
        }
    } else {
        IngestOutcome::Buffered
    }
}

/// Mathematical value of an event's meta block.
pub ghost struct EventMetaV {
    pub operation_id: Seq<u8>,
    pub author: Seq<u8>,
    pub stream_root_hash: Seq<u8>,
    pub stream_owner: Seq<u8>,
    pub log_path: Option<Seq<u8>>,
}

/// The meta block of a stream event originating from an operation: its id,
/// author, stream and log path.
pub struct EventMeta {
    pub operation_id: Vec<u8>,
    pub author: Vec<u8>,
    pub stream: Stream,
    pub log_path: Option<LogPath>,
}

impl View for EventMeta {
    type V = EventMetaV;

    open spec fn view(&self) -> EventMetaV {
        EventMetaV {
            operation_id: self.operation_id@,
            author: self.author@,
            stream_root_hash: self.stream.root_hash@,
            stream_owner: self.stream.owner@,
            log_path: match self.log_path {
                Option::None => Option::None,
                Option::Some(ref p) => Option::Some(p@),
            },
        }
    }
}

/// Mathematical value of an event's payload.
pub ghost enum EventDataV {
    Application(Seq<u8>),
    Ephemeral(Seq<u8>),
    Error(StreamError),
}

/// The payload of a stream event: validated application bytes, an ephemeral
/// message's bytes, or a per-operation error.
pub enum EventData {
    Application(Vec<u8>),
    Ephemeral(Vec<u8>),
    Error(StreamError),
}

impl View for EventData {
    type V = EventDataV;

    open spec fn view(&self) -> EventDataV {
        match self {
            EventData::Application(b) => EventDataV::Application(b@),
            EventData::Ephemeral(b) => EventDataV::Ephemeral(b@),
            EventData::Error(e) => EventDataV::Error(*e),
        }
    }
}

/// Mathematical value of a stream event.
pub ghost struct StreamEventV {
    pub meta: Option<EventMetaV>,
    pub data: EventDataV,
}

/// An event surfaced to the application: a meta block when it originates
/// from an operation, and the payload.
pub struct StreamEvent {
    pub meta: Option<EventMeta>,
    pub data: EventData,
}

impl View for StreamEvent {
    type V = StreamEventV;

    open spec fn view(&self) -> StreamEventV {
        StreamEventV {
            meta: match self.meta {
                Option::None => Option::None,
                Option::Some(ref m) => Option::Some(m@),
            },
            data: self.data@,
        }
    }
}

/// The meta block derived from a header.
pub open spec fn spec_event_meta(h: HeaderV) -> EventMetaV
    recommends
        spec_extract_stream(h) is Some,
{
    EventMetaV {
        operation_id: spec_header_id(h),
        author: h.public_key,
        stream_root_hash: spec_extract_stream(h)->Some_0.0,
        stream_owner: spec_extract_stream(h)->Some_0.1,
        log_path: h.extensions->Some_0.log_path,
    }
}

/// The event emitted for a persisted operation carrying a body.
pub open spec fn spec_event_of(op: OperationV) -> StreamEventV
    recommends
        op.body is Some,
        spec_extract_stream(op.header) is Some,
{
    StreamEventV {
        meta: Option::Some(spec_event_meta(op.header)),
        data: EventDataV::Application(op.body->Some_0),
    }
}

/// An operation is surfaced as an event exactly when it carries a body (and
/// a stream can be derived from it, which holds of everything persisted).
pub open spec fn spec_emits_event(op: OperationV) -> bool {
    op.body is Some && spec_extract_stream(op.header) is Some
}

/// The events emitted for a run of operations, in order.
pub open spec fn spec_events_of(ops: Seq<OperationV>) -> Seq<StreamEventV>
    decreases ops.len(),
{
    if ops.len() == 0 {
        Seq::<StreamEventV>::empty()
    } else {
        spec_events_of(ops.drop_last()) + (if spec_emits_event(ops.last()) {
            seq![spec_event_of(ops.last())]
        } else {
            Seq::<StreamEventV>::empty()
        })
    }
}

impl StreamEvent {
    /// Builds the event for a validated operation with a body.
    pub fn new(header: &Header, body: &Vec<u8>) -> (r: StreamEvent)
        requires
            spec_extract_stream(header@) is Some,
        ensures
            r@ == spec_event_of(OperationV { header: header@, body: Option::Some(body@) }),
    {
        let stream = match extract_stream(header) {
            Option::Some(s) => s,
            Option::None => {
                proof {
                    assert(false);
                }
                unreached()
            },
        };
        let log_path = match &header.extensions {
            Option::None => Option::None,
            Option::Some(e) => match &e.log_path {
                Option::None => Option::None,
                Option::Some(p) => Option::Some(p.clone()),
            },
        };
        let meta = EventMeta {
            operation_id: header_id(header),
            author: crate::bytes::copy_range(
                header.public_key.as_slice(),
                0,
                header.public_key.len(),
            ),
            stream,
            log_path,
        };
        let r = StreamEvent {
            meta: Option::Some(meta),
            data: EventData::Application(crate::bytes::copy_range(body.as_slice(), 0, body.len())),
        };
        proof {
            let m = r@.meta->Some_0;
            let sm = spec_event_meta(header@);
            assert(spec_extract_stream(header@)->Some_0 == (stream.root_hash@, stream.owner@));
            assert(m.stream_root_hash == sm.stream_root_hash);
            assert(m.stream_owner == sm.stream_owner);
            assert(m.operation_id == sm.operation_id);
            assert(m.author == sm.author);
            assert(m.log_path == sm.log_path);
            assert(m == sm);
            assert(body@.subrange(0, body@.len() as int) =~= body@);
            assert(r@.data == EventDataV::Application(body@));
        }
        r
    }

    /// Builds the event reporting a per-operation error.
    pub fn from_error(error: StreamError, header: &Header) -> (r: StreamEvent)
        requires
            spec_extract_stream(header@) is Some,
        ensures
            r@ == (StreamEventV {
                meta: Option::Some(spec_event_meta(header@)),
                data: EventDataV::Error(error),
            }),
    {
        let stream = match extract_stream(header) {
            Option::Some(s) => s,
            Option::None => {
                proof {
                    assert(false);
                }
                unreached()
            },
        };
        let log_path = match &header.extensions {
            Option::None => Option::None,
            Option::Some(e) => match &e.log_path {
                Option::None => Option::None,
                Option::Some(p) => Option::Some(p.clone()),
            },
        };
        let meta = EventMeta {
            operation_id: header_id(header),
            author: crate::bytes::copy_range(
                header.public_key.as_slice(),
                0,
                header.public_key.len(),
            ),
            stream,
            log_path,
        };
        let r = StreamEvent { meta: Option::Some(meta), data: EventData::Error(error) };
        proof {
            let m = r@.meta->Some_0;
            let sm = spec_event_meta(header@);
            assert(spec_extract_stream(header@)->Some_0 == (stream.root_hash@, stream.owner@));
            assert(m.stream_root_hash == sm.stream_root_hash);
            assert(m.stream_owner == sm.stream_owner);
            assert(m.operation_id == sm.operation_id);
            assert(m.author == sm.author);
            assert(m.log_path == sm.log_path);
            assert(m == sm);
        }
        r
    }

    /// Builds the event for an ephemeral message: no meta block, raw bytes.
    pub fn from_bytes(payload: Vec<u8>) -> (r: StreamEvent)
        ensures
            r@ == (StreamEventV { meta: Option::None, data: EventDataV::Ephemeral(payload@) }),
    {
        StreamEvent { meta: Option::None, data: EventData::Ephemeral(payload) }
    }
}

/// The views of a list of events.
pub open spec fn events_view(v: Seq<StreamEvent>) -> Seq<StreamEventV> {
    Seq::new(v.len(), |i: int| v[i]@)
}

/// Mathematical value of one acknowledgement entry.
pub ghost struct AckEntryV {
    pub author: Seq<u8>,
    pub log_id: Seq<u8>,
    pub seq: u64,
}

/// The highest acknowledged sequence number of one log.
pub struct AckEntry {
    pub author: Vec<u8>,
    pub log_id: LogId,
    pub seq: u64,
}

impl View for AckEntry {
    type V = AckEntryV;

    open spec fn view(&self) -> AckEntryV {
        AckEntryV { author: self.author@, log_id: self.log_id@, seq: self.seq }
    }
}

/// Well-formedness of the acknowledgement table: one entry per `(author,
/// log id)` pair.
pub open spec fn acked_wf(t: Seq<AckEntryV>) -> bool {
    forall|k1: int, k2: int|
        0 <= k1 < k2 < t.len() ==> !(t[k1].author == t[k2].author && #[trigger] (t[k1].log_id)
            == #[trigger] (t[k2].log_id))
}

/// An acknowledgement for this log is present.
pub open spec fn has_ack(t: Seq<AckEntryV>, author: Seq<u8>, log_id: Seq<u8>) -> bool {
    exists|k: int| 0 <= k < t.len() && t[k].author == author && #[trigger] (t[k].log_id) == log_id
}

/// The index of this log's acknowledgement entry.
pub open spec fn ack_index_of(t: Seq<AckEntryV>, author: Seq<u8>, log_id: Seq<u8>) -> int {
    choose|k: int|
        0 <= k < t.len() && t[k].author == author && #[trigger] (t[k].log_id) == log_id
}

/// The highest acknowledged sequence number of this log, if any.
pub open spec fn acked_of(t: Seq<AckEntryV>, author: Seq<u8>, log_id: Seq<u8>) -> Option<u64> {
    if has_ack(t, author, log_id) {
        Option::Some(t[ack_index_of(t, author, log_id)].seq)
    } else {
        Option::None
    }
}

/// In a well-formed table the index of a matching entry is unique.
pub proof fn lemma_ack_index_unique(t: Seq<AckEntryV>, k: int)
    requires
        acked_wf(t),
        0 <= k < t.len(),
    ensures
        ack_index_of(t, t[k].author, t[k].log_id) == k,
        has_ack(t, t[k].author, t[k].log_id),
        acked_of(t, t[k].author, t[k].log_id) == Option::Some(t[k].seq),
{
    assert(has_ack(t, t[k].author, t[k].log_id));
    let k2 = ack_index_of(t, t[k].author, t[k].log_id);
    if k2 != k {
        if k2 < k {
            assert(!(t[k2].author == t[k].author && t[k2].log_id == t[k].log_id));
        } else {
            assert(!(t[k].author == t[k2].author && t[k].log_id == t[k2].log_id));
        }
    }
}

/// Raises this log's acknowledgement to at least `seq`: the recorded value
/// becomes the maximum of the previous one and `seq`; no other log's entry
/// changes.
fn set_ack(acked: &mut Vec<AckEntry>, author: &[u8], log_id: &LogId, seq: u64)
    requires
        acked_wf(acks_view(old(acked)@)),
    ensures
        acked_wf(acks_view(final(acked)@)),
        acked_of(acks_view(final(acked)@), author@, log_id@) == Option::Some(
            spec_ack_join(acked_of(acks_view(old(acked)@), author@, log_id@), seq),
        ),
        forall|a: Seq<u8>, l: Seq<u8>|
            !(a == author@ && l == log_id@) ==> #[trigger] acked_of(
                acks_view(final(acked)@),
                a,
                l,
            ) == acked_of(acks_view(old(acked)@), a, l),
{
    let ghost t0 = acks_view(acked@);
    let mut k: usize = 0;
    while k < acked.len()
        invariant
            k <= acked.len(),
            acks_view(acked@) == t0,
            acked@ == old(acked)@,
            acked_wf(t0),
            t0.len() == acked.len(),
            forall|k2: int|
                0 <= k2 < k ==> !(t0[k2].author == author@ && #[trigger] (t0[k2].log_id)
                    == log_id@),
        decreases acked.len() - k,
    {
        proof {
            assert(acked@[k as int]@ == t0[k as int]);
        }
        if bytes_eq(acked[k].author.as_slice(), author) && acked[k].log_id.matches(log_id) {
            let old_seq = acked[k].seq;
            let new_seq = if seq > old_seq {
                seq
            } else {
                old_seq
            };
            let e = AckEntry {
                author: crate::bytes::copy_range(author, 0, author.len()),
                log_id: log_id.clone(),
                seq: new_seq,
            };
            let ghost ev = e@;
            acked.set(k, e);
            proof {
                assert(author@.subrange(0, author@.len() as int) =~= author@);
                assert(ev.author == author@);
                let t1 = acks_view(acked@);
                assert forall|i: int| 0 <= i < t1.len() implies t1[i] == t0.update(
                    k as int,
                    ev,
                )[i] by {
                    if i != k {
                        assert(acked@[i] == old(acked)@[i]);
                    }
                }
                assert(t1 =~= t0.update(k as int, ev));
                lemma_ack_index_unique(t0, k as int);
                assert forall|k1: int, k2: int| 0 <= k1 < k2 < t1.len() implies !(t1[k1].author
                    == t1[k2].author && #[trigger] (t1[k1].log_id) == #[trigger] (
                t1[k2].log_id)) by {
                    assert(t1[k1].author == t0[k1].author && t1[k1].log_id == t0[k1].log_id);
                    assert(t1[k2].author == t0[k2].author && t1[k2].log_id == t0[k2].log_id);
                }
                lemma_ack_index_unique(t1, k as int);
                assert(acked_of(t1, author@, log_id@) == Option::Some(ev.seq));
                assert(acked_of(t0, author@, log_id@) == Option::Some(t0[k as int].seq));
                assert forall|a: Seq<u8>, l: Seq<u8>|
                    !(a == author@ && l == log_id@) implies #[trigger] acked_of(t1, a, l)
                    == acked_of(t0, a, l) by {
                    lemma_acked_of_frame(t0, t1, k as int, a, l);
                }
            }
            return ;
        }
        k += 1;
    }
    let e = AckEntry {
        author: crate::bytes::copy_range(author, 0, author.len()),
        log_id: log_id.clone(),
        seq,
    };
    let ghost ev = e@;
    acked.push(e);
    proof {
        assert(author@.subrange(0, author@.len() as int) =~= author@);
        assert(ev.author == author@);
        let t1 = acks_view(acked@);
        assert forall|i: int| 0 <= i < t1.len() implies t1[i] == t0.push(ev)[i] by {
            if i < t0.len() {
                assert(acked@[i] == old(acked)@[i]);
            }
        }
        assert(t1 =~= t0.push(ev));
        if has_ack(t0, author@, log_id@) {
            let w = ack_index_of(t0, author@, log_id@);
            assert(!(t0[w].author == author@ && t0[w].log_id == log_id@));
        }
        assert(!has_ack(t0, author@, log_id@));
        assert forall|k1: int, k2: int| 0 <= k1 < k2 < t1.len() implies !(t1[k1].author
            == t1[k2].author && #[trigger] (t1[k1].log_id) == #[trigger] (t1[k2].log_id)) by {
            if k2 == t1.len() - 1 {
                assert(t1[k1] == t0[k1]);
                if t1[k1].author == author@ && t1[k1].log_id == log_id@ {
                    assert(has_ack(t0, author@, log_id@));
                }
            } else {
                assert(t1[k1] == t0[k1] && t1[k2] == t0[k2]);
            }
        }
        lemma_ack_index_unique(t1, t1.len() - 1);
        assert forall|a: Seq<u8>, l: Seq<u8>|
            !(a == author@ && l == log_id@) implies #[trigger] acked_of(t1, a, l) == acked_of(
            t0,
            a,
            l,
        ) by {
            lemma_acked_of_frame_push(t0, ev, a, l);
        }
    }
}

/// The views of the acknowledgement table.
pub open spec fn acks_view(v: Seq<AckEntry>) -> Seq<AckEntryV> {
    Seq::new(v.len(), |i: int| v[i]@)
}

/// The acknowledgement value after joining a new sequence number: the
/// maximum of the previous value (if any) and the new one.
pub open spec fn spec_ack_join(prev: Option<u64>, seq: u64) -> u64 {
    match prev {
        Option::None => seq,
        Option::Some(n) => if n >= seq {
            n
        } else {
            seq
        },
    }
}

/// Updating entry `k` in place leaves every other log's acknowledgement
/// unchanged.
proof fn lemma_acked_of_frame(t0: Seq<AckEntryV>, t1: Seq<AckEntryV>, k: int, a: Seq<u8>, l: Seq<u8>)
    requires
        acked_wf(t0),
        acked_wf(t1),
        t0.len() == t1.len(),
        0 <= k < t0.len(),
        forall|i: int| 0 <= i < t0.len() && i != k ==> t0[i] == #[trigger] t1[i],
        t1[k].author == t0[k].author,
        t1[k].log_id == t0[k].log_id,
        !(a == t0[k].author && l == t0[k].log_id),
    ensures
        acked_of(t1, a, l) == acked_of(t0, a, l),
{
    if has_ack(t0, a, l) {
        let w = ack_index_of(t0, a, l);
        assert(w != k);
        assert(t1[w].author == a && t1[w].log_id == l);
        lemma_ack_index_unique(t1, w);
    }
    if has_ack(t1, a, l) {
        let w = ack_index_of(t1, a, l);
        assert(w != k);
        assert(t0[w].author == a && t0[w].log_id == l);
        lemma_ack_index_unique(t0, w);
    }
}

/// Appending an entry for one log leaves every other log's acknowledgement
/// unchanged.
proof fn lemma_acked_of_frame_push(t0: Seq<AckEntryV>, e: AckEntryV, a: Seq<u8>, l: Seq<u8>)
    requires
        acked_wf(t0),
        acked_wf(t0.push(e)),
        !(a == e.author && l == e.log_id),
    ensures
        acked_of(t0.push(e), a, l) == acked_of(t0, a, l),
{
    let t1 = t0.push(e);
    if has_ack(t0, a, l) {
        let w = ack_index_of(t0, a, l);
        assert(t1[w].author == a && t1[w].log_id == l);
        lemma_ack_index_unique(t1, w);
    }
    if has_ack(t1, a, l) {
        let w = ack_index_of(t1, a, l);
        assert(w != t1.len() - 1);
        assert(t0[w].author == a && t0[w].log_id == l);
        lemma_ack_index_unique(t0, w);
    }
}



/// Builds the events for a run of operations, in order: one event per
/// operation with a body.
fn events_for_ops(ops: &Vec<Operation>) -> (events: Vec<StreamEvent>)
    requires
        forall|i: int|
            0 <= i < ops@.len() ==> spec_extract_log_id(
                (#[trigger] crate::store::ops_view(ops@)[i]).header,
            ) is Some,
    ensures
        events_view(events@) =~= spec_events_of(crate::store::ops_view(ops@)),
{
    let ghost opsv = crate::store::ops_view(ops@);
    let mut events: Vec<StreamEvent> = Vec::new();
    proof {
        assert(events_view(events@) =~= Seq::<StreamEventV>::empty());
        assert(opsv.subrange(0, 0) =~= Seq::<OperationV>::empty());
    }
    let mut i: usize = 0;
    while i < ops.len()
        invariant
            i <= ops.len(),
            opsv == crate::store::ops_view(ops@),
            opsv.len() == ops.len(),
            forall|j: int|
                0 <= j < opsv.len() ==> spec_extract_log_id((#[trigger] opsv[j]).header) is Some,
            events_view(events@) =~= spec_events_of(opsv.subrange(0, i as int)),
        decreases ops.len() - i,
    {
        let op = &ops[i];
        proof {
            assert(op@ == opsv[i as int]);
        }
        match &op.body {
            Option::Some(b) => {
                let ev = StreamEvent::new(&op.header, b);
                events.push(ev);
            },
            Option::None => {},
        }
        proof {
            let taken = opsv.subrange(0, i + 1);
            assert(taken.drop_last() =~= opsv.subrange(0, i as int));
            assert(taken.last() == opsv[i as int]);
            assert(events_view(events@) =~= spec_events_of(taken));
        }
        i += 1;
    }
    proof {
        assert(opsv.subrange(0, opsv.len() as int) =~= opsv);
    }
    events
}

/// One author's logs to replay.
pub struct ReplayRequest {
    pub author: Vec<u8>,
    pub log_ids: Vec<LogId>,
}

/// Mathematical value of one replay request.
pub ghost struct ReplayRequestV {
    pub author: Seq<u8>,
    pub log_ids: Seq<Seq<u8>>,
}

impl View for ReplayRequest {
    type V = ReplayRequestV;

    open spec fn view(&self) -> ReplayRequestV {
        ReplayRequestV {
            author: self.author@,
            log_ids: Seq::new(self.log_ids@.len(), |i: int| self.log_ids@[i]@),
        }
    }
}

/// The views of a list of replay requests.
pub open spec fn reqs_view(v: Seq<ReplayRequest>) -> Seq<ReplayRequestV> {
    Seq::new(v.len(), |i: int| v[i]@)
}

/// The operations a replay of one log re-emits: everything past the
/// acknowledgement cursor, from the start when nothing was acknowledged.
pub open spec fn spec_replay_ops(
    s: Seq<crate::store::LogRecordV>,
    t: Seq<AckEntryV>,
    author: Seq<u8>,
    log_id: Seq<u8>,
) -> Seq<OperationV> {
    match acked_of(t, author, log_id) {
        Option::None => crate::store::spec_replay_tail(s, author, log_id, 0),
        Option::Some(n) => if n == u64::MAX {
            Seq::<OperationV>::empty()
        } else {
            crate::store::spec_replay_tail(s, author, log_id, (n + 1) as u64)
        },
    }
}

/// The operations a replay of one author's logs re-emits, in request order.
pub open spec fn spec_replay_request_ops(
    s: Seq<crate::store::LogRecordV>,
    t: Seq<AckEntryV>,
    author: Seq<u8>,
    log_ids: Seq<Seq<u8>>,
) -> Seq<OperationV>
    decreases log_ids.len(),
{
    if log_ids.len() == 0 {
        Seq::<OperationV>::empty()
    } else {
        spec_replay_request_ops(s, t, author, log_ids.drop_last()) + spec_replay_ops(
            s,
            t,
            author,
            log_ids.last(),
        )
    }
}

/// The operations a replay of several requests re-emits, in request order.
pub open spec fn spec_replay_all_ops(
    s: Seq<crate::store::LogRecordV>,
    t: Seq<AckEntryV>,
    reqs: Seq<ReplayRequestV>,
) -> Seq<OperationV>
    decreases reqs.len(),
{
    if reqs.len() == 0 {
        Seq::<OperationV>::empty()
    } else {
        spec_replay_all_ops(s, t, reqs.drop_last()) + spec_replay_request_ops(
            s,
            t,
            reqs.last().author,
            reqs.last().log_ids,
        )
    }
}

/// Events distribute over concatenation of operation runs.
pub proof fn lemma_events_of_concat(x: Seq<OperationV>, y: Seq<OperationV>)
    ensures
        spec_events_of(x + y) == spec_events_of(x) + spec_events_of(y),
    decreases y.len(),
{
    if y.len() == 0 {
        assert(x + y =~= x);
        assert(spec_events_of(y) == Seq::<StreamEventV>::empty());
        assert(spec_events_of(x) + Seq::<StreamEventV>::empty() =~= spec_events_of(x));
    } else {
        lemma_events_of_concat(x, y.drop_last());
        assert((x + y).drop_last() =~= x + y.drop_last());
        assert((x + y).last() == y.last());
        assert(spec_events_of(x + y) == spec_events_of(x + y.drop_last()) + (if spec_emits_event(
            y.last(),
        ) {
            seq![spec_event_of(y.last())]
        } else {
            Seq::<StreamEventV>::empty()
        }));
        assert((spec_events_of(x) + spec_events_of(y.drop_last())) + (if spec_emits_event(
            y.last(),
        ) {
            seq![spec_event_of(y.last())]
        } else {
            Seq::<StreamEventV>::empty()
        }) =~= spec_events_of(x) + (spec_events_of(y.drop_last()) + (if spec_emits_event(
            y.last(),
        ) {
            seq![spec_event_of(y.last())]
        } else {
            Seq::<StreamEventV>::empty()
        })));
    }
}


/// A command to the stream controller.
pub enum ToStreamController {
    /// Feed one operation into the ingestion pipeline.
    Ingest { header: Header, body: Option<Vec<u8>> },
    /// Surface an ephemeral payload directly, bypassing the pipeline.
    Ephemeral { bytes: Vec<u8> },
    /// Mark the operation with this id as processed.
    Ack { operation_id: Vec<u8> },
    /// Re-emit unacknowledged operations of these logs.
    Replay { logs: Vec<ReplayRequest> },
}

/// Mathematical value of the stream controller.
pub ghost struct StreamControllerV {
    pub store: Seq<crate::store::LogRecordV>,
    pub acked: Seq<AckEntryV>,
    pub pending: Seq<OperationV>,
}

/// The stream controller: owns the log store, the acknowledgement table,
/// and the buffer of out-of-order operations awaiting their predecessors.
pub struct StreamController {
    pub store: LogStore,
    pub acked: Vec<AckEntry>,
    pub pending: Vec<Operation>,
}

impl View for StreamController {
    type V = StreamControllerV;

    open spec fn view(&self) -> StreamControllerV {
        StreamControllerV {
            store: self.store@,
            acked: acks_view(self.acked@),
            pending: crate::store::ops_view(self.pending@),
        }
    }
}

/// The controller's invariant: the store and acknowledgement table are
/// well-formed, and no buffered operation can currently be admitted (its
/// predecessor is still missing).
pub open spec fn controller_wf(c: StreamControllerV) -> bool {
    &&& store_wf(c.store)
    &&& acked_wf(c.acked)
    &&& forall|i: int|
        0 <= i < c.pending.len() ==> spec_ingest_case(
            c.store,
            (#[trigger] c.pending[i]).header,
            c.pending[i].body,
        ) is Buffered
}

impl StreamController {
    /// The controller's invariant.
    pub open spec fn wf(&self) -> bool {
        controller_wf(self@)
    }

    /// A fresh controller over a store: nothing acknowledged, nothing
    /// buffered.
    pub fn new(store: LogStore) -> (r: Self)
        requires
            store.wf(),
        ensures
            r.wf(),
            r@.store == store@,
            r@.acked =~= Seq::<AckEntryV>::empty(),
            r@.pending =~= Seq::<OperationV>::empty(),
    {
        let r = StreamController { store, acked: Vec::new(), pending: Vec::new() };
        proof {
            assert(r@.acked =~= Seq::<AckEntryV>::empty());
            assert(r@.pending =~= Seq::<OperationV>::empty());
        }
        r
    }

    /// Releases every buffered operation whose predecessor has arrived,
    /// oldest sequence numbers first, until no buffered operation can be
    /// admitted; emits events for those persisted with a body. Buffered
    /// operations found invalid against the current store are dropped.
    fn drain(&mut self, events: &mut Vec<StreamEvent>)
        requires
            old(self).store.wf(),
            acked_wf(old(self)@.acked),
        ensures
            final(self).wf(),
            final(self)@.acked == old(self)@.acked,
            old(self)@.pending.len() == 0 ==> final(self)@ == old(self)@ && final(events)@ == old(
                events,
            )@,
            final(events)@.len() >= old(events)@.len(),
            forall|i: int|
                0 <= i < old(events)@.len() ==> #[trigger] final(events)@[i] == old(events)@[i],
            forall|i: int|
                old(events)@.len() <= i < final(events)@.len() ==> ((#[trigger] final(events)@[i])@.data is Application
                    && final(events)@[i]@.meta is Some),
    {
        let ghost c0 = self@;
        let ghost ev0 = events@;
        let mut again = true;
        while again
            invariant
                self.store.wf(),
                acked_wf(self@.acked),
                self@.acked == c0.acked,
                c0.pending.len() == 0 ==> self@ == c0 && events@ == old(events)@,
                events@.len() >= ev0.len(),
                forall|i: int| 0 <= i < ev0.len() ==> #[trigger] events@[i] == ev0[i],
                forall|i: int|
                    ev0.len() <= i < events@.len() ==> (#[trigger] events@[i])@.data
                        is Application && events@[i]@.meta is Some,
                !again ==> forall|i: int|
                    0 <= i < self@.pending.len() ==> spec_ingest_case(
                        self@.store,
                        (#[trigger] self@.pending[i]).header,
                        self@.pending[i].body,
                    ) is Buffered,
            decreases self.pending.len() + (if again {
                1int
            } else {
                0int
            }),
        {
            let ghost len0 = self.pending.len();
            again = false;
            let mut i: usize = 0;
            while i < self.pending.len() && !again
                invariant
                    self.store.wf(),
                    acked_wf(self@.acked),
                    self@.acked == c0.acked,
                    c0.pending.len() == 0 ==> self@ == c0 && events@ == old(events)@,
                    events@.len() >= ev0.len(),
                    forall|j: int| 0 <= j < ev0.len() ==> #[trigger] events@[j] == ev0[j],
                    forall|j: int|
                        ev0.len() <= j < events@.len() ==> (#[trigger] events@[j])@.data
                            is Application && events@[j]@.meta is Some,
                    i <= self.pending.len(),
                    !again ==> forall|j: int|
                        0 <= j < i ==> spec_ingest_case(
                            self@.store,
                            (#[trigger] self@.pending[j]).header,
                            self@.pending[j].body,
                        ) is Buffered,
                    again ==> self.pending.len() < len0,
                    !again ==> self.pending.len() <= len0,
                decreases self.pending.len() - i,
            {
                let r = ingest_operation(&mut self.store, &self.pending[i].header, &self.pending[i].body);
                match r {
                    IngestOutcome::Buffered => {
                        i += 1;
                    },
                    IngestOutcome::Persisted { pruned: _ } => {
                        let op = self.pending.remove(i);
                        match &op.body {
                            Option::Some(b) => {
                                proof {
                                    assert(spec_extract_stream(op.header@) is Some);
                                }
                                let ev = StreamEvent::new(&op.header, b);
                                events.push(ev);
                            },
                            Option::None => {},
                        }
                        again = true;
                    },
                    _ => {
                        let _ = self.pending.remove(i);
                        again = true;
                    },
                }
            }
        }
    }

    /// Feeds one operation into the pipeline and releases any buffered
    /// successors it unblocks. Returns the events for everything persisted
    /// with a body, admission order first.
    pub fn ingest(&mut self, header: Header, body: Option<Vec<u8>>) -> (events: Vec<StreamEvent>)
        requires
            old(self).wf(),
        ensures
            final(self).wf(),
            final(self)@.acked == old(self)@.acked,
            forall|i: int|
                0 <= i < events@.len() ==> ((#[trigger] events@[i])@.data is Application
                    && events@[i]@.meta is Some),
            old(self)@.pending.len() == 0 ==> {
                &&& final(self)@.store =~= spec_ingest_after(
                    old(self)@.store,
                    header@,
                    opt_bytes_view(body),
                )
                &&& final(self)@.pending =~= (
                if spec_ingest_case(old(self)@.store, header@, opt_bytes_view(body)) is Buffered {
                    seq![OperationV { header: header@, body: opt_bytes_view(body) }]
                } else {
                    Seq::<OperationV>::empty()
                })
                &&& events_view(events@) =~= (
                if spec_ingest_case(old(self)@.store, header@, opt_bytes_view(body)) matches
                    IngestOutcome::Persisted { pruned: _ } && spec_emits_event(
                    OperationV { header: header@, body: opt_bytes_view(body) },
                ) {
                    seq![spec_event_of(OperationV { header: header@, body: opt_bytes_view(body) })]
                } else {
                    Seq::<StreamEventV>::empty()
                })
            },
    {
        let ghost c0 = self@;
        let ghost opv = OperationV { header: header@, body: opt_bytes_view(body) };
        let mut events: Vec<StreamEvent> = Vec::new();
        let r = ingest_operation(&mut self.store, &header, &body);
        match r {
            IngestOutcome::Persisted { pruned: _ } => {
                match &body {
                    Option::Some(b) => {
                        proof {
                            assert(spec_extract_stream(header@) is Some);
                        }
                        let ev = StreamEvent::new(&header, b);
                        events.push(ev);
                        proof {
                            assert(events_view(events@) =~= seq![spec_event_of(opv)]);
                        }
                    },
                    Option::None => {},
                }
                let ghost events_before = events@;
                let ghost self_before = self@;
                self.drain(&mut events);
                proof {
                    if c0.pending.len() == 0 {
                        assert(self_before.pending.len() == 0);
                        assert(self@ == self_before);
                        assert(events@ == events_before);
                        if opv.body is None {
                            assert(events_view(events@) =~= Seq::<StreamEventV>::empty());
                        }
                    }
                }
            },
            IngestOutcome::Buffered => {
                self.pending.push(Operation { header, body });
                proof {
                    assert(self@.store == c0.store);
                    assert forall|i: int| 0 <= i < self@.pending.len() implies spec_ingest_case(
                        self@.store,
                        (#[trigger] self@.pending[i]).header,
                        self@.pending[i].body,
                    ) is Buffered by {
                        if i < c0.pending.len() {
                            assert(self@.pending[i] == c0.pending[i]);
                        } else {
                            assert(self@.pending[i] == opv);
                        }
                    }
                    assert(self@.pending =~= c0.pending.push(opv));
                    if c0.pending.len() == 0 {
                        assert(self@.pending =~= seq![opv]);
                        assert(events_view(events@) =~= Seq::<StreamEventV>::empty());
                    }
                }
            },
            _ => {
                proof {
                    assert(self@.store == c0.store);
                    assert(self@.pending == c0.pending);
                    if c0.pending.len() == 0 {
                        assert(self@.pending =~= Seq::<OperationV>::empty());
                        assert(events_view(events@) =~= Seq::<StreamEventV>::empty());
                    }
                }
            },
        }
        events
    }

    /// Marks an operation as processed: raises the acknowledgement cursor
    /// of its log to at least its sequence number. Succeeds exactly when
    /// some stored operation hashes to the id and carries a log id; fails
    /// with the id unknown, or with the log id missing, otherwise.
    pub fn ack(&mut self, operation_id: &[u8]) -> (r: Result<(), StreamControllerError>)
        requires
            old(self).wf(),
        ensures
            final(self).wf(),
            final(self)@.store == old(self)@.store,
            final(self)@.pending == old(self)@.pending,
            r is Ok <==> crate::store::ackable_in_store(old(self)@.store, operation_id@),
            r == Err::<(), StreamControllerError>(StreamControllerError::AckedUnknownOperation)
                <==> !crate::store::id_in_store(old(self)@.store, operation_id@),
            r == Err::<(), StreamControllerError>(StreamControllerError::MissingLogId) <==> (
            crate::store::id_in_store(old(self)@.store, operation_id@)
                && !crate::store::ackable_in_store(old(self)@.store, operation_id@)),
            r is Err ==> final(self)@.acked == old(self)@.acked,
            r is Ok ==> exists|o: OperationV|
                {
                    &&& crate::store::op_in_store(old(self)@.store, o)
                    &&& spec_header_id(o.header) == operation_id@
                    &&& spec_extract_log_id(o.header) is Some
                    &&& acked_of(
                        final(self)@.acked,
                        o.header.public_key,
                        spec_extract_log_id(o.header)->Some_0,
                    ) == Option::Some(
                        spec_ack_join(
                            acked_of(
                                old(self)@.acked,
                                o.header.public_key,
                                spec_extract_log_id(o.header)->Some_0,
                            ),
                            #[trigger] o.header.seq_num,
                        ),
                    )
                },
            forall|a: Seq<u8>, l: Seq<u8>|
                (#[trigger] acked_of(old(self)@.acked, a, l)) is Some ==> acked_of(
                    final(self)@.acked,
                    a,
                    l,
                ) is Some && acked_of(final(self)@.acked, a, l)->Some_0 >= acked_of(
                    old(self)@.acked,
                    a,
                    l,
                )->Some_0,
    {
        let op = match self.store.get_for_ack(operation_id) {
            Option::None => {
                return match self.store.get(operation_id) {
                    Option::Some(_) => Result::Err(StreamControllerError::MissingLogId),
                    Option::None => Result::Err(StreamControllerError::AckedUnknownOperation),
                };
            },
            Option::Some(op) => op,
        };
        match extract_log_id(&op.header) {
            Option::None => {
                proof {
                    assert(false);
                }
                unreached()
            },
            Option::Some(l) => {
                let ghost t0 = self@.acked;
                set_ack(&mut self.acked, op.header.public_key.as_slice(), &l, op.header.seq_num);
                proof {
                    let ov = op@;
                    assert(crate::store::op_in_store(old(self)@.store, ov));
                    assert(acked_of(
                        self@.acked,
                        ov.header.public_key,
                        spec_extract_log_id(ov.header)->Some_0,
                    ) == Option::Some(
                        spec_ack_join(
                            acked_of(
                                t0,
                                ov.header.public_key,
                                spec_extract_log_id(ov.header)->Some_0,
                            ),
                            ov.header.seq_num,
                        ),
                    ));
                    assert forall|a: Seq<u8>, l2: Seq<u8>|
                        (#[trigger] acked_of(t0, a, l2)) is Some implies (acked_of(
                        self@.acked,
                        a,
                        l2,
                    ) is Some && acked_of(self@.acked, a, l2)->Some_0 >= acked_of(
                        t0,
                        a,
                        l2,
                    )->Some_0) by {
                        if a == ov.header.public_key && l2 == l@ {
                        } else {
                            assert(acked_of(self@.acked, a, l2) == acked_of(t0, a, l2));
                        }
                    }
                }
                Result::Ok(())
            },
        }
    }

    /// The highest acknowledged sequence number of a log, if any.
    fn get_ack(&self, author: &[u8], log_id: &LogId) -> (r: Option<u64>)
        requires
            acked_wf(self@.acked),
        ensures
            r == acked_of(self@.acked, author@, log_id@),
    {
        let ghost t = self@.acked;
        let mut k: usize = 0;
        while k < self.acked.len()
            invariant
                k <= self.acked.len(),
                acks_view(self.acked@) == t,
                acked_wf(t),
                t.len() == self.acked.len(),
                forall|k2: int|
                    0 <= k2 < k ==> !(t[k2].author == author@ && #[trigger] (t[k2].log_id)
                        == log_id@),
            decreases self.acked.len() - k,
        {
            proof {
                assert(self.acked@[k as int]@ == t[k as int]);
            }
            if bytes_eq(self.acked[k].author.as_slice(), author) && self.acked[k].log_id.matches(
                log_id,
            ) {
                proof {
                    lemma_ack_index_unique(t, k as int);
                }
                return Option::Some(self.acked[k].seq);
            }
            k += 1;
        }
        proof {
            if has_ack(t, author@, log_id@) {
                let w = ack_index_of(t, author@, log_id@);
                assert(!(t[w].author == author@ && t[w].log_id == log_id@));
            }
        }
        Option::None
    }

    /// Re-emits, in sequence order, the events of every stored operation of
    /// one log past its acknowledgement cursor: everything when nothing was
    /// acknowledged, nothing when the log is absent.
    #[verifier::rlimit(100)]
    pub fn replay_log(&self, author: &[u8], log_id: &LogId) -> (events: Vec<StreamEvent>)
        requires
            self.wf(),
        ensures
            events_view(events@) =~= spec_events_of(
                spec_replay_ops(self@.store, self@.acked, author@, log_id@),
            ),
    {
        let from_seq: u64 = match self.get_ack(author, log_id) {
            Option::None => 0,
            Option::Some(n) => {
                if n == u64::MAX {
                    let events: Vec<StreamEvent> = Vec::new();
                    proof {
                        assert(events_view(events@) =~= Seq::<StreamEventV>::empty());
                        assert(spec_events_of(Seq::<OperationV>::empty())
                            == Seq::<StreamEventV>::empty());
                    }
                    return events;
                }
                n + 1
            },
        };
        let ops = self.store.collect_from(author, log_id, from_seq);
        let ghost opsv = crate::store::ops_view(ops@);
        proof {
            assert(opsv =~= spec_replay_ops(self@.store, self@.acked, author@, log_id@));
            assert forall|i: int| 0 <= i < opsv.len() implies spec_extract_log_id(
                (#[trigger] opsv[i]).header,
            ) is Some by {
                assert(crate::store::has_log(self@.store, author@, log_id@));
                let k = crate::store::log_index_of(self@.store, author@, log_id@);
                let rec = self@.store[k];
                assert(crate::store::record_wf(rec));
                let base = rec.ops.len() - opsv.len();
                assert(opsv[i] == rec.ops[base + i]);
            }
        }
        events_for_ops(&ops)
    }

    /// Re-emits the events of everything unacknowledged in the requested
    /// logs, in request order, each log's operations in sequence order.
    #[verifier::rlimit(100)]
    #[verifier::loop_isolation(false)]
    pub fn replay(&self, logs: &Vec<ReplayRequest>) -> (events: Vec<StreamEvent>)
        requires
            self.wf(),
        ensures
            events_view(events@) =~= spec_events_of(
                spec_replay_all_ops(self@.store, self@.acked, reqs_view(logs@)),
            ),
    {
        let ghost rv = reqs_view(logs@);
        let mut events: Vec<StreamEvent> = Vec::new();
        proof {
            assert(events_view(events@) =~= Seq::<StreamEventV>::empty());
            assert(rv.subrange(0, 0) =~= Seq::<ReplayRequestV>::empty());
        }
        let mut i: usize = 0;
        while i < logs.len()
            invariant
                i <= logs.len(),
                rv == reqs_view(logs@),
                rv.len() == logs.len(),
                events_view(events@) =~= spec_events_of(
                    spec_replay_all_ops(self@.store, self@.acked, rv.subrange(0, i as int)),
                ),
            decreases logs.len() - i,
        {
            let req = &logs[i];
            proof {
                assert(req@ == rv[i as int]);
            }
            let ghost lv = req@.log_ids;
            let mut j: usize = 0;
            let ghost ops_before = spec_replay_all_ops(self@.store, self@.acked, rv.subrange(0, i as int));
            while j < req.log_ids.len()
                invariant
                    j <= req.log_ids.len(),
                    lv == req@.log_ids,
                    lv.len() == req.log_ids.len(),
                    req@ == rv[i as int],
                    ops_before == spec_replay_all_ops(
                        self@.store,
                        self@.acked,
                        rv.subrange(0, i as int),
                    ),
                    events_view(events@) =~= spec_events_of(
                        ops_before + spec_replay_request_ops(
                            self@.store,
                            self@.acked,
                            req@.author,
                            lv.subrange(0, j as int),
                        ),
                    ),
                decreases req.log_ids.len() - j,
            {
                proof {
                    assert(req.log_ids@[j as int]@ == lv[j as int]);
                }
                let mut evs = self.replay_log(req.author.as_slice(), &req.log_ids[j]);
                let ghost evs_v = events_view(evs@);
                let ghost evs_raw = evs@;
                let ghost events0 = events@;
                events.append(&mut evs);
                proof {
                    assert forall|x: int| 0 <= x < events@.len() implies events_view(events@)[x]
                        == (events_view(events0) + evs_v)[x] by {
                        if x < events0.len() {
                            assert(events@[x] == events0[x]);
                        } else {
                            assert(events@[x] == evs_raw[x - events0.len()]);
                        }
                    }
                    assert(events_view(events@) =~= events_view(events0) + evs_v);
                    let taken = lv.subrange(0, j + 1);
                    assert(taken.drop_last() =~= lv.subrange(0, j as int));
                    assert(taken.last() == lv[j as int]);
                    let prev = ops_before + spec_replay_request_ops(
                        self@.store,
                        self@.acked,
                        req@.author,
                        lv.subrange(0, j as int),
                    );
                    let cur_log = spec_replay_ops(self@.store, self@.acked, req@.author, lv[j as int]);
                    lemma_events_of_concat(prev, cur_log);
                    assert(ops_before + spec_replay_request_ops(
                        self@.store,
                        self@.acked,
                        req@.author,
                        taken,
                    ) =~= prev + cur_log);
                }
                j += 1;
            }
            proof {
                assert(lv.subrange(0, lv.len() as int) =~= lv);
                let taken = rv.subrange(0, i + 1);
                assert(taken.drop_last() =~= rv.subrange(0, i as int));
                assert(taken.last() == rv[i as int]);
                assert(spec_replay_all_ops(self@.store, self@.acked, taken) == ops_before
                    + spec_replay_request_ops(self@.store, self@.acked, req@.author, lv));
            }
            i += 1;
        }
        proof {
            assert(rv.subrange(0, rv.len() as int) =~= rv);
        }
        events
    }

    /// Applies one command. Ingest feeds the pipeline; Ephemeral wraps the
    /// bytes as an event and touches no state, so no ephemeral message is
    /// ever persisted; Ack moves the acknowledgement cursor; Replay re-emits
    /// unacknowledged operations and changes nothing.
    pub fn handle_command(&mut self, cmd: ToStreamController) -> (r: (
        Result<(), StreamControllerError>,
        Vec<StreamEvent>,
    ))
        requires
            old(self).wf(),
        ensures
            final(self).wf(),
            cmd matches ToStreamController::Ephemeral { bytes } ==> {
                &&& final(self)@ == old(self)@
                &&& r.0 is Ok
                &&& events_view(r.1@) =~= seq![
                    StreamEventV { meta: Option::None, data: EventDataV::Ephemeral(bytes@) },
                ]
            },
            cmd matches ToStreamController::Replay { logs } ==> {
                &&& final(self)@ == old(self)@
                &&& r.0 is Ok
                &&& events_view(r.1@) =~= spec_events_of(
                    spec_replay_all_ops(old(self)@.store, old(self)@.acked, reqs_view(logs@)),
                )
            },
            cmd matches ToStreamController::Ack { operation_id } ==> {
                &&& final(self)@.store == old(self)@.store
                &&& final(self)@.pending == old(self)@.pending
                &&& r.1@.len() == 0
                &&& (r.0 is Ok <==> crate::store::ackable_in_store(
                    old(self)@.store,
                    operation_id@,
                ))
                &&& (r.0 is Ok ==> exists|o: OperationV|
                    {
                        &&& crate::store::op_in_store(old(self)@.store, o)
                        &&& spec_header_id(o.header) == operation_id@
                        &&& spec_extract_log_id(o.header) is Some
                        &&& acked_of(
                            final(self)@.acked,
                            o.header.public_key,
                            spec_extract_log_id(o.header)->Some_0,
                        ) == Option::Some(
                            spec_ack_join(
                                acked_of(
                                    old(self)@.acked,
                                    o.header.public_key,
                                    spec_extract_log_id(o.header)->Some_0,
                                ),
                                #[trigger] o.header.seq_num,
                            ),
                        )
                    })
                &&& forall|a: Seq<u8>, l: Seq<u8>|
                    (#[trigger] acked_of(old(self)@.acked, a, l)) is Some ==> acked_of(
                        final(self)@.acked,
                        a,
                        l,
                    ) is Some && acked_of(final(self)@.acked, a, l)->Some_0 >= acked_of(
                        old(self)@.acked,
                        a,
                        l,
                    )->Some_0
            },
            cmd matches ToStreamController::Ingest { header, body } ==> {
                &&& final(self)@.acked == old(self)@.acked
                &&& r.0 is Ok
                &&& old(self)@.pending.len() == 0 ==> {
                    &&& final(self)@.store =~= spec_ingest_after(
                        old(self)@.store,
                        header@,
                        opt_bytes_view(body),
                    )
                    &&& final(self)@.pending =~= (
                    if spec_ingest_case(old(self)@.store, header@, opt_bytes_view(body))
                        is Buffered {
                        seq![OperationV { header: header@, body: opt_bytes_view(body) }]
                    } else {
                        Seq::<OperationV>::empty()
                    })
                    &&& events_view(r.1@) =~= (
                    if spec_ingest_case(old(self)@.store, header@, opt_bytes_view(body)) matches
                        IngestOutcome::Persisted { pruned: _ } && spec_emits_event(
                        OperationV { header: header@, body: opt_bytes_view(body) },
                    ) {
                        seq![
                            spec_event_of(
                                OperationV { header: header@, body: opt_bytes_view(body) },
                            ),
                        ]
                    } else {
                        Seq::<StreamEventV>::empty()
                    })
                }
            },
    {
        match cmd {
            ToStreamController::Ingest { header, body } => {
                let events = self.ingest(header, body);
                (Result::Ok(()), events)
            },
            ToStreamController::Ephemeral { bytes } => {
                let ev = self.ephemeral(bytes);
                let mut events: Vec<StreamEvent> = Vec::new();
                events.push(ev);
                proof {
                    assert(events_view(events@) =~= seq![events@[0]@]);
                }
                (Result::Ok(()), events)
            },
            ToStreamController::Ack { operation_id } => {
                let res = self.ack(operation_id.as_slice());
                let events: Vec<StreamEvent> = Vec::new();
                proof {
                    assert forall|a: Seq<u8>, l: Seq<u8>|
                        (#[trigger] acked_of(old(self)@.acked, a, l)) is Some implies acked_of(
                        self@.acked,
                        a,
                        l,
                    ) is Some && acked_of(self@.acked, a, l)->Some_0 >= acked_of(
                        old(self)@.acked,
                        a,
                        l,
                    )->Some_0 by {
                        if res is Err {
                            assert(self@.acked == old(self)@.acked);
                        }
                    }
                }
                (res, events)
            },
            ToStreamController::Replay { logs } => {
                let events = self.replay(&logs);
                (Result::Ok(()), events)
            },
        }
    }

    /// Wraps an ephemeral payload as an event, bypassing the pipeline:
    /// nothing is validated and nothing is persisted.
    pub fn ephemeral(&self, payload: Vec<u8>) -> (r: StreamEvent)
        ensures
            r@ == (StreamEventV { meta: Option::None, data: EventDataV::Ephemeral(payload@) }),
    {
        StreamEvent::from_bytes(payload)
    }
}


/// Replay is faithful: after an acknowledgement at sequence number `n`, a
/// replay of the log re-emits exactly its operations with a sequence number
/// above `n`, in sequence order, and nothing else.
pub proof fn lemma_replay_faithful(
    s: Seq<crate::store::LogRecordV>,
    t: Seq<AckEntryV>,
    author: Seq<u8>,
    log_id: Seq<u8>,
    n: u64,
)
    requires
        crate::store::store_wf(s),
        crate::store::has_log(s, author, log_id),
        acked_of(t, author, log_id) == Option::Some(n),
        n < u64::MAX,
    ensures
        ({
            let ops = spec_replay_ops(s, t, author, log_id);
            let rec = s[crate::store::log_index_of(s, author, log_id)];
            &&& (forall|i: int|
                0 <= i < ops.len() ==> (#[trigger] ops[i]).header.seq_num > n)
            &&& (forall|i: int| 0 <= i < ops.len() ==> rec.ops.contains(#[trigger] ops[i]))
            &&& (forall|i: int, i2: int|
                0 <= i < i2 < ops.len() ==> (#[trigger] ops[i]).header.seq_num < (
                #[trigger] ops[i2]).header.seq_num)
            &&& (forall|j: int|
                0 <= j < rec.ops.len() && (#[trigger] rec.ops[j]).header.seq_num > n
                    ==> ops.contains(rec.ops[j]))
        }),
{
    let ops = spec_replay_ops(s, t, author, log_id);
    let k = crate::store::log_index_of(s, author, log_id);
    let rec = s[k];
    assert(crate::store::record_wf(rec));
    let from = (n + 1) as u64;
    let cut: int = if from <= rec.start_seq {
        0
    } else if from - rec.start_seq >= rec.ops.len() {
        rec.ops.len() as int
    } else {
        from - rec.start_seq
    };
    assert(ops =~= rec.ops.skip(cut));
    assert forall|i: int| 0 <= i < ops.len() implies (#[trigger] ops[i]).header.seq_num > n by {
        assert(ops[i] == rec.ops[cut + i]);
        assert(rec.ops[cut + i].header.seq_num == rec.start_seq + cut + i);
    }
    assert forall|i: int| 0 <= i < ops.len() implies rec.ops.contains(#[trigger] ops[i]) by {
        assert(ops[i] == rec.ops[cut + i]);
    }
    assert forall|i: int, i2: int| 0 <= i < i2 < ops.len() implies (
    #[trigger] ops[i]).header.seq_num < (#[trigger] ops[i2]).header.seq_num by {
        assert(ops[i] == rec.ops[cut + i]);
        assert(ops[i2] == rec.ops[cut + i2]);
    }
    assert forall|j: int|
        0 <= j < rec.ops.len() && (#[trigger] rec.ops[j]).header.seq_num > n implies ops.contains(
        rec.ops[j],
    ) by {
        assert(rec.ops[j].header.seq_num == rec.start_seq + j);
        assert(j >= cut);
        assert(ops[j - cut] == rec.ops[j]);
    }
}

} // verus!
