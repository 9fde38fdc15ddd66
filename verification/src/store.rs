//! The in-memory log store: operations persisted per `(author, log id)`.
//!
//! Each log is a strictly linear, single-writer sequence. The store's
//! invariant carries the guarantees the rest of the system relies on: stored
//! sequence numbers are contiguous, every operation past the first links to
//! the hash of its predecessor, and every stored operation carries a valid
//! signature and a consistent body.

use vstd::prelude::*;

use crate::bytes::{bytes_eq, copy_range};
use crate::crypto::KEY_LEN;
use crate::extensions::LogId;
use crate::operation::{
    header_id, header_wf, opt_bytes_view, spec_body_ok, spec_extract_log_id, spec_header_id,
    spec_sig_ok, HeaderV, Operation, OperationV,
};

verus! {

/// The views of a list of operations.
pub open spec fn ops_view(v: Seq<Operation>) -> Seq<OperationV> {
    Seq::new(v.len(), |i: int| v[i]@)
}

/// Mathematical value of one stored log.
pub ghost struct LogRecordV {
    pub author: Seq<u8>,
    pub log_id: Seq<u8>,
    pub start_seq: u64,
    pub ops: Seq<OperationV>,
}

/// One stored log: the operations of one author under one log id, ordered
/// by sequence number. `start_seq` is the lowest stored sequence number;
/// it is zero until the log is pruned.
pub struct LogRecord {
    pub author: Vec<u8>,
    pub log_id: LogId,
    pub start_seq: u64,
    pub ops: Vec<Operation>,
}

impl View for LogRecord {
    type V = LogRecordV;

    open spec fn view(&self) -> LogRecordV {
        LogRecordV {
            author: self.author@,
            log_id: self.log_id@,
            start_seq: self.start_seq,
            ops: ops_view(self.ops@),
        }
    }
}

/// An operation fit for persistence: well-formed header, valid signature,
/// consistent body.
pub open spec fn op_valid(o: OperationV) -> bool {
    &&& header_wf(o.header)
    &&& spec_sig_ok(o.header)
    &&& spec_body_ok(o.header, o.body)
}

/// Well-formedness of one stored log: every operation is valid, authored by
/// the log's author, addressed to the log's id; sequence numbers are
/// contiguous from `start_seq`; every operation past the first links to the
/// hash of its predecessor; an unpruned log starts at sequence zero with no
/// backlink.
pub open spec fn record_wf(r: LogRecordV) -> bool {
    &&& r.author.len() == KEY_LEN
    &&& r.ops.len() > 0
    &&& (forall|i: int| 0 <= i < r.ops.len() ==> op_valid(#[trigger] r.ops[i]))
    &&& (forall|i: int|
        0 <= i < r.ops.len() ==> (#[trigger] r.ops[i]).header.public_key == r.author)
    &&& (forall|i: int|
        0 <= i < r.ops.len() ==> (#[trigger] r.ops[i]).header.seq_num == r.start_seq + i)
    &&& (forall|i: int|
        0 <= i < r.ops.len() ==> spec_extract_log_id((#[trigger] r.ops[i]).header)
            == Option::Some(r.log_id))
    &&& (forall|i: int|
        0 < i < r.ops.len() ==> (#[trigger] r.ops[i]).header.backlink == Option::Some(
            spec_header_id(r.ops[i - 1].header),
        ))
    &&& (r.start_seq == 0 ==> r.ops[0].header.backlink is None)
}

/// Well-formedness of the store: every record is well-formed and no two
/// records share an `(author, log id)` pair.
pub open spec fn store_wf(s: Seq<LogRecordV>) -> bool {
    &&& (forall|k: int| 0 <= k < s.len() ==> record_wf(#[trigger] s[k]))
    &&& (forall|k1: int, k2: int|
        0 <= k1 < k2 < s.len() ==> !(s[k1].author == s[k2].author && #[trigger] s[k1].log_id
            == #[trigger] s[k2].log_id))
}

/// A log with this author and id is present.
pub open spec fn has_log(s: Seq<LogRecordV>, author: Seq<u8>, log_id: Seq<u8>) -> bool {
    exists|k: int| 0 <= k < s.len() && s[k].author == author && #[trigger] s[k].log_id == log_id
}

/// The index of the log with this author and id.
pub open spec fn log_index_of(s: Seq<LogRecordV>, author: Seq<u8>, log_id: Seq<u8>) -> int {
    choose|k: int|
        0 <= k < s.len() && s[k].author == author && #[trigger] s[k].log_id == log_id
}

/// The operations of the log with this author and id; empty when absent.
pub open spec fn log_ops(s: Seq<LogRecordV>, author: Seq<u8>, log_id: Seq<u8>) -> Seq<OperationV> {
    if has_log(s, author, log_id) {
        s[log_index_of(s, author, log_id)].ops
    } else {
        Seq::<OperationV>::empty()
    }
}

/// In a well-formed store the index of a matching record is unique.
pub proof fn lemma_log_index_unique(s: Seq<LogRecordV>, k: int)
    requires
        store_wf(s),
        0 <= k < s.len(),
    ensures
        log_index_of(s, s[k].author, s[k].log_id) == k,
        has_log(s, s[k].author, s[k].log_id),
{
    assert(has_log(s, s[k].author, s[k].log_id));
    let k2 = log_index_of(s, s[k].author, s[k].log_id);
    if k2 != k {
        if k2 < k {
            assert(!(s[k2].author == s[k].author && s[k2].log_id == s[k].log_id));
        } else {
            assert(!(s[k].author == s[k2].author && s[k].log_id == s[k2].log_id));
        }
    }
}

/// The operation appears somewhere in the store.
pub open spec fn op_in_store(s: Seq<LogRecordV>, o: OperationV) -> bool {
    exists|k: int, j: int|
        0 <= k < s.len() && 0 <= j < s[k].ops.len() && #[trigger] s[k].ops[j] == o
}

/// Some stored operation's header hashes to this id.
pub open spec fn id_in_store(s: Seq<LogRecordV>, id: Seq<u8>) -> bool {
    exists|k: int, j: int|
        0 <= k < s.len() && 0 <= j < s[k].ops.len() && spec_header_id(
            (#[trigger] s[k].ops[j]).header,
        ) == id
}

/// Some stored operation's header hashes to this id and carries a log id.
pub open spec fn ackable_in_store(s: Seq<LogRecordV>, id: Seq<u8>) -> bool {
    exists|k: int, j: int|
        0 <= k < s.len() && 0 <= j < s[k].ops.len() && spec_header_id(
            (#[trigger] s[k].ops[j]).header,
        ) == id && spec_extract_log_id(s[k].ops[j].header) is Some
}

/// The in-memory log store.
pub struct LogStore {
    pub logs: Vec<LogRecord>,
}

impl View for LogStore {
    type V = Seq<LogRecordV>;

    open spec fn view(&self) -> Seq<LogRecordV> {
        Seq::new(self.logs@.len(), |i: int| self.logs@[i]@)
    }
}

impl LogStore {
    /// The store's invariant.
    pub open spec fn wf(&self) -> bool {
        store_wf(self@)
    }

    /// An empty store.
    pub fn new() -> (r: Self)
        ensures
            r@ =~= Seq::<LogRecordV>::empty(),
            r.wf(),
    {
        let r = LogStore { logs: Vec::new() };
        proof {
            assert(r@ =~= Seq::<LogRecordV>::empty());
        }
        r
    }

    /// Finds the record holding the given author's log.
    pub fn find_log(&self, author: &[u8], log_id: &LogId) -> (r: Option<usize>)
        requires
            self.wf(),
        ensures
            r is Some <==> has_log(self@, author@, log_id@),
            r matches Option::Some(k) ==> {
                &&& k < self@.len()
                &&& self@[k as int].author == author@
                &&& self@[k as int].log_id == log_id@
                &&& k as int == log_index_of(self@, author@, log_id@)
            },
    {
        let mut k: usize = 0;
        while k < self.logs.len()
            invariant
                self.wf(),
                k <= self.logs.len(),
                self@.len() == self.logs.len(),
                forall|k2: int|
                    0 <= k2 < k ==> !(self@[k2].author == author@ && #[trigger] self@[k2].log_id
                        == log_id@),
            decreases self.logs.len() - k,
        {
            let rec = &self.logs[k];
            if bytes_eq(rec.author.as_slice(), author) && rec.log_id.matches(log_id) {
                proof {
                    lemma_log_index_unique(self@, k as int);
                }
                return Option::Some(k);
            }
            k += 1;
        }
        proof {
            if has_log(self@, author@, log_id@) {
                let w = choose|k2: int|
                    0 <= k2 < self@.len() && self@[k2].author == author@ && #[trigger] (self@[k2].log_id) == log_id@;
                assert(!(self@[w].author == author@ && self@[w].log_id == log_id@));
            }
        }
        Option::None
    }

    /// The latest (highest sequence number) operation of a log, if the log
    /// exists.
    pub fn latest(&self, author: &[u8], log_id: &LogId) -> (r: Option<&Operation>)
        requires
            self.wf(),
        ensures
            r is Some <==> has_log(self@, author@, log_id@),
            r matches Option::Some(op) ==> {
                &&& log_ops(self@, author@, log_id@).len() > 0
                &&& op@ == log_ops(self@, author@, log_id@).last()
            },
    {
        match self.find_log(author, log_id) {
            Option::None => Option::None,
            Option::Some(k) => {
                let rec = &self.logs[k];
                assert(rec@ == self@[k as int]);
                assert(record_wf(rec@));
                let op = &rec.ops[rec.ops.len() - 1];
                assert(op@ == rec@.ops.last());
                Option::Some(op)
            },
        }
    }

    /// Looks an operation up by its id. Returns a copy of the operation
    /// whose header hashes to the id, or `None` when no stored operation
    /// does.
    pub fn get(&self, operation_id: &[u8]) -> (r: Option<Operation>)
        requires
            self.wf(),
        ensures
            r matches Option::Some(op) ==> {
                &&& op_in_store(self@, op@)
                &&& spec_header_id(op@.header) == operation_id@
            },
            r is None ==> forall|k: int, j: int|
                0 <= k < self@.len() && 0 <= j < self@[k].ops.len() ==> spec_header_id(
                    (#[trigger] self@[k].ops[j]).header,
                ) != operation_id@,
    {
        let mut k: usize = 0;
        while k < self.logs.len()
            invariant
                k <= self.logs.len(),
                self@.len() == self.logs.len(),
                forall|k2: int, j: int|
                    0 <= k2 < k && 0 <= j < self@[k2].ops.len() ==> spec_header_id(
                        (#[trigger] self@[k2].ops[j]).header,
                    ) != operation_id@,
            decreases self.logs.len() - k,
        {
            let rec = &self.logs[k];
            assert(rec@ == self@[k as int]);
            let mut j: usize = 0;
            while j < rec.ops.len()
                invariant
                    j <= rec.ops.len(),
                    rec@ == self@[k as int],
                    k < self@.len(),
                    forall|j2: int|
                        0 <= j2 < j ==> spec_header_id((#[trigger] rec@.ops[j2]).header)
                            != operation_id@,
                decreases rec.ops.len() - j,
            {
                let op = &rec.ops[j];
                assert(op@ == rec@.ops[j as int]);
                let id = header_id(&op.header);
                if bytes_eq(id.as_slice(), operation_id) {
                    let copy = op.clone();
                    proof {
                        assert(self@[k as int].ops[j as int] == copy@);
                    }
                    return Option::Some(copy);
                }
                j += 1;
            }
            k += 1;
        }
        Option::None
    }

    /// Looks up, by id, an operation that also carries a log id: what an
    /// acknowledgement needs. Succeeds exactly when some stored operation
    /// hashes to the id and its log id is extractable.
    pub fn get_for_ack(&self, operation_id: &[u8]) -> (r: Option<Operation>)
        requires
            self.wf(),
        ensures
            r is Some <==> ackable_in_store(self@, operation_id@),
            r matches Option::Some(op) ==> {
                &&& op_in_store(self@, op@)
                &&& spec_header_id(op@.header) == operation_id@
                &&& spec_extract_log_id(op@.header) is Some
            },
    {
        let mut k: usize = 0;
        while k < self.logs.len()
            invariant
                self.wf(),
                k <= self.logs.len(),
                self@.len() == self.logs.len(),
                forall|k2: int, j: int|
                    0 <= k2 < k && 0 <= j < self@[k2].ops.len() ==> !(spec_header_id(
                        (#[trigger] self@[k2].ops[j]).header,
                    ) == operation_id@ && spec_extract_log_id(self@[k2].ops[j].header) is Some),
            decreases self.logs.len() - k,
        {
            let rec = &self.logs[k];
            assert(rec@ == self@[k as int]);
            let mut j: usize = 0;
            while j < rec.ops.len()
                invariant
                    j <= rec.ops.len(),
                    rec@ == self@[k as int],
                    k < self@.len(),
                    forall|j2: int|
                        0 <= j2 < j ==> !(spec_header_id((#[trigger] rec@.ops[j2]).header)
                            == operation_id@ && spec_extract_log_id(rec@.ops[j2].header) is Some),
                decreases rec.ops.len() - j,
            {
                let op = &rec.ops[j];
                assert(op@ == rec@.ops[j as int]);
                let id = header_id(&op.header);
                if bytes_eq(id.as_slice(), operation_id) {
                    let has_log_id = match crate::operation::extract_log_id(&op.header) {
                        Option::Some(_) => true,
                        Option::None => false,
                    };
                    if has_log_id {
                        let copy = op.clone();
                        proof {
                            assert(self@[k as int].ops[j as int] == copy@);
                            assert(ackable_in_store(self@, operation_id@));
                        }
                        return Option::Some(copy);
                    }
                }
                j += 1;
            }
            k += 1;
        }
        proof {
            if ackable_in_store(self@, operation_id@) {
                let (k2, j2) = choose|k2: int, j2: int|
                    0 <= k2 < self@.len() && 0 <= j2 < self@[k2].ops.len() && spec_header_id(
                        (#[trigger] self@[k2].ops[j2]).header,
                    ) == operation_id@ && spec_extract_log_id(self@[k2].ops[j2].header) is Some;
                assert(!(spec_header_id(self@[k2].ops[j2].header) == operation_id@
                    && spec_extract_log_id(self@[k2].ops[j2].header) is Some));
            }
        }
        Option::None
    }

    /// Opens a new log holding the first operation of that log: sequence
    /// zero, no backlink.
    pub fn insert_new_log(&mut self, op: Operation, log_id: LogId)
        requires
            old(self).wf(),
            op_valid(op@),
            op@.header.seq_num == 0,
            op@.header.backlink is None,
            spec_extract_log_id(op@.header) == Option::Some(log_id@),
            !has_log(old(self)@, op@.header.public_key, log_id@),
        ensures
            final(self)@ =~= old(self)@.push(
                LogRecordV {
                    author: op@.header.public_key,
                    log_id: log_id@,
                    start_seq: 0,
                    ops: seq![op@],
                },
            ),
            final(self).wf(),
    {
        let author = copy_range(op.header.public_key.as_slice(), 0, op.header.public_key.len());
        let mut ops: Vec<Operation> = Vec::new();
        let ghost opv = op@;
        ops.push(op);
        let rec = LogRecord { author, log_id, start_seq: 0, ops };
        proof {
            assert(ops_view(rec.ops@) =~= seq![opv]);
        }
        let ghost recv = rec@;
        let ghost s0 = self@;
        self.logs.push(rec);
        proof {
            assert(self@ =~= s0.push(recv));
            assert(recv.ops.len() == 1);
            assert(recv.ops[0] == opv);
            assert(recv.author == opv.header.public_key);
            assert(record_wf(recv));
            assert forall|k1: int, k2: int| 0 <= k1 < k2 < self@.len() implies !(self@[k1].author
                == self@[k2].author && #[trigger] (self@[k1].log_id) == #[trigger] (
            self@[k2].log_id)) by {
                if k2 == self@.len() - 1 {
                    if self@[k1].author == recv.author && self@[k1].log_id == recv.log_id {
                        assert(has_log(s0, recv.author, recv.log_id));
                    }
                }
            }
        }
    }

    /// Appends the next operation of an existing log: its sequence number
    /// follows the log's latest and its backlink is the latest's hash.
    #[verifier::rlimit(100)]
    pub fn append_op(&mut self, k: usize, op: Operation)
        requires
            old(self).wf(),
            k < old(self)@.len(),
            op_valid(op@),
            op@.header.public_key == old(self)@[k as int].author,
            spec_extract_log_id(op@.header) == Option::Some(old(self)@[k as int].log_id),
            op@.header.seq_num == old(self)@[k as int].start_seq + old(self)@[k as int].ops.len(),
            op@.header.backlink == Option::Some(
                spec_header_id(old(self)@[k as int].ops.last().header),
            ),
        ensures
            final(self)@ =~= old(self)@.update(
                k as int,
                LogRecordV { ops: old(self)@[k as int].ops.push(op@), ..old(self)@[k as int] },
            ),
            final(self).wf(),
    {
        let ghost s0 = self@;
        let ghost opv = op@;
        let mut rec = self.logs.remove(k);
        proof {
            assert(rec@ == s0[k as int]);
        }
        let ghost ops0 = rec@.ops;
        rec.ops.push(op);
        proof {
            assert(ops_view(rec.ops@) =~= ops0.push(opv));
        }
        let ghost recv = rec@;
        self.logs.insert(k, rec);
        proof {
            let s1 = self@;
            assert forall|i: int| 0 <= i < s1.len() implies s1[i] == s0.update(
                k as int,
                recv,
            )[i] by {
                if i < k {
                    assert(self.logs@[i] == old(self).logs@[i]);
                } else if i == k {
                } else {
                    assert(self.logs@[i] == old(self).logs@[i]);
                }
            }
            assert(s1 =~= s0.update(k as int, recv));
            lemma_append_keeps_record_wf(s0[k as int], opv);
            assert(recv == LogRecordV { ops: s0[k as int].ops.push(opv), ..s0[k as int] });
            lemma_update_keeps_store_wf(s0, k as int, recv);
        }
    }

    /// Deletes all operations of log `k` with a sequence number below
    /// `from_seq`; used when an operation carries a set prune flag.
    #[verifier::rlimit(100)]
    pub fn prune_record(&mut self, k: usize, from_seq: u64)
        requires
            old(self).wf(),
            k < old(self)@.len(),
            old(self)@[k as int].start_seq <= from_seq,
            from_seq - old(self)@[k as int].start_seq < old(self)@[k as int].ops.len(),
        ensures
            final(self)@ =~= old(self)@.update(
                k as int,
                LogRecordV {
                    start_seq: from_seq,
                    ops: old(self)@[k as int].ops.skip(
                        from_seq - old(self)@[k as int].start_seq,
                    ),
                    ..old(self)@[k as int]
                },
            ),
            final(self).wf(),
    {
        let ghost s0 = self@;
        let mut rec = self.logs.remove(k);
        proof {
            assert(rec@ == s0[k as int]);
        }
        let cut = (from_seq - rec.start_seq) as usize;
        let ghost ops0 = rec@.ops;
        let mut kept: Vec<Operation> = Vec::new();
        let mut j: usize = cut;
        while j < rec.ops.len()
            invariant
                cut <= j <= rec.ops.len(),
                rec@.ops == ops0,
                ops_view(kept@) =~= ops0.subrange(cut as int, j as int),
            decreases rec.ops.len() - j,
        {
            let ghost kept0 = kept@;
            kept.push(rec.ops[j].clone());
            proof {
                assert(ops_view(kept@) =~= ops_view(kept0).push(rec.ops@[j as int]@));
                assert(ops_view(kept@) =~= ops0.subrange(cut as int, j + 1));
            }
            j += 1;
        }
        let new_rec = LogRecord {
            author: rec.author,
            log_id: rec.log_id,
            start_seq: from_seq,
            ops: kept,
        };
        proof {
            assert(new_rec@.ops =~= ops0.skip(cut as int));
        }
        let ghost recv = new_rec@;
        self.logs.insert(k, new_rec);
        proof {
            let s1 = self@;
            assert forall|i: int| 0 <= i < s1.len() implies s1[i] == s0.update(
                k as int,
                recv,
            )[i] by {
                if i != k {
                    assert(self.logs@[i] == old(self).logs@[i]);
                }
            }
            assert(s1 =~= s0.update(k as int, recv));
            lemma_prune_keeps_record_wf(s0[k as int], from_seq);
            assert(recv == LogRecordV {
                start_seq: from_seq,
                ops: s0[k as int].ops.skip(from_seq - s0[k as int].start_seq),
                ..s0[k as int]
            });
            lemma_update_keeps_store_wf(s0, k as int, recv);
        }
    }

    /// Copies, in sequence-number order, all operations of a log whose
    /// sequence number is at least `from_seq`; empty when the log is absent.
    pub fn collect_from(&self, author: &[u8], log_id: &LogId, from_seq: u64) -> (r: Vec<Operation>)
        requires
            self.wf(),
        ensures
            ops_view(r@) =~= spec_replay_tail(self@, author@, log_id@, from_seq),
    {
        let mut r: Vec<Operation> = Vec::new();
        let k = match self.find_log(author, log_id) {
            Option::None => {
                proof {
                    assert(ops_view(r@) =~= Seq::<OperationV>::empty());
                }
                return r;
            },
            Option::Some(k) => k,
        };
        let rec = &self.logs[k];
        proof {
            assert(rec@ == self@[k as int]);
            assert(record_wf(rec@));
            assert(log_ops(self@, author@, log_id@) == rec@.ops);
        }
        let cut: usize = if from_seq <= rec.start_seq {
            0
        } else if from_seq - rec.start_seq >= rec.ops.len() as u64 {
            rec.ops.len()
        } else {
            (from_seq - rec.start_seq) as usize
        };
        let mut j: usize = cut;
        while j < rec.ops.len()
            invariant
                cut <= j <= rec.ops.len(),
                rec@ == self@[k as int],
                k < self@.len(),
                ops_view(r@) =~= rec@.ops.subrange(cut as int, j as int),
            decreases rec.ops.len() - j,
        {
            let ghost r0 = r@;
            r.push(rec.ops[j].clone());
            proof {
                assert(ops_view(r@) =~= ops_view(r0).push(rec.ops@[j as int]@));
                assert(ops_view(r@) =~= rec@.ops.subrange(cut as int, j + 1));
            }
            j += 1;
        }
        proof {
            assert(ops_view(r@) =~= rec@.ops.skip(cut as int));
            assert(rec@.ops.skip(cut as int) =~= spec_replay_tail(self@, author@, log_id@, from_seq));
        }
        r
    }
}

/// Replacing one record by a well-formed record under the same author and
/// log id keeps the store well-formed.
pub proof fn lemma_update_keeps_store_wf(s: Seq<LogRecordV>, k: int, r: LogRecordV)
    requires
        store_wf(s),
        0 <= k < s.len(),
        record_wf(r),
        r.author == s[k].author,
        r.log_id == s[k].log_id,
    ensures
        store_wf(s.update(k, r)),
{
    let s1 = s.update(k, r);
    assert forall|k1: int, k2: int| 0 <= k1 < k2 < s1.len() implies !(s1[k1].author
        == s1[k2].author && #[trigger] (s1[k1].log_id) == #[trigger] (s1[k2].log_id)) by {
        assert(s1[k1].author == s[k1].author && s1[k1].log_id == s[k1].log_id);
        assert(s1[k2].author == s[k2].author && s1[k2].log_id == s[k2].log_id);
    }
}

/// Appending the next operation (correct author, log, sequence number and
/// backlink) keeps the record well-formed.
pub proof fn lemma_append_keeps_record_wf(r0: LogRecordV, op: OperationV)
    requires
        record_wf(r0),
        op_valid(op),
        op.header.public_key == r0.author,
        spec_extract_log_id(op.header) == Option::Some(r0.log_id),
        op.header.seq_num == r0.start_seq + r0.ops.len(),
        op.header.backlink == Option::Some(spec_header_id(r0.ops.last().header)),
    ensures
        record_wf(LogRecordV { ops: r0.ops.push(op), ..r0 }),
{
    let r = LogRecordV { ops: r0.ops.push(op), ..r0 };
    assert(forall|i: int| 0 <= i < r0.ops.len() ==> r.ops[i] == #[trigger] r0.ops[i]);
    assert(r.ops.last() == op);
    assert(r.ops[0] == r0.ops[0]);
}

/// Dropping a prefix of a log up to a stored sequence number keeps the
/// record well-formed.
pub proof fn lemma_prune_keeps_record_wf(r0: LogRecordV, from_seq: u64)
    requires
        record_wf(r0),
        r0.start_seq <= from_seq,
        from_seq - r0.start_seq < r0.ops.len(),
    ensures
        record_wf(
            LogRecordV { start_seq: from_seq, ops: r0.ops.skip(from_seq - r0.start_seq), ..r0 },
        ),
{
    let cut = from_seq - r0.start_seq;
    let r = LogRecordV { start_seq: from_seq, ops: r0.ops.skip(cut), ..r0 };
    assert(forall|i: int| 0 <= i < r.ops.len() ==> r.ops[i] == #[trigger] r0.ops[cut + i]);
    if r.start_seq == 0 {
        assert(r.ops[0] == r0.ops[0]);
    }
}

/// The tail of a log from a sequence number on: all operations of the log
/// with `seq_num >= from_seq`, in order; empty when the log is absent.
pub open spec fn spec_replay_tail(
    s: Seq<LogRecordV>,
    author: Seq<u8>,
    log_id: Seq<u8>,
    from_seq: u64,
) -> Seq<OperationV> {
    if has_log(s, author, log_id) {
        let rec = s[log_index_of(s, author, log_id)];
        if from_seq <= rec.start_seq {
            rec.ops
        } else if from_seq - rec.start_seq >= rec.ops.len() {
            Seq::<OperationV>::empty()
        } else {
            rec.ops.skip(from_seq - rec.start_seq)
        }
    } else {
        Seq::<OperationV>::empty()
    }
}

/// Some operation of the record carries this sequence number.
pub open spec fn seq_present(r: LogRecordV, n: u64) -> bool {
    exists|j: int| 0 <= j < r.ops.len() && (#[trigger] r.ops[j]).header.seq_num == n
}

/// Contiguity: the sequence numbers stored for any log are exactly the
/// contiguous range starting at the log's `start_seq`; for a log that was
/// never pruned (`start_seq == 0`) they are an initial segment of the
/// naturals.
pub proof fn lemma_contiguity(s: Seq<LogRecordV>, k: int)
    requires
        store_wf(s),
        0 <= k < s.len(),
    ensures
        forall|n: u64|
            #[trigger] seq_present(s[k], n) <==> s[k].start_seq <= n < s[k].start_seq
                + s[k].ops.len(),
        s[k].start_seq == 0 ==> forall|n: u64| #[trigger] seq_present(s[k], n) <==> n
            < s[k].ops.len(),
{
    assert(record_wf(s[k]));
    assert forall|n: u64|
        s[k].start_seq <= n < s[k].start_seq + s[k].ops.len() implies #[trigger] seq_present(
        s[k],
        n,
    ) by {
        let j = n - s[k].start_seq;
        assert(s[k].ops[j as int].header.seq_num == n);
    }
    assert forall|n: u64| #[trigger] seq_present(s[k], n) implies s[k].start_seq <= n
        < s[k].start_seq + s[k].ops.len() by {
        let j = choose|j: int|
            0 <= j < s[k].ops.len() && (#[trigger] s[k].ops[j]).header.seq_num == n;
        assert(s[k].ops[j].header.seq_num == s[k].start_seq + j);
    }
}

/// Linkage: every stored operation past the first of its log carries the
/// hash of its predecessor as backlink.
pub proof fn lemma_linkage(s: Seq<LogRecordV>, k: int)
    requires
        store_wf(s),
        0 <= k < s.len(),
    ensures
        forall|j: int|
            0 < j < s[k].ops.len() ==> (#[trigger] s[k].ops[j]).header.backlink == Option::Some(
                spec_header_id(s[k].ops[j - 1].header),
            ),
{
    assert(record_wf(s[k]));
}

/// Signature: every stored operation verifies under its header's public
/// key.
pub proof fn lemma_signatures(s: Seq<LogRecordV>, k: int)
    requires
        store_wf(s),
        0 <= k < s.len(),
    ensures
        forall|j: int| 0 <= j < s[k].ops.len() ==> spec_sig_ok((#[trigger] s[k].ops[j]).header),
{
    assert(record_wf(s[k]));
}


/// The latest operation of the log a forge under these extensions would
/// extend, if the extensions name a stream and that log exists.
pub open spec fn spec_forge_last(
    s: Seq<LogRecordV>,
    author: Seq<u8>,
    e: crate::extensions::ExtensionsV,
) -> Option<OperationV> {
    if e.stream_root_hash is Some && e.stream_owner is Some {
        let l = crate::extensions::spec_log_id(
            crate::extensions::spec_stream_id(e.stream_root_hash->Some_0, e.stream_owner->Some_0),
            e.log_path,
        );
        if has_log(s, author, l) && log_ops(s, author, l).len() > 0 {
            Option::Some(log_ops(s, author, l).last())
        } else {
            Option::None
        }
    } else {
        Option::None
    }
}

/// Where a forged operation lands: its sequence number and backlink, read
/// from the addressed log's latest entry. A fresh log (or extensions that
/// do not yet name a stream) starts at sequence zero with no backlink.
pub open spec fn spec_forge_position(
    s: Seq<LogRecordV>,
    author: Seq<u8>,
    e: crate::extensions::ExtensionsV,
) -> (u64, Option<Seq<u8>>) {
    match spec_forge_last(s, author, e) {
        Option::None => (0u64, Option::<Seq<u8>>::None),
        Option::Some(last) => (
            ((last.header.seq_num + 1) as u64),
            Option::Some(spec_header_id(last.header)),
        ),
    }
}

/// Reads the addressed log's latest entry to place a new operation.
#[verifier::rlimit(100)]
fn forge_position(store: &LogStore, public_key: &[u8], extensions: &crate::extensions::Extensions)
    -> (r: (u64, Option<Vec<u8>>))
    requires
        store.wf(),
        spec_forge_last(store@, public_key@, extensions@) matches Option::Some(last)
            ==> last.header.seq_num < u64::MAX,
    ensures
        (r.0, opt_bytes_view(r.1)) == spec_forge_position(store@, public_key@, extensions@),
        opt_bytes_view(r.1) matches Option::Some(b) ==> b.len() == crate::crypto::HASH_LEN,
{
    match crate::extensions::stream_from_extensions(extensions) {
        Option::Some(stream) => {
            let log_path = match &extensions.log_path {
                Option::None => Option::None,
                Option::Some(p) => Option::Some(p.clone()),
            };
            let log_id = crate::extensions::to_log_id(&stream, &log_path);
            match store.latest(public_key, &log_id) {
                Option::Some(latest) => {
                    let id = header_id(&latest.header);
                    proof {
                        assert(spec_forge_last(store@, public_key@, extensions@)
                            == Option::Some(log_ops(store@, public_key@, log_id@).last()));
                    }
                    (latest.header.seq_num + 1, Option::Some(id))
                },
                Option::None => (0, Option::None),
            }
        },
        Option::None => (0, Option::None),
    }
}

/// Forges a new operation: reads the addressed log's latest entry to place
/// the operation (sequence number and backlink), stamps it with the given
/// UNIX-seconds timestamp, and signs it. The first operation of a stream
/// leaves the stream fields absent; extraction later supplies the defaults,
/// so the first operation implicitly defines the stream.
#[verifier::rlimit(100)]
pub fn create_operation(
    store: &LogStore,
    secret: &[u8],
    extensions: crate::extensions::Extensions,
    body: Option<&[u8]>,
    timestamp: u64,
) -> (r: (crate::operation::Header, Option<Vec<u8>>))
    requires
        store.wf(),
        secret@.len() == crate::crypto::KEY_LEN,
        crate::extensions::ext_wf(extensions@),
        spec_forge_last(store@, crate::crypto::public_key_of(secret@), extensions@) matches
            Option::Some(last) ==> last.header.seq_num < u64::MAX,
    ensures
        ({
            let h = r.0@;
            let pos = spec_forge_position(
                store@,
                crate::crypto::public_key_of(secret@),
                extensions@,
            );
            &&& h.version == 1
            &&& h.public_key == crate::crypto::public_key_of(secret@)
            &&& h.timestamp == timestamp
            &&& h.seq_num == pos.0
            &&& h.backlink == pos.1
            &&& h.previous.len() == 0
            &&& h.extensions == Option::Some(extensions@)
            &&& opt_bytes_view(r.1) == (match body {
                Option::None => Option::<Seq<u8>>::None,
                Option::Some(b) => Option::Some(b@),
            })
            &&& (match body {
                Option::None => h.payload_size == 0 && h.payload_hash is None,
                Option::Some(b) => h.payload_size == b@.len() && h.payload_hash == Option::Some(
                    crate::crypto::hash_of(b@),
                ),
            })
            &&& spec_body_ok(h, opt_bytes_view(r.1))
            &&& spec_sig_ok(h)
            &&& header_wf(h)
        }),
{
    let public_key = crate::crypto::derive_public_key(secret);
    let (payload_size, payload_hash, body_vec) = forge_payload(body);
    proof {
        assert(public_key@ == crate::crypto::public_key_of(secret@));
        assert(spec_forge_last(store@, public_key@, extensions@) == spec_forge_last(
            store@,
            crate::crypto::public_key_of(secret@),
            extensions@,
        ));
    }
    let (seq_num, backlink) = forge_position(store, public_key.as_slice(), &extensions);
    let header = forge_header(
        secret,
        public_key,
        payload_size,
        payload_hash,
        timestamp,
        seq_num,
        backlink,
        extensions,
    );
    (header, body_vec)
}

/// Reads the payload fields off an optional body: its size, its hash, and a
/// copy of its bytes.
fn forge_payload(body: Option<&[u8]>) -> (r: (u64, Option<Vec<u8>>, Option<Vec<u8>>))
    ensures
        opt_bytes_view(r.2) == (match body {
            Option::None => Option::<Seq<u8>>::None,
            Option::Some(b) => Option::Some(b@),
        }),
        match body {
            Option::None => r.0 == 0 && r.1 is None,
            Option::Some(b) => r.0 == b@.len() && opt_bytes_view(r.1) == Option::Some(
                crate::crypto::hash_of(b@),
            ),
        },
        opt_bytes_view(r.1) matches Option::Some(p) ==> p.len() == crate::crypto::HASH_LEN,
{
    match body {
        Option::None => (0, Option::None, Option::None),
        Option::Some(b) => {
            let digest = crate::crypto::hash_bytes(b);
            let copy = copy_range(b, 0, b.len());
            proof {
                assert(copy@ =~= b@);
            }
            (b.len() as u64, Option::Some(digest), Option::Some(copy))
        },
    }
}

/// Builds and signs a header from its placed fields.
#[verifier::rlimit(100)]
fn forge_header(
    secret: &[u8],
    public_key: Vec<u8>,
    payload_size: u64,
    payload_hash: Option<Vec<u8>>,
    timestamp: u64,
    seq_num: u64,
    backlink: Option<Vec<u8>>,
    extensions: crate::extensions::Extensions,
) -> (r: crate::operation::Header)
    requires
        secret@.len() == crate::crypto::KEY_LEN,
        public_key@.len() == crate::crypto::KEY_LEN,
        public_key@ == crate::crypto::public_key_of(secret@),
        crate::extensions::ext_wf(extensions@),
        opt_bytes_view(payload_hash) matches Option::Some(p) ==> p.len()
            == crate::crypto::HASH_LEN,
        opt_bytes_view(backlink) matches Option::Some(b) ==> b.len() == crate::crypto::HASH_LEN,
    ensures
        r@.version == 1,
        r@.public_key == crate::crypto::public_key_of(secret@),
        r@.payload_size == payload_size,
        r@.payload_hash == opt_bytes_view(payload_hash),
        r@.timestamp == timestamp,
        r@.seq_num == seq_num,
        r@.backlink == opt_bytes_view(backlink),
        r@.previous.len() == 0,
        r@.extensions == Option::Some(extensions@),
        spec_sig_ok(r@),
        header_wf(r@),
{
    let mut header = crate::operation::Header {
        version: 1,
        public_key,
        signature: Option::None,
        payload_size,
        payload_hash,
        timestamp,
        seq_num,
        backlink,
        previous: Vec::new(),
        extensions: Option::Some(extensions),
    };
    proof {
        assert(header@.previous.len() == 0);
        assert(header_wf(header@));
    }
    crate::operation::sign_header(&mut header, secret);
    header
}


/// Forges a new operation where the addressed log can still grow: as
/// `create_operation`, but refusing (with `None`) the one case the store
/// cannot represent, a log whose latest sequence number has reached the
/// maximum.
pub fn try_create_operation(
    store: &LogStore,
    secret: &[u8],
    extensions: crate::extensions::Extensions,
    body: Option<&[u8]>,
    timestamp: u64,
) -> (r: Option<(crate::operation::Header, Option<Vec<u8>>)>)
    requires
        store.wf(),
        secret@.len() == crate::crypto::KEY_LEN,
        crate::extensions::ext_wf(extensions@),
    ensures
        r is None <==> (spec_forge_last(store@, crate::crypto::public_key_of(secret@), extensions@)
            matches Option::Some(last) && last.header.seq_num == u64::MAX),
        r matches Option::Some(x) ==> ({
            let h = x.0@;
            let pos = spec_forge_position(
                store@,
                crate::crypto::public_key_of(secret@),
                extensions@,
            );
            &&& h.version == 1
            &&& h.public_key == crate::crypto::public_key_of(secret@)
            &&& h.timestamp == timestamp
            &&& h.seq_num == pos.0
            &&& h.backlink == pos.1
            &&& h.extensions == Option::Some(extensions@)
            &&& opt_bytes_view(x.1) == (match body {
                Option::None => Option::<Seq<u8>>::None,
                Option::Some(b) => Option::Some(b@),
            })
            &&& (match body {
                Option::None => h.payload_size == 0 && h.payload_hash is None,
                Option::Some(b) => h.payload_size == b@.len() && h.payload_hash == Option::Some(
                    crate::crypto::hash_of(b@),
                ),
            })
            &&& spec_body_ok(h, opt_bytes_view(x.1))
            &&& spec_sig_ok(h)
            &&& header_wf(h)
        }),
{
    let public_key = crate::crypto::derive_public_key(secret);
    match crate::extensions::stream_from_extensions(&extensions) {
        Option::Some(stream) => {
            let log_path = match &extensions.log_path {
                Option::None => Option::None,
                Option::Some(p) => Option::Some(p.clone()),
            };
            let log_id = crate::extensions::to_log_id(&stream, &log_path);
            match store.latest(public_key.as_slice(), &log_id) {
                Option::Some(latest) => {
                    if latest.header.seq_num == u64::MAX {
                        proof {
                            assert(spec_forge_last(
                                store@,
                                crate::crypto::public_key_of(secret@),
                                extensions@,
                            ) == Option::Some(log_ops(store@, public_key@, log_id@).last()));
                        }
                        return Option::None;
                    }
                },
                Option::None => {},
            }
        },
        Option::None => {},
    }
    Option::Some(create_operation(store, secret, extensions, body, timestamp))
}

} // verus!
