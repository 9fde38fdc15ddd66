//! Topics and the topic-log routing table.
//!
//! A topic is the application-facing routing key of a gossip or sync
//! channel: messages on an ephemeral topic are never persisted, while a
//! persisted topic is backed by logs. The topic map records, per persisted
//! topic, which `(author, log id)` pairs a sync session must reconcile.

use vstd::prelude::*;

use crate::bytes::bytes_eq;
use crate::cbor::{
    lemma_head_prefix, lemma_tstr_prefix, push_head, push_tstr, spec_enc_head, spec_enc_tstr,
    spec_enc_uint, MAJOR_ARR, MAJOR_UINT,
};
use crate::crypto::{hash_bytes, hash_of, HASH_LEN};
use crate::extensions::LogId;
use crate::stream::{reqs_view, ReplayRequest, ReplayRequestV};
use vstd::string::StringSliceAdditionalSpecFns;
use vstd::string::StrSliceExecFns;

verus! {

/// Mathematical value of a topic.
pub ghost enum TopicV {
    Ephemeral(Seq<char>),
    Persisted(Seq<char>),
}

/// A topic: a named channel that is either ephemeral (live gossip only,
/// nothing persisted) or persisted (backed by logs and synchronized).
pub enum Topic {
    Ephemeral(String),
    Persisted(String),
}

impl View for Topic {
    type V = TopicV;

    open spec fn view(&self) -> TopicV {
        match self {
            Topic::Ephemeral(name) => TopicV::Ephemeral(name@),
            Topic::Persisted(name) => TopicV::Persisted(name@),
        }
    }
}

impl Clone for Topic {
    fn clone(&self) -> (r: Self)
        ensures
            r@ == self@,
    {
        match self {
            Topic::Ephemeral(name) => Topic::Ephemeral(name.clone()),
            Topic::Persisted(name) => Topic::Persisted(name.clone()),
        }
    }
}

/// The canonical encoding a topic is hashed over: a two-element array of
/// the variant tag and the UTF-8 bytes of the name.
pub open spec fn spec_encode_topic(t: TopicV) -> Seq<u8> {
    match t {
        TopicV::Ephemeral(name) => spec_enc_head(MAJOR_ARR, 2) + spec_enc_uint(0)
            + spec_enc_tstr(vstd::utf8::encode_utf8(name)),
        TopicV::Persisted(name) => spec_enc_head(MAJOR_ARR, 2) + spec_enc_uint(1)
            + spec_enc_tstr(vstd::utf8::encode_utf8(name)),
    }
}

/// The name of a topic.
pub open spec fn spec_topic_name(t: TopicV) -> Seq<char> {
    match t {
        TopicV::Ephemeral(name) => name,
        TopicV::Persisted(name) => name,
    }
}

impl Topic {
    /// The 32-byte topic id: the hash of the topic's canonical encoding. It
    /// depends on the topic value alone.
    pub fn id(&self) -> (r: Vec<u8>)
        ensures
            r@ == hash_of(spec_encode_topic(self@)),
            r@.len() == HASH_LEN,
    {
        let mut buf: Vec<u8> = Vec::new();
        push_head(&mut buf, MAJOR_ARR, 2);
        match self {
            Topic::Ephemeral(name) => {
                crate::cbor::push_uint(&mut buf, 0);
                push_tstr(&mut buf, name.as_str().as_bytes());
                assert(buf@ =~= spec_encode_topic(self@));
            },
            Topic::Persisted(name) => {
                crate::cbor::push_uint(&mut buf, 1);
                push_tstr(&mut buf, name.as_str().as_bytes());
                assert(buf@ =~= spec_encode_topic(self@));
            },
        }
        hash_bytes(buf.as_slice())
    }

    /// Compares two topics structurally: same variant, same name.
    pub fn matches(&self, other: &Topic) -> (r: bool)
        ensures
            r == (self@ == other@),
    {
        match (self, other) {
            (Topic::Ephemeral(a), Topic::Ephemeral(b)) => {
                let r = crate::bytes::bytes_eq(a.as_str().as_bytes(), b.as_str().as_bytes());
                proof {
                    vstd::utf8::encode_utf8_decode_utf8(a@);
                    vstd::utf8::encode_utf8_decode_utf8(b@);
                }
                r
            },
            (Topic::Persisted(a), Topic::Persisted(b)) => {
                let r = crate::bytes::bytes_eq(a.as_str().as_bytes(), b.as_str().as_bytes());
                proof {
                    vstd::utf8::encode_utf8_decode_utf8(a@);
                    vstd::utf8::encode_utf8_decode_utf8(b@);
                }
                r
            },
            _ => false,
        }
    }
}

/// Topic id stability: structurally equal topics have equal ids, and the
/// canonical encodings of distinct topics differ. Distinct topics can thus
/// share an id only through a collision of the content hash.
pub proof fn lemma_topic_id_stable(t1: TopicV, t2: TopicV)
    requires
        vstd::utf8::encode_utf8(spec_topic_name(t1)).len() <= u64::MAX,
        vstd::utf8::encode_utf8(spec_topic_name(t2)).len() <= u64::MAX,
    ensures
        t1 == t2 ==> hash_of(spec_encode_topic(t1)) == hash_of(spec_encode_topic(t2)),
        spec_encode_topic(t1) == spec_encode_topic(t2) ==> t1 == t2,
        t1 != t2 ==> spec_encode_topic(t1) != spec_encode_topic(t2),
{
    if spec_encode_topic(t1) == spec_encode_topic(t2) {
        let e1 = spec_encode_topic(t1);
        let e2 = spec_encode_topic(t2);
        let tag1: u64 = if t1 is Ephemeral {
            0
        } else {
            1
        };
        let tag2: u64 = if t2 is Ephemeral {
            0
        } else {
            1
        };
        let b1 = vstd::utf8::encode_utf8(spec_topic_name(t1));
        let b2 = vstd::utf8::encode_utf8(spec_topic_name(t2));
        assert(e1 =~= spec_enc_head(MAJOR_ARR, 2) + (spec_enc_uint(tag1) + spec_enc_tstr(b1)));
        assert(e2 =~= spec_enc_head(MAJOR_ARR, 2) + (spec_enc_uint(tag2) + spec_enc_tstr(b2)));
        lemma_head_prefix(
            MAJOR_ARR,
            2,
            2,
            spec_enc_uint(tag1) + spec_enc_tstr(b1),
            spec_enc_uint(tag2) + spec_enc_tstr(b2),
        );
        assert(spec_enc_head(MAJOR_UINT, tag1) + spec_enc_tstr(b1) == spec_enc_head(
            MAJOR_UINT,
            tag2,
        ) + spec_enc_tstr(b2));
        lemma_head_prefix(MAJOR_UINT, tag1, tag2, spec_enc_tstr(b1), spec_enc_tstr(b2));
        lemma_tstr_prefix(b1, b2, Seq::<u8>::empty(), Seq::<u8>::empty());
        vstd::utf8::encode_utf8_decode_utf8(spec_topic_name(t1));
        vstd::utf8::encode_utf8_decode_utf8(spec_topic_name(t2));
        assert(spec_topic_name(t1) == spec_topic_name(t2));
    }
}

/// Mathematical value of one topic map entry.
pub ghost struct TopicMapEntryV {
    pub topic: TopicV,
    pub logs: Seq<ReplayRequestV>,
}

/// One topic's routing entry: the authors and, per author, the log ids a
/// sync session for this topic reconciles.
pub struct TopicMapEntry {
    pub topic: Topic,
    pub logs: Vec<ReplayRequest>,
}

impl View for TopicMapEntry {
    type V = TopicMapEntryV;

    open spec fn view(&self) -> TopicMapEntryV {
        TopicMapEntryV { topic: self.topic@, logs: reqs_view(self.logs@) }
    }
}

/// The routing table from topics to the logs they cover.
pub struct TopicMap {
    pub entries: Vec<TopicMapEntry>,
}

impl View for TopicMap {
    type V = Seq<TopicMapEntryV>;

    open spec fn view(&self) -> Seq<TopicMapEntryV> {
        Seq::new(self.entries@.len(), |i: int| self.entries@[i]@)
    }
}

/// The topic map records this log under this topic and author.
pub open spec fn spec_topic_has_log(
    m: Seq<TopicMapEntryV>,
    topic: TopicV,
    author: Seq<u8>,
    log_id: Seq<u8>,
) -> bool {
    exists|i: int, j: int, k: int|
        0 <= i < m.len() && 0 <= j < m[i].logs.len() && 0 <= k < m[i].logs[j].log_ids.len()
            && m[i].topic == topic && m[i].logs[j].author == author && #[trigger] (
        m[i].logs[j].log_ids[k]) == log_id
}

/// Uniqueness invariant of the topic map: one entry per topic, one row per
/// author within an entry, no duplicate log id within a row.
pub open spec fn topic_map_wf(m: Seq<TopicMapEntryV>) -> bool {
    &&& (forall|i1: int, i2: int|
        0 <= i1 < i2 < m.len() ==> (#[trigger] m[i1].topic) != (#[trigger] m[i2].topic))
    &&& (forall|i: int, j1: int, j2: int|
        0 <= i < m.len() && 0 <= j1 < j2 < m[i].logs.len() ==> (#[trigger] m[i].logs[j1].author)
            != (#[trigger] m[i].logs[j2].author))
    &&& (forall|i: int, j: int, k1: int, k2: int|
        0 <= i < m.len() && 0 <= j < m[i].logs.len() && 0 <= k1 < k2 < m[i].logs[j].log_ids.len()
            ==> (#[trigger] m[i].logs[j].log_ids[k1]) != (#[trigger] m[i].logs[j].log_ids[k2]))
}

impl TopicMap {
    /// The topic map's invariant.
    pub open spec fn wf(&self) -> bool {
        topic_map_wf(self@)
    }

    /// An empty routing table.
    pub fn new() -> (r: Self)
        ensures
            r.wf(),
            r@ =~= Seq::<TopicMapEntryV>::empty(),
    {
        let r = TopicMap { entries: Vec::new() };
        proof {
            assert(r@ =~= Seq::<TopicMapEntryV>::empty());
        }
        r
    }

    /// The logs to reconcile for a topic: the empty set for an ephemeral
    /// topic — ephemeral topics are never synchronized — and the recorded
    /// snapshot for a persisted one.
    pub fn get(&self, topic: &Topic) -> (r: Option<Vec<ReplayRequest>>)
        requires
            self.wf(),
        ensures
            topic@ is Ephemeral ==> (r matches Option::Some(v) && v@.len() == 0),
            topic@ is Persisted ==> match r {
                Option::Some(v) => exists|i: int|
                    0 <= i < self@.len() && (#[trigger] self@[i]).topic == topic@ && reqs_view(v@)
                        =~= self@[i].logs,
                Option::None => forall|i: int|
                    0 <= i < self@.len() ==> (#[trigger] self@[i]).topic != topic@,
            },
    {
        match topic {
            Topic::Ephemeral(_) => {
                let v: Vec<ReplayRequest> = Vec::new();
                assert(topic@ is Ephemeral);
                assert(v@.len() == 0);
                Option::Some(v)
            },
            Topic::Persisted(_) => {
                assert(topic@ is Persisted);
                let mut i: usize = 0;
                while i < self.entries.len()
                    invariant
                        topic@ is Persisted,
                        i <= self.entries.len(),
                        self@.len() == self.entries.len(),
                        forall|i2: int| 0 <= i2 < i ==> (#[trigger] self@[i2]).topic != topic@,
                    decreases self.entries.len() - i,
                {
                    proof {
                        assert(self.entries@[i as int]@ == self@[i as int]);
                    }
                    if self.entries[i].topic.matches(topic) {
                        let v = clone_requests(&self.entries[i].logs);
                        proof {
                            assert(0 <= i < self@.len() && self@[i as int].topic == topic@
                                && reqs_view(v@) =~= self@[i as int].logs);
                        }
                        return Option::Some(v);
                    }
                    i += 1;
                }
                Option::None
            },
        }
    }

    /// Records a log under a topic and author: creates the entry or row as
    /// needed, appends the log id when it is new, and changes nothing when
    /// the pair already records it.
    #[verifier::rlimit(100)]
    pub fn add_log(&mut self, topic: &Topic, public_key: &[u8], log_id: &LogId)
        requires
            old(self).wf(),
        ensures
            final(self).wf(),
            final(self)@ =~= spec_add_log(old(self)@, topic@, public_key@, log_id@),
    {
        let ghost m0 = self@;
        let found = self.find_topic(topic);
        match found {
            Option::None => {
                let mut log_ids: Vec<LogId> = Vec::new();
                log_ids.push(log_id.clone());
                let row = ReplayRequest {
                    author: crate::bytes::copy_range(public_key, 0, public_key.len()),
                    log_ids,
                };
                proof {
                    assert(public_key@.subrange(0, public_key@.len() as int) =~= public_key@);
                    assert(row@.author == public_key@);
                    assert(row@.log_ids =~= seq![log_id@]);
                }
                let mut logs: Vec<ReplayRequest> = Vec::new();
                logs.push(row);
                let entry = TopicMapEntry { topic: topic.clone(), logs };
                proof {
                    assert(entry@.logs =~= seq![
                        ReplayRequestV { author: public_key@, log_ids: seq![log_id@] },
                    ]);
                }
                let ghost ev = entry@;
                self.entries.push(entry);
                proof {
                    assert(self@ =~= m0.push(ev));
                    assert(self@ =~= spec_add_log(m0, topic@, public_key@, log_id@));
                    assert forall|i1: int, i2: int| 0 <= i1 < i2 < self@.len() implies (
                    #[trigger] self@[i1].topic) != (#[trigger] self@[i2].topic) by {
                        if i2 == self@.len() - 1 {
                            assert(self@[i1] == m0[i1]);
                            if self@[i1].topic == topic@ {
                                assert(has_topic(m0, topic@));
                            }
                        } else {
                            assert(self@[i1] == m0[i1] && self@[i2] == m0[i2]);
                        }
                    }
                    assert(topic_map_wf(self@)) by {
                        assert(forall|i: int|
                            0 <= i < m0.len() ==> #[trigger] self@[i] == m0[i]);
                        assert(self@[self@.len() - 1] == ev);
                    }
                }
            },
            Option::Some(i) => {
                let mut entry = self.entries.remove(i);
                proof {
                    assert(entry@ == m0[i as int]);
                }
                let ghost logs0 = entry@.logs;
                self.add_to_entry(&mut entry, public_key, log_id);
                let ghost ev = entry@;
                self.entries.insert(i, entry);
                proof {
                    assert forall|x: int| 0 <= x < self@.len() implies self@[x] == m0.update(
                        i as int,
                        ev,
                    )[x] by {
                        if x != i {
                            assert(self.entries@[x] == old(self).entries@[x]);
                        }
                    }
                    assert(self@ =~= m0.update(i as int, ev));
                    assert(spec_add_log(m0, topic@, public_key@, log_id@) =~= self@);
                    lemma_topic_index_unique(m0, i as int);
                    assert forall|i1: int, i2: int| 0 <= i1 < i2 < self@.len() implies (
                    #[trigger] self@[i1].topic) != (#[trigger] self@[i2].topic) by {
                        assert(self@[i1].topic == m0[i1].topic);
                        assert(self@[i2].topic == m0[i2].topic);
                    }
                }
            },
        }
    }

    /// Finds the entry of a topic.
    fn find_topic(&self, topic: &Topic) -> (r: Option<usize>)
        requires
            self.wf(),
        ensures
            r is Some <==> has_topic(self@, topic@),
            r matches Option::Some(i) ==> {
                &&& i < self@.len()
                &&& self@[i as int].topic == topic@
                &&& i as int == topic_index_of(self@, topic@)
            },
    {
        let mut i: usize = 0;
        while i < self.entries.len()
            invariant
                self.wf(),
                i <= self.entries.len(),
                self@.len() == self.entries.len(),
                forall|i2: int| 0 <= i2 < i ==> (#[trigger] self@[i2].topic) != topic@,
            decreases self.entries.len() - i,
        {
            proof {
                assert(self.entries@[i as int]@ == self@[i as int]);
            }
            if self.entries[i].topic.matches(topic) {
                proof {
                    lemma_topic_index_unique(self@, i as int);
                }
                return Option::Some(i);
            }
            i += 1;
        }
        proof {
            if has_topic(self@, topic@) {
                let w = topic_index_of(self@, topic@);
                assert(self@[w].topic != topic@);
            }
        }
        Option::None
    }

    /// Records the log under the author inside one entry.
    #[verifier::rlimit(100)]
    fn add_to_entry(&self, entry: &mut TopicMapEntry, public_key: &[u8], log_id: &LogId)
        requires
            forall|j1: int, j2: int|
                0 <= j1 < j2 < old(entry)@.logs.len() ==> (#[trigger] old(entry)@.logs[j1].author) != (#[trigger] old(entry)@.logs[j2].author),
            forall|j: int, k1: int, k2: int|
                0 <= j < old(entry)@.logs.len() && 0 <= k1 < k2 < old(entry)@.logs[j].log_ids.len() ==> (#[trigger] old(entry)@.logs[j].log_ids[k1]) != (
                #[trigger] old(entry)@.logs[j].log_ids[k2]),
        ensures
            final(entry)@.topic == old(entry)@.topic,
            final(entry)@.logs =~= (if !has_author_row(old(entry)@.logs, public_key@) {
                old(entry)@.logs.push(
                    ReplayRequestV { author: public_key@, log_ids: seq![log_id@] },
                )
            } else {
                let j = author_index_of(old(entry)@.logs, public_key@);
                if row_has_log(old(entry)@.logs[j], log_id@) {
                    old(entry)@.logs
                } else {
                    old(entry)@.logs.update(
                        j,
                        ReplayRequestV {
                            author: public_key@,
                            log_ids: old(entry)@.logs[j].log_ids.push(log_id@),
                        },
                    )
                }
            }),
            forall|j1: int, j2: int|
                0 <= j1 < j2 < final(entry)@.logs.len() ==> (#[trigger] final(entry)@.logs[j1].author) != (#[trigger] final(entry)@.logs[j2].author),
            forall|j: int, k1: int, k2: int|
                0 <= j < final(entry)@.logs.len() && 0 <= k1 < k2 < final(entry)@.logs[j].log_ids.len() ==> (#[trigger] final(entry)@.logs[j].log_ids[k1]) != (
                #[trigger] final(entry)@.logs[j].log_ids[k2]),
    {
        let ghost logs0 = entry@.logs;
        let mut j: usize = 0;
        while j < entry.logs.len()
            invariant
                entry@.logs == logs0,
                entry@ == old(entry)@,
                j <= entry.logs.len(),
                logs0.len() == entry.logs.len(),
                forall|j2: int| 0 <= j2 < j ==> (#[trigger] logs0[j2].author) != public_key@,
                forall|j1: int, j2: int|
                    0 <= j1 < j2 < logs0.len() ==> (#[trigger] logs0[j1].author) != (
                    #[trigger] logs0[j2].author),
                forall|j3: int, k1: int, k2: int|
                    0 <= j3 < logs0.len() && 0 <= k1 < k2 < logs0[j3].log_ids.len() ==> (
                    #[trigger] logs0[j3].log_ids[k1]) != (#[trigger] logs0[j3].log_ids[k2]),
            decreases entry.logs.len() - j,
        {
            proof {
                assert(entry.logs@[j as int]@ == logs0[j as int]);
            }
            if crate::bytes::bytes_eq(entry.logs[j].author.as_slice(), public_key) {
                proof {
                    assert(logs0[j as int].author == public_key@);
                    assert(has_author_row(logs0, public_key@));
                    let j2 = author_index_of(logs0, public_key@);
                    if j2 != j {
                        if j2 < j {
                            assert(logs0[j2].author != logs0[j as int].author);
                        } else {
                            assert(logs0[j as int].author != logs0[j2].author);
                        }
                    }
                    assert(author_index_of(logs0, public_key@) == j);
                }
                let ghost pre = entry.logs@;
                let mut row = entry.logs.remove(j);
                let ghost lr = entry.logs@;
                proof {
                    assert(row@ == logs0[j as int]);
                    assert(lr == pre.remove(j as int));
                }
                let ghost ids0 = row@.log_ids;
                let present = row_contains(&row, log_id);
                if !present {
                    row.log_ids.push(log_id.clone());
                    proof {
                        assert(row@.log_ids =~= ids0.push(log_id@));
                        assert(row@.author == logs0[j as int].author);
                    }
                } else {
                    proof {
                        assert(row_has_log(logs0[j as int], log_id@));
                        assert(row@.log_ids =~= ids0);
                        assert(row@.author == logs0[j as int].author);
                        assert(row@ == logs0[j as int]);
                    }
                }
                let ghost rv = row@;
                entry.logs.insert(j, row);
                proof {
                    assert forall|x: int| 0 <= x < entry@.logs.len() implies entry@.logs[x]
                        == logs0.update(j as int, rv)[x] by {
                        if x < j {
                            assert(entry.logs@[x] == lr[x]);
                            assert(lr[x] == pre[x]);
                        } else if x > j {
                            assert(entry.logs@[x] == lr[x - 1]);
                            assert(lr[x - 1] == pre[x]);
                        }
                    }
                    assert(entry@.logs =~= logs0.update(j as int, rv));
                    if present {
                        assert(entry@.logs =~= logs0);
                    } else {
                        assert(rv == ReplayRequestV {
                            author: public_key@,
                            log_ids: logs0[j as int].log_ids.push(log_id@),
                        });
                    }
                    let cur = entry@.logs;
                    assert forall|j3: int, k1: int, k2: int|
                        0 <= j3 < cur.len() && 0 <= k1 < k2 < cur[j3].log_ids.len() implies (
                        #[trigger] cur[j3].log_ids[k1]) != (#[trigger] cur[j3].log_ids[k2]) by {
                        if j3 != j {
                            assert(cur[j3] == logs0[j3]);
                        } else {
                            if !present {
                                assert(cur[j3].log_ids == ids0.push(log_id@));
                                if k2 == ids0.len() {
                                    assert(cur[j3].log_ids[k1] == ids0[k1]);
                                    assert(!row_has_log(logs0[j as int], log_id@));
                                    if ids0[k1] == log_id@ {
                                        assert(row_has_log(logs0[j as int], log_id@));
                                    }
                                } else {
                                    assert(cur[j3].log_ids[k1] == ids0[k1]);
                                    assert(cur[j3].log_ids[k2] == ids0[k2]);
                                }
                            } else {
                                assert(cur[j3] == logs0[j3]);
                            }
                        }
                    }
                }
                return ;
            }
            j += 1;
        }
        proof {
            if has_author_row(logs0, public_key@) {
                let w = author_index_of(logs0, public_key@);
                assert(logs0[w].author != public_key@);
            }
        }
        let mut log_ids: Vec<LogId> = Vec::new();
        log_ids.push(log_id.clone());
        let row = ReplayRequest {
            author: crate::bytes::copy_range(public_key, 0, public_key.len()),
            log_ids,
        };
        proof {
            assert(public_key@.subrange(0, public_key@.len() as int) =~= public_key@);
            assert(row@.author == public_key@);
            assert(row@.log_ids =~= seq![log_id@]);
        }
        let ghost rv = row@;
        entry.logs.push(row);
        proof {
            assert(entry@.logs =~= logs0.push(rv));
        }
    }
}

/// A row already records this log id.
fn row_contains(row: &ReplayRequest, log_id: &LogId) -> (r: bool)
    ensures
        r == row_has_log(row@, log_id@),
{
    let ghost ids = row@.log_ids;
    let mut k: usize = 0;
    while k < row.log_ids.len()
        invariant
            row@.log_ids == ids,
            k <= row.log_ids.len(),
            ids.len() == row.log_ids.len(),
            forall|k2: int| 0 <= k2 < k ==> (#[trigger] ids[k2]) != log_id@,
        decreases row.log_ids.len() - k,
    {
        proof {
            assert(row.log_ids@[k as int]@ == ids[k as int]);
        }
        if row.log_ids[k].matches(log_id) {
            assert(ids[k as int] == log_id@);
            return true;
        }
        k += 1;
    }
    proof {
        if row_has_log(row@, log_id@) {
            let w = choose|k2: int| 0 <= k2 < ids.len() && (#[trigger] ids[k2]) == log_id@;
            assert(ids[w] != log_id@);
        }
    }
    false
}

/// A topic has an entry.
pub open spec fn has_topic(m: Seq<TopicMapEntryV>, t: TopicV) -> bool {
    exists|i: int| 0 <= i < m.len() && (#[trigger] m[i].topic) == t
}

/// The index of a topic's entry.
pub open spec fn topic_index_of(m: Seq<TopicMapEntryV>, t: TopicV) -> int {
    choose|i: int| 0 <= i < m.len() && (#[trigger] m[i].topic) == t
}

/// An author has a row in an entry's logs.
pub open spec fn has_author_row(logs: Seq<ReplayRequestV>, a: Seq<u8>) -> bool {
    exists|j: int| 0 <= j < logs.len() && (#[trigger] logs[j].author) == a
}

/// The index of an author's row.
pub open spec fn author_index_of(logs: Seq<ReplayRequestV>, a: Seq<u8>) -> int {
    choose|j: int| 0 <= j < logs.len() && (#[trigger] logs[j].author) == a
}

/// A row holds this log id.
pub open spec fn row_has_log(row: ReplayRequestV, l: Seq<u8>) -> bool {
    exists|k: int| 0 <= k < row.log_ids.len() && (#[trigger] row.log_ids[k]) == l
}

/// The topic map after recording one log under a topic and author: a new
/// entry for a new topic, a new row for a new author, the log id appended
/// to an existing row, or nothing when the log id is already recorded.
pub open spec fn spec_add_log(
    m: Seq<TopicMapEntryV>,
    t: TopicV,
    a: Seq<u8>,
    l: Seq<u8>,
) -> Seq<TopicMapEntryV> {
    if !has_topic(m, t) {
        m.push(
            TopicMapEntryV { topic: t, logs: seq![ReplayRequestV { author: a, log_ids: seq![l] }] },
        )
    } else {
        let i = topic_index_of(m, t);
        let logs = m[i].logs;
        if !has_author_row(logs, a) {
            m.update(
                i,
                TopicMapEntryV {
                    topic: t,
                    logs: logs.push(ReplayRequestV { author: a, log_ids: seq![l] }),
                },
            )
        } else {
            let j = author_index_of(logs, a);
            if row_has_log(logs[j], l) {
                m
            } else {
                m.update(
                    i,
                    TopicMapEntryV {
                        topic: t,
                        logs: logs.update(
                            j,
                            ReplayRequestV { author: a, log_ids: logs[j].log_ids.push(l) },
                        ),
                    },
                )
            }
        }
    }
}

/// In a well-formed topic map the entry of a topic is unique.
pub proof fn lemma_topic_index_unique(m: Seq<TopicMapEntryV>, i: int)
    requires
        topic_map_wf(m),
        0 <= i < m.len(),
    ensures
        has_topic(m, m[i].topic),
        topic_index_of(m, m[i].topic) == i,
{
    assert(has_topic(m, m[i].topic));
    let i2 = topic_index_of(m, m[i].topic);
    if i2 != i {
        if i2 < i {
            assert(m[i2].topic != m[i].topic);
        } else {
            assert(m[i].topic != m[i2].topic);
        }
    }
}

/// Copies a list of replay requests.
fn clone_requests(v: &Vec<ReplayRequest>) -> (r: Vec<ReplayRequest>)
    ensures
        reqs_view(r@) =~= reqs_view(v@),
{
    let mut r: Vec<ReplayRequest> = Vec::new();
    let mut i: usize = 0;
    while i < v.len()
        invariant
            i <= v.len(),
            reqs_view(r@) =~= reqs_view(v@).subrange(0, i as int),
        decreases v.len() - i,
    {
        let x = clone_request(&v[i]);
        let ghost r0 = r@;
        r.push(x);
        proof {
            assert(reqs_view(r0).len() == r0.len());
            assert(r0.len() == i);
            assert(r@ == r0.push(x));
            assert forall|y: int| 0 <= y < i + 1 implies reqs_view(r@)[y] == reqs_view(
                v@,
            ).subrange(0, i + 1)[y] by {
                if y < i {
                    assert(r@[y] == r0[y]);
                    assert(reqs_view(r0)[y] == reqs_view(v@).subrange(0, i as int)[y]);
                } else {
                    assert(r@[y] == x);
                    assert(x@ == v@[i as int]@);
                }
            }
            assert(reqs_view(r@) =~= reqs_view(v@).subrange(0, i + 1));
        }
        i += 1;
    }
    proof {
        assert(reqs_view(v@).subrange(0, v@.len() as int) =~= reqs_view(v@));
    }
    r
}

/// Copies one replay request.
fn clone_request(v: &ReplayRequest) -> (r: ReplayRequest)
    ensures
        r@ == v@,
{
    let mut log_ids: Vec<LogId> = Vec::new();
    let mut i: usize = 0;
    while i < v.log_ids.len()
        invariant
            i <= v.log_ids.len(),
            log_ids@.len() == i,
            forall|j: int| 0 <= j < i ==> (#[trigger] log_ids@[j])@ == v.log_ids@[j]@,
        decreases v.log_ids.len() - i,
    {
        log_ids.push(v.log_ids[i].clone());
        i += 1;
    }
    let r = ReplayRequest {
        author: crate::bytes::copy_range(v.author.as_slice(), 0, v.author.len()),
        log_ids,
    };
    proof {
        assert(r@.author =~= v@.author);
        assert(r@.log_ids =~= v@.log_ids);
    }
    r
}

} // verus!
