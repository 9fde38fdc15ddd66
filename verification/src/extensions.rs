//! Header extensions: the typed fields that place an operation inside a
//! stream and a log.
//!
//! A stream is a collection of logs owned by one public key and rooted at
//! the hash of its first operation. A log id combines the stream identifier
//! with an application-chosen log path; logs are single-writer, so
//! `(author, log id)` addresses a linear log.

use vstd::prelude::*;

use crate::bytes::bytes_eq;
use crate::crypto::{hash_of, hash_bytes, HASH_LEN, KEY_LEN};
use crate::hexfmt::{hex_encode_into, spec_hex};
use vstd::string::StringSliceAdditionalSpecFns;
use vstd::string::StrSliceExecFns;

verus! {

/// The operation hash of the first operation in a stream.
pub struct StreamRootHash {
    pub bytes: Vec<u8>,
}

impl View for StreamRootHash {
    type V = Seq<u8>;

    open spec fn view(&self) -> Seq<u8> {
        self.bytes@
    }
}

impl StreamRootHash {
    /// A root hash is a 32-byte content hash.
    pub open spec fn wf(&self) -> bool {
        self@.len() == HASH_LEN
    }
}

impl Clone for StreamRootHash {
    fn clone(&self) -> (r: Self)
        ensures
            r@ == self@,
    {
        StreamRootHash { bytes: crate::bytes::copy_range(self.bytes.as_slice(), 0, self.bytes.len()) }
    }
}

/// The public key of the stream owner.
pub struct StreamOwner {
    pub bytes: Vec<u8>,
}

impl View for StreamOwner {
    type V = Seq<u8>;

    open spec fn view(&self) -> Seq<u8> {
        self.bytes@
    }
}

impl StreamOwner {
    /// An owner is a 32-byte Ed25519 public key.
    pub open spec fn wf(&self) -> bool {
        self@.len() == KEY_LEN
    }
}

impl Clone for StreamOwner {
    fn clone(&self) -> (r: Self)
        ensures
            r@ == self@,
    {
        StreamOwner { bytes: crate::bytes::copy_range(self.bytes.as_slice(), 0, self.bytes.len()) }
    }
}

/// An application-chosen path that namespaces logs within a stream, carried
/// as its UTF-8 bytes.
pub struct LogPath {
    pub bytes: Vec<u8>,
}

impl View for LogPath {
    type V = Seq<u8>;

    open spec fn view(&self) -> Seq<u8> {
        self.bytes@
    }
}

impl Clone for LogPath {
    fn clone(&self) -> (r: Self)
        ensures
            r@ == self@,
    {
        LogPath { bytes: crate::bytes::copy_range(self.bytes.as_slice(), 0, self.bytes.len()) }
    }
}

impl LogPath {
    /// Builds a log path from a string.
    pub fn from_str(s: &str) -> (r: Self)
        ensures
            r@ == s.spec_bytes(),
    {
        LogPath { bytes: s.as_bytes_vec() }
    }
}

/// Mathematical value of an extensions record.
pub ghost struct ExtensionsV {
    pub stream_root_hash: Option<Seq<u8>>,
    pub stream_owner: Option<Seq<u8>>,
    pub log_path: Option<Seq<u8>>,
    pub prune_flag: bool,
}

/// The extensions record of a header: an optional stream root hash and
/// owner (absent on the first operation of a stream), an optional log path,
/// and a prune flag.
pub struct Extensions {
    pub stream_root_hash: Option<StreamRootHash>,
    pub stream_owner: Option<StreamOwner>,
    pub log_path: Option<LogPath>,
    pub prune_flag: bool,
}

impl View for Extensions {
    type V = ExtensionsV;

    open spec fn view(&self) -> ExtensionsV {
        ExtensionsV {
            stream_root_hash: match self.stream_root_hash {
                Option::None => Option::None,
                Option::Some(h) => Option::Some(h@),
            },
            stream_owner: match self.stream_owner {
                Option::None => Option::None,
                Option::Some(o) => Option::Some(o@),
            },
            log_path: match self.log_path {
                Option::None => Option::None,
                Option::Some(p) => Option::Some(p@),
            },
            prune_flag: self.prune_flag,
        }
    }
}

/// Well-formedness of an extensions value: hashes and keys have their fixed
/// lengths and the log path fits the wire format.
pub open spec fn ext_wf(e: ExtensionsV) -> bool {
    &&& (e.stream_root_hash matches Option::Some(h) ==> h.len() == HASH_LEN)
    &&& (e.stream_owner matches Option::Some(o) ==> o.len() == KEY_LEN)
    &&& (e.log_path matches Option::Some(p) ==> p.len() <= u64::MAX)
}

impl Clone for Extensions {
    fn clone(&self) -> (r: Self)
        ensures
            r@ == self@,
    {
        Extensions {
            stream_root_hash: match &self.stream_root_hash {
                Option::None => Option::None,
                Option::Some(h) => Option::Some(h.clone()),
            },
            stream_owner: match &self.stream_owner {
                Option::None => Option::None,
                Option::Some(o) => Option::Some(o.clone()),
            },
            log_path: match &self.log_path {
                Option::None => Option::None,
                Option::Some(p) => Option::Some(p.clone()),
            },
            prune_flag: self.prune_flag,
        }
    }
}

impl Extensions {
    /// An empty extensions record: nothing set, prune flag clear.
    pub fn empty() -> (r: Self)
        ensures
            r@ == (ExtensionsV {
                stream_root_hash: Option::None,
                stream_owner: Option::None,
                log_path: Option::None,
                prune_flag: false,
            }),
    {
        Extensions {
            stream_root_hash: Option::None,
            stream_owner: Option::None,
            log_path: Option::None,
            prune_flag: false,
        }
    }
}

/// A stream: the root hash of its first operation and the owning public
/// key.
pub struct Stream {
    pub root_hash: StreamRootHash,
    pub owner: StreamOwner,
}

/// The stream identifier: the hash over the concatenation of the stream's
/// root hash and owner key.
pub open spec fn spec_stream_id(root_hash: Seq<u8>, owner: Seq<u8>) -> Seq<u8> {
    hash_of(root_hash + owner)
}

impl Stream {
    pub open spec fn wf(&self) -> bool {
        self.root_hash.wf() && self.owner.wf()
    }

    /// Computes the stream identifier.
    pub fn id(&self) -> (r: Vec<u8>)
        ensures
            r@ == spec_stream_id(self.root_hash@, self.owner@),
            r@.len() == HASH_LEN,
    {
        let mut buf: Vec<u8> = Vec::new();
        crate::cbor::push_bytes(&mut buf, self.root_hash.bytes.as_slice());
        crate::cbor::push_bytes(&mut buf, self.owner.bytes.as_slice());
        assert(buf@ =~= self.root_hash@ + self.owner@);
        hash_bytes(buf.as_slice())
    }
}

impl Clone for Stream {
    fn clone(&self) -> (r: Self)
        ensures
            r.root_hash@ == self.root_hash@,
            r.owner@ == self.owner@,
    {
        Stream { root_hash: self.root_hash.clone(), owner: self.owner.clone() }
    }
}

/// Reads a stream out of an extensions record; fails exactly when the root
/// hash or the owner is absent.
pub fn stream_from_extensions(e: &Extensions) -> (r: Option<Stream>)
    ensures
        r is Some <==> (e@.stream_root_hash is Some && e@.stream_owner is Some),
        r matches Option::Some(s) ==> {
            &&& Option::Some(s.root_hash@) == e@.stream_root_hash
            &&& Option::Some(s.owner@) == e@.stream_owner
        },
{
    match (&e.stream_root_hash, &e.stream_owner) {
        (Option::Some(root_hash), Option::Some(owner)) => Option::Some(
            Stream { root_hash: root_hash.clone(), owner: owner.clone() },
        ),
        _ => Option::None,
    }
}

/// The addressing key of a log: the hexadecimal stream identifier, a
/// separating slash, and the log path (empty when absent).
pub struct LogId {
    pub bytes: Vec<u8>,
}

impl View for LogId {
    type V = Seq<u8>;

    open spec fn view(&self) -> Seq<u8> {
        self.bytes@
    }
}

impl Clone for LogId {
    fn clone(&self) -> (r: Self)
        ensures
            r@ == self@,
    {
        LogId { bytes: crate::bytes::copy_range(self.bytes.as_slice(), 0, self.bytes.len()) }
    }
}

impl LogId {
    /// Compares two log ids by content.
    pub fn matches(&self, other: &LogId) -> (r: bool)
        ensures
            r == (self@ == other@),
    {
        bytes_eq(self.bytes.as_slice(), other.bytes.as_slice())
    }
}

/// The log id denoted by a stream id and an optional log path.
pub open spec fn spec_log_id(stream_id: Seq<u8>, log_path: Option<Seq<u8>>) -> Seq<u8> {
    spec_hex(stream_id) + seq![47u8] + match log_path {
        Option::None => Seq::<u8>::empty(),
        Option::Some(p) => p,
    }
}

/// Formats the log id of a stream and an optional log path.
pub fn to_log_id(stream: &Stream, log_path: &Option<LogPath>) -> (r: LogId)
    ensures
        r@ == spec_log_id(
            spec_stream_id(stream.root_hash@, stream.owner@),
            match log_path {
                Option::None => Option::<Seq<u8>>::None,
                Option::Some(p) => Option::Some(p@),
            },
        ),
{
    let stream_id = stream.id();
    let mut out: Vec<u8> = Vec::new();
    hex_encode_into(&mut out, stream_id.as_slice());
    out.push(47);
    match log_path {
        Option::None => {
            assert(out@ =~= spec_hex(stream_id@) + seq![47u8] + Seq::<u8>::empty());
        },
        Option::Some(p) => {
            crate::cbor::push_bytes(&mut out, p.bytes.as_slice());
            assert(out@ =~= spec_hex(stream_id@) + seq![47u8] + p@);
        },
    }
    LogId { bytes: out }
}

/// Reads a log id out of an extensions record; fails exactly when no stream
/// can be read (missing root hash or owner).
pub fn log_id_from_extensions(e: &Extensions) -> (r: Option<LogId>)
    ensures
        r is Some <==> (e@.stream_root_hash is Some && e@.stream_owner is Some),
        r matches Option::Some(l) ==> l@ == spec_log_id(
            spec_stream_id(e@.stream_root_hash->Some_0, e@.stream_owner->Some_0),
            e@.log_path,
        ),
{
    match stream_from_extensions(e) {
        Option::Some(stream) => {
            let log_path = match &e.log_path {
                Option::None => Option::None,
                Option::Some(p) => Option::Some(p.clone()),
            };
            Option::Some(to_log_id(&stream, &log_path))
        },
        Option::None => Option::None,
    }
}

} // verus!
