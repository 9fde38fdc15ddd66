//! Operations: signed, linked header records with optional opaque bodies.
//!
//! A header carries, in fixed order: protocol version, author public key,
//! signature, payload size and hash, timestamp, sequence number, backlink,
//! a list of previous hashes, and an extensions record. An operation's
//! identity is the hash of its encoded header.

use vstd::prelude::*;

use crate::cbor::{
    push_bool, push_bstr, push_head, push_opt_bstr, push_tstr, push_uint, spec_enc_bool,
    spec_enc_bstr, spec_enc_head, spec_enc_null, spec_enc_opt_bstr, spec_enc_tstr, spec_enc_uint,
    spec_opt_view, MAJOR_ARR, MAJOR_BSTR, MAJOR_MAP, MAJOR_UINT, SIMPLE_NULL,
};
use crate::crypto::{
    hash_bytes, hash_of, sig_valid, sign_bytes, verify_signature, HASH_LEN, KEY_LEN, SIG_LEN,
};
use crate::extensions::{ext_wf, Extensions, ExtensionsV};

verus! {

/// Mathematical value of an operation header.
pub ghost struct HeaderV {
    pub version: u64,
    pub public_key: Seq<u8>,
    pub signature: Option<Seq<u8>>,
    pub payload_size: u64,
    pub payload_hash: Option<Seq<u8>>,
    pub timestamp: u64,
    pub seq_num: u64,
    pub backlink: Option<Seq<u8>>,
    pub previous: Seq<Seq<u8>>,
    pub extensions: Option<ExtensionsV>,
}

/// An operation header.
pub struct Header {
    /// Protocol version.
    pub version: u64,
    /// The author's Ed25519 public key.
    pub public_key: Vec<u8>,
    /// Signature over the encoding of this header with the signature
    /// cleared.
    pub signature: Option<Vec<u8>>,
    /// Size in bytes of the payload.
    pub payload_size: u64,
    /// Hash of the payload, present exactly when a body is attached.
    pub payload_hash: Option<Vec<u8>>,
    /// UNIX-seconds timestamp.
    pub timestamp: u64,
    /// Sequence number within the author's log, starting at zero.
    pub seq_num: u64,
    /// Hash of the previous header in this log; absent at sequence zero.
    pub backlink: Option<Vec<u8>>,
    /// Hashes reserved for DAG extensions; may be empty.
    pub previous: Vec<Vec<u8>>,
    /// The extensions record.
    pub extensions: Option<Extensions>,
}

/// The views of a list of byte vectors.
pub open spec fn hashes_view(v: Seq<Vec<u8>>) -> Seq<Seq<u8>> {
    Seq::new(v.len(), |i: int| v[i]@)
}

/// The view of an optional byte vector, as an optional byte sequence.
pub open spec fn opt_bytes_view(o: Option<Vec<u8>>) -> Option<Seq<u8>> {
    match o {
        Option::None => Option::None,
        Option::Some(v) => Option::Some(v@),
    }
}

/// The view of an optional extensions record.
pub open spec fn opt_ext_view(o: Option<Extensions>) -> Option<ExtensionsV> {
    match o {
        Option::None => Option::None,
        Option::Some(e) => Option::Some(e@),
    }
}

impl View for Header {
    type V = HeaderV;

    open spec fn view(&self) -> HeaderV {
        HeaderV {
            version: self.version,
            public_key: self.public_key@,
            signature: opt_bytes_view(self.signature),
            payload_size: self.payload_size,
            payload_hash: opt_bytes_view(self.payload_hash),
            timestamp: self.timestamp,
            seq_num: self.seq_num,
            backlink: opt_bytes_view(self.backlink),
            previous: hashes_view(self.previous@),
            extensions: opt_ext_view(self.extensions),
        }
    }
}

/// Well-formedness of a header value: keys, hashes and signatures have
/// their fixed lengths, and variable parts fit the wire format.
pub open spec fn header_wf(h: HeaderV) -> bool {
    &&& h.public_key.len() == KEY_LEN
    &&& (h.signature matches Option::Some(s) ==> s.len() == SIG_LEN)
    &&& (h.payload_hash matches Option::Some(p) ==> p.len() == HASH_LEN)
    &&& (h.backlink matches Option::Some(b) ==> b.len() == HASH_LEN)
    &&& h.previous.len() <= u64::MAX
    &&& (forall|i: int| 0 <= i < h.previous.len() ==> #[trigger] h.previous[i].len() == HASH_LEN)
    &&& (h.extensions matches Option::Some(e) ==> ext_wf(e))
}

/// Number of fields present in an extensions record on the wire.
pub open spec fn spec_ext_count(e: ExtensionsV) -> int {
    (if e.stream_root_hash is Some {
        1int
    } else {
        0int
    }) + (if e.stream_owner is Some {
        1int
    } else {
        0int
    }) + (if e.log_path is Some {
        1int
    } else {
        0int
    }) + (if e.prune_flag {
        1int
    } else {
        0int
    })
}

/// Encoding of a one-letter map key.
pub open spec fn spec_enc_key(c: u8) -> Seq<u8> {
    spec_enc_tstr(seq![c])
}

/// Key letter of the stream root hash field.
pub const KEY_ROOT: u8 = 114u8;

/// Key letter of the stream owner field.
pub const KEY_OWNER: u8 = 111u8;

/// Key letter of the log path field.
pub const KEY_PATH: u8 = 108u8;

/// Key letter of the prune flag field.
pub const KEY_PRUNE: u8 = 112u8;

/// Encoding of an extensions record: a map holding exactly the present
/// fields under their one-letter keys, in the fixed order `r`, `o`, `l`,
/// `p`. An unset prune flag is omitted.
pub open spec fn spec_encode_extensions(e: ExtensionsV) -> Seq<u8> {
    spec_enc_head(MAJOR_MAP, spec_ext_count(e) as u64) + (match e.stream_root_hash {
        Option::None => Seq::<u8>::empty(),
        Option::Some(h) => spec_enc_key(KEY_ROOT) + spec_enc_bstr(h),
    }) + (match e.stream_owner {
        Option::None => Seq::<u8>::empty(),
        Option::Some(o) => spec_enc_key(KEY_OWNER) + spec_enc_bstr(o),
    }) + (match e.log_path {
        Option::None => Seq::<u8>::empty(),
        Option::Some(p) => spec_enc_key(KEY_PATH) + spec_enc_tstr(p),
    }) + (if e.prune_flag {
        spec_enc_key(KEY_PRUNE) + spec_enc_bool(true)
    } else {
        Seq::<u8>::empty()
    })
}

/// Encoding of an optional extensions record: `null` when absent.
pub open spec fn spec_enc_opt_ext(o: Option<ExtensionsV>) -> Seq<u8> {
    match o {
        Option::None => spec_enc_null(),
        Option::Some(e) => spec_encode_extensions(e),
    }
}

/// Encoding of a list of hashes, one byte string per element.
pub open spec fn spec_enc_hash_list(s: Seq<Seq<u8>>) -> Seq<u8>
    decreases s.len(),
{
    if s.len() == 0 {
        Seq::<u8>::empty()
    } else {
        spec_enc_bstr(s[0]) + spec_enc_hash_list(s.drop_first())
    }
}

/// Appending one element to a hash list appends its encoding.
pub proof fn lemma_enc_hash_list_snoc(s: Seq<Seq<u8>>)
    requires
        s.len() > 0,
    ensures
        spec_enc_hash_list(s) == spec_enc_hash_list(s.drop_last()) + spec_enc_bstr(s.last()),
    decreases s.len(),
{
    if s.len() == 1 {
        assert(s.drop_first().len() == 0);
        assert(spec_enc_hash_list(s.drop_first()) == Seq::<u8>::empty());
        assert(spec_enc_hash_list(s) == spec_enc_bstr(s[0]) + Seq::<u8>::empty());
        assert(s.drop_last().len() == 0);
        assert(spec_enc_hash_list(s.drop_last()) == Seq::<u8>::empty());
        assert(spec_enc_bstr(s[0]) + Seq::<u8>::empty() =~= Seq::<u8>::empty() + spec_enc_bstr(
            s[0],
        ));
        assert(s.last() == s[0]);
    } else {
        let t = s.drop_first();
        lemma_enc_hash_list_snoc(t);
        assert(t.drop_last() =~= s.drop_last().drop_first());
        assert(t.last() == s.last());
        assert(spec_enc_hash_list(s) == spec_enc_bstr(s[0]) + (spec_enc_hash_list(t.drop_last())
            + spec_enc_bstr(s.last())));
        assert(spec_enc_bstr(s[0]) + (spec_enc_hash_list(t.drop_last()) + spec_enc_bstr(s.last()))
            =~= (spec_enc_bstr(s[0]) + spec_enc_hash_list(s.drop_last().drop_first()))
            + spec_enc_bstr(s.last()));
        assert(s.drop_last().len() > 0);
        assert(spec_enc_hash_list(s.drop_last()) == spec_enc_bstr(s.drop_last()[0])
            + spec_enc_hash_list(s.drop_last().drop_first()));
        assert(s.drop_last()[0] == s[0]);
    }
}

/// Encoding of a header: a ten-element array holding the fields in their
/// fixed order.
#[verifier::opaque]
pub open spec fn spec_encode_header(h: HeaderV) -> Seq<u8> {
    spec_enc_head(MAJOR_ARR, 10) + spec_enc_uint(h.version) + spec_enc_bstr(h.public_key)
        + spec_enc_opt_bstr(h.signature) + spec_enc_uint(h.payload_size) + spec_enc_opt_bstr(
        h.payload_hash,
    ) + spec_enc_uint(h.timestamp) + spec_enc_uint(h.seq_num) + spec_enc_opt_bstr(h.backlink)
        + spec_enc_head(MAJOR_ARR, h.previous.len() as u64) + spec_enc_hash_list(h.previous)
        + spec_enc_opt_ext(h.extensions)
}

/// The encoding from the extensions field on: the last field of a header.
pub open spec fn spec_hdr_tail_ext(h: HeaderV) -> Seq<u8> {
    spec_enc_opt_ext(h.extensions)
}

/// The encoding from the previous-hash items on.
pub open spec fn spec_hdr_tail_prev_items(h: HeaderV) -> Seq<u8> {
    spec_enc_hash_list(h.previous) + spec_hdr_tail_ext(h)
}

/// The encoding from the previous-list head on.
pub open spec fn spec_hdr_tail_prev(h: HeaderV) -> Seq<u8> {
    spec_enc_head(MAJOR_ARR, h.previous.len() as u64) + spec_hdr_tail_prev_items(h)
}

/// The encoding from the backlink on.
pub open spec fn spec_hdr_tail_backlink(h: HeaderV) -> Seq<u8> {
    spec_enc_opt_bstr(h.backlink) + spec_hdr_tail_prev(h)
}

/// The encoding from the sequence number on.
pub open spec fn spec_hdr_tail_seq(h: HeaderV) -> Seq<u8> {
    spec_enc_uint(h.seq_num) + spec_hdr_tail_backlink(h)
}

/// The encoding from the timestamp on.
pub open spec fn spec_hdr_tail_ts(h: HeaderV) -> Seq<u8> {
    spec_enc_uint(h.timestamp) + spec_hdr_tail_seq(h)
}

/// The encoding from the payload hash on.
pub open spec fn spec_hdr_tail_ph(h: HeaderV) -> Seq<u8> {
    spec_enc_opt_bstr(h.payload_hash) + spec_hdr_tail_ts(h)
}

/// The encoding from the payload size on.
pub open spec fn spec_hdr_tail_size(h: HeaderV) -> Seq<u8> {
    spec_enc_uint(h.payload_size) + spec_hdr_tail_ph(h)
}

/// The encoding from the signature on.
pub open spec fn spec_hdr_tail_sig(h: HeaderV) -> Seq<u8> {
    spec_enc_opt_bstr(h.signature) + spec_hdr_tail_size(h)
}

/// The encoding from the public key on.
pub open spec fn spec_hdr_tail_pk(h: HeaderV) -> Seq<u8> {
    spec_enc_bstr(h.public_key) + spec_hdr_tail_sig(h)
}

/// The encoding from the version on.
pub open spec fn spec_hdr_tail_ver(h: HeaderV) -> Seq<u8> {
    spec_enc_uint(h.version) + spec_hdr_tail_pk(h)
}

/// A header's encoding, reassociated field by field.
#[verifier::rlimit(100)]
pub proof fn lemma_header_tails(h: HeaderV)
    ensures
        spec_encode_header(h) == spec_enc_head(MAJOR_ARR, 10) + spec_hdr_tail_ver(h),
{
    reveal(spec_encode_header);
    assert(spec_encode_header(h) =~= spec_enc_head(MAJOR_ARR, 10) + spec_hdr_tail_ver(h));
}

/// Peeling one item off an encoded hash list.
pub proof fn lemma_enc_hash_list_peel(s: Seq<Seq<u8>>, i: int)
    requires
        0 <= i < s.len(),
    ensures
        spec_enc_hash_list(s.skip(i)) == spec_enc_bstr(s[i]) + spec_enc_hash_list(s.skip(i + 1)),
{
    assert(s.skip(i).len() > 0);
    assert(s.skip(i)[0] == s[i]);
    assert(s.skip(i).drop_first() =~= s.skip(i + 1));
}

/// The per-field parts of an extensions encoding, reassociated.
pub open spec fn spec_ext_tail_prune(e: ExtensionsV) -> Seq<u8> {
    if e.prune_flag {
        spec_enc_key(KEY_PRUNE) + spec_enc_bool(true)
    } else {
        Seq::<u8>::empty()
    }
}

/// The extensions encoding from the log path on.
pub open spec fn spec_ext_tail_path(e: ExtensionsV) -> Seq<u8> {
    (match e.log_path {
        Option::None => Seq::<u8>::empty(),
        Option::Some(p) => spec_enc_key(KEY_PATH) + spec_enc_tstr(p),
    }) + spec_ext_tail_prune(e)
}

/// The extensions encoding from the owner on.
pub open spec fn spec_ext_tail_owner(e: ExtensionsV) -> Seq<u8> {
    (match e.stream_owner {
        Option::None => Seq::<u8>::empty(),
        Option::Some(o) => spec_enc_key(KEY_OWNER) + spec_enc_bstr(o),
    }) + spec_ext_tail_owner_rest(e)
}

/// Helper: the extensions encoding after the owner field.
pub open spec fn spec_ext_tail_owner_rest(e: ExtensionsV) -> Seq<u8> {
    spec_ext_tail_path(e)
}

/// The extensions encoding from the root hash on.
pub open spec fn spec_ext_tail_root(e: ExtensionsV) -> Seq<u8> {
    (match e.stream_root_hash {
        Option::None => Seq::<u8>::empty(),
        Option::Some(h) => spec_enc_key(KEY_ROOT) + spec_enc_bstr(h),
    }) + spec_ext_tail_owner(e)
}

/// An extensions encoding, reassociated field by field.
pub proof fn lemma_ext_tails(e: ExtensionsV)
    ensures
        spec_encode_extensions(e) == spec_enc_head(MAJOR_MAP, spec_ext_count(e) as u64)
            + spec_ext_tail_root(e),
{
    assert(spec_encode_extensions(e) =~= spec_enc_head(MAJOR_MAP, spec_ext_count(e) as u64)
        + spec_ext_tail_root(e));
}

/// Two equal-length hash lists encoded at the same position agree, as does
/// what follows them.
pub proof fn lemma_hash_list_prefix(s1: Seq<Seq<u8>>, s2: Seq<Seq<u8>>, r1: Seq<u8>, r2: Seq<u8>)
    requires
        s1.len() == s2.len(),
        forall|i: int| 0 <= i < s1.len() ==> (#[trigger] s1[i]).len() == HASH_LEN,
        forall|i: int| 0 <= i < s2.len() ==> (#[trigger] s2[i]).len() == HASH_LEN,
        spec_enc_hash_list(s1) + r1 == spec_enc_hash_list(s2) + r2,
    ensures
        s1 == s2,
        r1 == r2,
    decreases s1.len(),
{
    if s1.len() == 0 {
        assert(spec_enc_hash_list(s1) == Seq::<u8>::empty());
        assert(spec_enc_hash_list(s2) == Seq::<u8>::empty());
        assert(Seq::<u8>::empty() + r1 =~= r1);
        assert(Seq::<u8>::empty() + r2 =~= r2);
        assert(s1 =~= s2);
    } else {
        assert(spec_enc_hash_list(s1) + r1 =~= spec_enc_bstr(s1[0]) + (spec_enc_hash_list(
            s1.drop_first(),
        ) + r1));
        assert(spec_enc_hash_list(s2) + r2 =~= spec_enc_bstr(s2[0]) + (spec_enc_hash_list(
            s2.drop_first(),
        ) + r2));
        crate::cbor::lemma_bstr_prefix(
            s1[0],
            s2[0],
            spec_enc_hash_list(s1.drop_first()) + r1,
            spec_enc_hash_list(s2.drop_first()) + r2,
        );
        assert(forall|i: int|
            0 <= i < s1.drop_first().len() ==> (#[trigger] s1.drop_first()[i]).len() == HASH_LEN);
        assert(forall|i: int|
            0 <= i < s2.drop_first().len() ==> (#[trigger] s2.drop_first()[i]).len() == HASH_LEN);
        lemma_hash_list_prefix(s1.drop_first(), s2.drop_first(), r1, r2);
        assert forall|i: int| 0 <= i < s1.len() implies s1[i] == s2[i] by {
            if i > 0 {
                assert(s1[i] == s1.drop_first()[i - 1]);
                assert(s2[i] == s2.drop_first()[i - 1]);
            }
        }
        assert(s1 =~= s2);
    }
}

/// Two optional extensions records encoded at the same position agree, as
/// does what follows them.
pub proof fn lemma_opt_ext_prefix(
    o1: Option<ExtensionsV>,
    o2: Option<ExtensionsV>,
    r1: Seq<u8>,
    r2: Seq<u8>,
)
    requires
        o1 matches Option::Some(e1) ==> ext_wf(e1),
        o2 matches Option::Some(e2) ==> ext_wf(e2),
        spec_enc_opt_ext(o1) + r1 == spec_enc_opt_ext(o2) + r2,
    ensures
        o1 == o2,
        r1 == r2,
{
    let s1 = spec_enc_opt_ext(o1) + r1;
    match (o1, o2) {
        (Option::None, Option::None) => {
            crate::cbor::lemma_concat_eq_parts(spec_enc_null(), r1, spec_enc_null(), r2);
        },
        (Option::Some(e1), Option::Some(e2)) => {
            lemma_ext_prefix(e1, e2, r1, r2);
        },
        (Option::None, Option::Some(e2)) => {
            lemma_ext_tails(e2);
            assert(spec_enc_opt_ext(o2) + r2 =~= spec_enc_head(
                MAJOR_MAP,
                spec_ext_count(e2) as u64,
            ) + (spec_ext_tail_root(e2) + r2));
            assert(s1[0] == spec_enc_null()[0]);
            assert(s1[0] == (spec_enc_head(MAJOR_MAP, spec_ext_count(e2) as u64)
                + (spec_ext_tail_root(e2) + r2))[0]);
            assert(false);
        },
        (Option::Some(e1), Option::None) => {
            lemma_ext_tails(e1);
            assert(spec_enc_opt_ext(o1) + r1 =~= spec_enc_head(
                MAJOR_MAP,
                spec_ext_count(e1) as u64,
            ) + (spec_ext_tail_root(e1) + r1));
            assert(s1[0] == (spec_enc_head(MAJOR_MAP, spec_ext_count(e1) as u64)
                + (spec_ext_tail_root(e1) + r1))[0]);
            assert((spec_enc_opt_ext(o2) + r2)[0] == spec_enc_null()[0]);
            assert(false);
        },
    }
}

/// The canonical header encoding is injective on well-formed headers.
#[verifier::rlimit(100)]
pub proof fn lemma_encode_header_injective(h1: HeaderV, h2: HeaderV)
    requires
        header_wf(h1),
        header_wf(h2),
        spec_encode_header(h1) == spec_encode_header(h2),
    ensures
        h1 == h2,
{
    lemma_header_tails(h1);
    lemma_header_tails(h2);
    crate::cbor::lemma_head_prefix(MAJOR_ARR, 10, 10, spec_hdr_tail_ver(h1), spec_hdr_tail_ver(h2));
    crate::cbor::lemma_head_prefix(
        MAJOR_UINT,
        h1.version,
        h2.version,
        spec_hdr_tail_pk(h1),
        spec_hdr_tail_pk(h2),
    );
    crate::cbor::lemma_bstr_prefix(
        h1.public_key,
        h2.public_key,
        spec_hdr_tail_sig(h1),
        spec_hdr_tail_sig(h2),
    );
    crate::cbor::lemma_opt_bstr_prefix(
        h1.signature,
        h2.signature,
        spec_hdr_tail_size(h1),
        spec_hdr_tail_size(h2),
    );
    crate::cbor::lemma_head_prefix(
        MAJOR_UINT,
        h1.payload_size,
        h2.payload_size,
        spec_hdr_tail_ph(h1),
        spec_hdr_tail_ph(h2),
    );
    crate::cbor::lemma_opt_bstr_prefix(
        h1.payload_hash,
        h2.payload_hash,
        spec_hdr_tail_ts(h1),
        spec_hdr_tail_ts(h2),
    );
    crate::cbor::lemma_head_prefix(
        MAJOR_UINT,
        h1.timestamp,
        h2.timestamp,
        spec_hdr_tail_seq(h1),
        spec_hdr_tail_seq(h2),
    );
    crate::cbor::lemma_head_prefix(
        MAJOR_UINT,
        h1.seq_num,
        h2.seq_num,
        spec_hdr_tail_backlink(h1),
        spec_hdr_tail_backlink(h2),
    );
    crate::cbor::lemma_opt_bstr_prefix(
        h1.backlink,
        h2.backlink,
        spec_hdr_tail_prev(h1),
        spec_hdr_tail_prev(h2),
    );
    crate::cbor::lemma_head_prefix(
        MAJOR_ARR,
        h1.previous.len() as u64,
        h2.previous.len() as u64,
        spec_hdr_tail_prev_items(h1),
        spec_hdr_tail_prev_items(h2),
    );
    assert(h1.previous.len() == h2.previous.len());
    lemma_hash_list_prefix(
        h1.previous,
        h2.previous,
        spec_hdr_tail_ext(h1),
        spec_hdr_tail_ext(h2),
    );
    lemma_opt_ext_prefix(h1.extensions, h2.extensions, Seq::<u8>::empty(), Seq::<u8>::empty());
}

/// The same header with the signature cleared: what the signature is
/// computed over.
pub open spec fn spec_clear_sig(h: HeaderV) -> HeaderV {
    HeaderV { signature: Option::None, ..h }
}

/// The bytes an author signs: the header encoded with its signature
/// cleared.
pub open spec fn spec_signed_bytes(h: HeaderV) -> Seq<u8> {
    spec_encode_header(spec_clear_sig(h))
}

/// An operation's identity: the hash of its encoded header.
pub open spec fn spec_header_id(h: HeaderV) -> Seq<u8> {
    hash_of(spec_encode_header(h))
}

/// The header carries a signature that verifies under its public key over
/// the canonical encoding with the signature cleared.
pub open spec fn spec_sig_ok(h: HeaderV) -> bool {
    h.signature matches Option::Some(s) && sig_valid(h.public_key, spec_signed_bytes(h), s)
}

impl Clone for Header {
    fn clone(&self) -> (r: Self)
        ensures
            r@ == self@,
    {
        let previous = clone_hash_list(&self.previous);
        let r = Header {
            version: self.version,
            public_key: crate::bytes::copy_range(self.public_key.as_slice(), 0, self.public_key.len()),
            signature: clone_opt_bytes(&self.signature),
            payload_size: self.payload_size,
            payload_hash: clone_opt_bytes(&self.payload_hash),
            timestamp: self.timestamp,
            seq_num: self.seq_num,
            backlink: clone_opt_bytes(&self.backlink),
            previous,
            extensions: match &self.extensions {
                Option::None => Option::None,
                Option::Some(e) => Option::Some(e.clone()),
            },
        };
        proof {
            assert(r@.public_key =~= self@.public_key);
            assert(r@.previous =~= self@.previous);
        }
        r
    }
}

/// Copies an optional byte vector.
pub fn clone_opt_bytes(o: &Option<Vec<u8>>) -> (r: Option<Vec<u8>>)
    ensures
        opt_bytes_view(r) == opt_bytes_view(*o),
{
    match o {
        Option::None => Option::None,
        Option::Some(v) => Option::Some(crate::bytes::copy_range(v.as_slice(), 0, v.len())),
    }
}

/// Copies a list of hashes.
fn clone_hash_list(v: &Vec<Vec<u8>>) -> (r: Vec<Vec<u8>>)
    ensures
        hashes_view(r@) =~= hashes_view(v@),
{
    let mut r: Vec<Vec<u8>> = Vec::new();
    let mut i: usize = 0;
    while i < v.len()
        invariant
            i <= v.len(),
            hashes_view(r@) =~= hashes_view(v@).subrange(0, i as int),
        decreases v.len() - i,
    {
        let x = crate::bytes::copy_range(v[i].as_slice(), 0, v[i].len());
        let ghost r0 = r@;
        r.push(x);
        proof {
            assert(hashes_view(r0).len() == r0.len());
            assert(r0.len() == i);
            assert(r@ == r0.push(x));
            assert forall|j: int| 0 <= j < i + 1 implies hashes_view(r@)[j] == hashes_view(
                v@,
            ).subrange(0, i + 1)[j] by {
                if j < i {
                    assert(r@[j] == r0[j]);
                    assert(hashes_view(r0)[j] == hashes_view(v@).subrange(0, i as int)[j]);
                } else {
                    assert(r@[j] == x);
                }
            }
            assert(hashes_view(r@) =~= hashes_view(v@).subrange(0, i + 1));
        }
        i += 1;
    }
    assert(hashes_view(v@).subrange(0, v@.len() as int) =~= hashes_view(v@));
    r
}

/// Appends the encoding of an extensions record to `out`.
#[verifier::rlimit(100)]
pub fn encode_extensions_into(out: &mut Vec<u8>, e: &Extensions)
    ensures
        final(out)@ == old(out)@ + spec_encode_extensions(e@),
{
    let mut count: u64 = 0;
    if e.stream_root_hash.is_some() {
        count += 1;
    }
    if e.stream_owner.is_some() {
        count += 1;
    }
    if e.log_path.is_some() {
        count += 1;
    }
    if e.prune_flag {
        count += 1;
    }
    assert(count == spec_ext_count(e@));
    let ghost base = out@;
    let ghost fr = match e@.stream_root_hash {
        Option::None => Seq::<u8>::empty(),
        Option::Some(h) => spec_enc_key(KEY_ROOT) + spec_enc_bstr(h),
    };
    let ghost fo = match e@.stream_owner {
        Option::None => Seq::<u8>::empty(),
        Option::Some(o) => spec_enc_key(KEY_OWNER) + spec_enc_bstr(o),
    };
    let ghost fl = match e@.log_path {
        Option::None => Seq::<u8>::empty(),
        Option::Some(p) => spec_enc_key(KEY_PATH) + spec_enc_tstr(p),
    };
    let ghost fp = if e@.prune_flag {
        spec_enc_key(KEY_PRUNE) + spec_enc_bool(true)
    } else {
        Seq::<u8>::empty()
    };
    push_head(out, MAJOR_MAP, count);
    let ghost g0 = base + spec_enc_head(MAJOR_MAP, spec_ext_count(e@) as u64);
    match &e.stream_root_hash {
        Option::None => {
            assert(out@ =~= g0 + fr);
        },
        Option::Some(h) => {
            push_key(out, KEY_ROOT);
            push_bstr(out, h.bytes.as_slice());
            assert(out@ =~= g0 + fr);
        },
    }
    match &e.stream_owner {
        Option::None => {
            assert(out@ =~= (g0 + fr) + fo);
        },
        Option::Some(o) => {
            push_key(out, KEY_OWNER);
            push_bstr(out, o.bytes.as_slice());
            assert(out@ =~= (g0 + fr) + fo);
        },
    }
    match &e.log_path {
        Option::None => {
            assert(out@ =~= ((g0 + fr) + fo) + fl);
        },
        Option::Some(p) => {
            push_key(out, KEY_PATH);
            push_tstr(out, p.bytes.as_slice());
            assert(out@ =~= ((g0 + fr) + fo) + fl);
        },
    }
    if e.prune_flag {
        push_key(out, KEY_PRUNE);
        push_bool(out, true);
        assert(out@ =~= (((g0 + fr) + fo) + fl) + fp);
    } else {
        assert(out@ =~= (((g0 + fr) + fo) + fl) + fp);
    }
    proof {
        let head = spec_enc_head(MAJOR_MAP, spec_ext_count(e@) as u64);
        assert(spec_encode_extensions(e@) == head + fr + fo + fl + fp);
        lemma_concat_assoc5(base, head, fr, fo, fl, fp);
    }
}

/// Prepending a sequence to a five-part concatenation reassociates.
proof fn lemma_concat_assoc5(
    base: Seq<u8>,
    h: Seq<u8>,
    a: Seq<u8>,
    b: Seq<u8>,
    c: Seq<u8>,
    d: Seq<u8>,
)
    ensures
        base + (h + a + b + c + d) =~= ((((base + h) + a) + b) + c) + d,
{
}

/// Appends a one-letter map key to `out`.
fn push_key(out: &mut Vec<u8>, c: u8)
    ensures
        final(out)@ == old(out)@ + spec_enc_key(c),
{
    let mut key: Vec<u8> = Vec::new();
    key.push(c);
    assert(key@ =~= seq![c]);
    push_tstr(out, key.as_slice());
}

/// Encodes a header into its canonical byte form.
pub fn encode_header(h: &Header) -> (r: Vec<u8>)
    ensures
        r@ == spec_encode_header(h@),
{
    proof {
        reveal(spec_encode_header);
    }
    let mut out: Vec<u8> = Vec::new();
    push_head(&mut out, MAJOR_ARR, 10);
    assert(out@ =~= spec_enc_head(MAJOR_ARR, 10));
    push_uint(&mut out, h.version);
    push_bstr(&mut out, h.public_key.as_slice());
    push_opt_bstr(&mut out, &h.signature);
    proof {
        assert(spec_opt_view(h.signature) == h@.signature);
    }
    push_uint(&mut out, h.payload_size);
    push_opt_bstr(&mut out, &h.payload_hash);
    push_uint(&mut out, h.timestamp);
    push_uint(&mut out, h.seq_num);
    push_opt_bstr(&mut out, &h.backlink);
    push_head(&mut out, MAJOR_ARR, h.previous.len() as u64);
    let ghost mid = out@;
    proof {
        assert(h@.previous.subrange(0, 0) =~= Seq::<Seq<u8>>::empty());
        assert(spec_enc_hash_list(h@.previous.subrange(0, 0)) == Seq::<u8>::empty());
        assert(mid + Seq::<u8>::empty() =~= mid);
    }
    let mut i: usize = 0;
    while i < h.previous.len()
        invariant
            i <= h.previous.len(),
            out@ == mid + spec_enc_hash_list(h@.previous.subrange(0, i as int)),
        decreases h.previous.len() - i,
    {
        push_bstr(&mut out, h.previous[i].as_slice());
        proof {
            let taken = h@.previous.subrange(0, i + 1);
            lemma_enc_hash_list_snoc(taken);
            assert(taken.drop_last() =~= h@.previous.subrange(0, i as int));
            assert(taken.last() == h@.previous[i as int]);
            assert(h@.previous[i as int] == h.previous[i as int]@);
            assert(out@ =~= mid + spec_enc_hash_list(taken));
        }
        i += 1;
    }
    proof {
        assert(h@.previous.subrange(0, h@.previous.len() as int) =~= h@.previous);
    }
    match &h.extensions {
        Option::None => {
            out.push(SIMPLE_NULL);
            assert(out@ =~= (mid + spec_enc_hash_list(h@.previous)) + spec_enc_null());
        },
        Option::Some(e) => {
            encode_extensions_into(&mut out, e);
        },
    }
    proof {
        assert(out@ =~= spec_encode_header(h@));
    }
    out
}

/// Encodes a header with its signature cleared: the bytes the signature is
/// computed over.
pub fn encode_header_unsigned(h: &Header) -> (r: Vec<u8>)
    ensures
        r@ == spec_signed_bytes(h@),
{
    let cleared = Header {
        version: h.version,
        public_key: crate::bytes::copy_range(h.public_key.as_slice(), 0, h.public_key.len()),
        signature: Option::None,
        payload_size: h.payload_size,
        payload_hash: clone_opt_bytes(&h.payload_hash),
        timestamp: h.timestamp,
        seq_num: h.seq_num,
        backlink: clone_opt_bytes(&h.backlink),
        previous: clone_hash_list(&h.previous),
        extensions: match &h.extensions {
            Option::None => Option::None,
            Option::Some(e) => Option::Some(e.clone()),
        },
    };
    proof {
        assert(cleared@.public_key =~= h@.public_key);
        assert(cleared@.previous =~= h@.previous);
        assert(cleared@ == spec_clear_sig(h@));
    }
    encode_header(&cleared)
}

/// Computes the operation id of a header: the hash of its canonical
/// encoding.
pub fn header_id(h: &Header) -> (r: Vec<u8>)
    ensures
        r@ == spec_header_id(h@),
        r@.len() == HASH_LEN,
{
    let bytes = encode_header(h);
    hash_bytes(bytes.as_slice())
}

/// Signs a header: stores the signature over the encoding with the
/// signature field cleared.
pub(crate) fn sign_header(h: &mut Header, secret: &[u8])
    requires
        secret@.len() == KEY_LEN,
        old(h)@.public_key == crate::crypto::public_key_of(secret@),
    ensures
        final(h)@ == (HeaderV {
            signature: Option::Some(
                crate::crypto::signature_of(secret@, spec_signed_bytes(old(h)@)),
            ),
            ..old(h)@
        }),
        final(h)@.signature->Some_0.len() == SIG_LEN,
        spec_sig_ok(final(h)@),
{
    h.signature = Option::None;
    let bytes = encode_header(h);
    let sig = sign_bytes(secret, bytes.as_slice());
    proof {
        assert(spec_clear_sig(h@) == h@);
        assert(bytes@ == spec_signed_bytes(h@));
    }
    h.signature = Option::Some(sig);
    proof {
        assert(spec_clear_sig(h@) == spec_clear_sig(old(h)@));
    }
}

/// Checks the header's signature against its public key, over the encoding
/// with the signature cleared. Returns true exactly when a signature is
/// present and verifies.
pub fn check_signature(h: &Header) -> (r: bool)
    ensures
        r == spec_sig_ok(h@),
{
    match &h.signature {
        Option::None => false,
        Option::Some(sig) => {
            let bytes = encode_header_unsigned(h);
            verify_signature(h.public_key.as_slice(), bytes.as_slice(), sig.as_slice())
        },
    }
}

/// An operation: a header together with its optional body bytes.
pub struct Operation {
    pub header: Header,
    pub body: Option<Vec<u8>>,
}

impl Clone for Operation {
    fn clone(&self) -> (r: Self)
        ensures
            r.header@ == self.header@,
            opt_bytes_view(r.body) == opt_bytes_view(self.body),
    {
        Operation { header: self.header.clone(), body: clone_opt_bytes(&self.body) }
    }
}

/// Mathematical value of an operation.
pub ghost struct OperationV {
    pub header: HeaderV,
    pub body: Option<Seq<u8>>,
}

impl View for Operation {
    type V = OperationV;

    open spec fn view(&self) -> OperationV {
        OperationV { header: self.header@, body: opt_bytes_view(self.body) }
    }
}

/// Header and body are consistent: a present body matches the declared
/// payload hash and size; an absent body is allowed exactly when the
/// declared payload size is zero.
pub open spec fn spec_body_ok(h: HeaderV, body: Option<Seq<u8>>) -> bool {
    match body {
        Option::Some(b) => h.payload_hash == Option::Some(hash_of(b)) && h.payload_size == b.len(),
        Option::None => h.payload_size == 0,
    }
}

/// Checks header/body consistency: payload hash and size match a present
/// body; absence of a body is allowed exactly when the payload size is
/// zero.
pub fn check_body(h: &Header, body: &Option<Vec<u8>>) -> (r: bool)
    ensures
        r == spec_body_ok(h@, opt_bytes_view(*body)),
{
    match body {
        Option::Some(b) => {
            let digest = hash_bytes(b.as_slice());
            let hash_matches = match &h.payload_hash {
                Option::None => false,
                Option::Some(ph) => crate::bytes::bytes_eq(
                    ph.as_slice(),
                    digest.as_slice(),
                ),
            };
            if !hash_matches {
                return false;
            }
            if b.len() as u64 != h.payload_size {
                return false;
            }
            true
        },
        Option::None => h.payload_size == 0,
    }
}

/// The stream an operation belongs to, after defaulting: an absent root
/// hash defaults to the operation's own id, an absent owner to its author.
/// Absent exactly when the header carries no extensions record.
pub open spec fn spec_extract_stream(h: HeaderV) -> Option<(Seq<u8>, Seq<u8>)> {
    match h.extensions {
        Option::None => Option::None,
        Option::Some(e) => Option::Some(
            (
                match e.stream_root_hash {
                    Option::None => spec_header_id(h),
                    Option::Some(r) => r,
                },
                match e.stream_owner {
                    Option::None => h.public_key,
                    Option::Some(o) => o,
                },
            ),
        ),
    }
}

/// The log id an operation addresses, after defaulting. Absent exactly when
/// the header carries no extensions record.
pub open spec fn spec_extract_log_id(h: HeaderV) -> Option<Seq<u8>> {
    match spec_extract_stream(h) {
        Option::None => Option::None,
        Option::Some((root, owner)) => Option::Some(
            crate::extensions::spec_log_id(
                crate::extensions::spec_stream_id(root, owner),
                h.extensions->Some_0.log_path,
            ),
        ),
    }
}

/// The prune flag of an operation; clear when no extensions record is
/// present.
pub open spec fn spec_extract_prune(h: HeaderV) -> bool {
    match h.extensions {
        Option::None => false,
        Option::Some(e) => e.prune_flag,
    }
}

/// Extracts the stream of a header, defaulting an absent root hash to the
/// operation's own id and an absent owner to the author.
pub fn extract_stream(h: &Header) -> (r: Option<crate::extensions::Stream>)
    ensures
        r is Some <==> spec_extract_stream(h@) is Some,
        r matches Option::Some(s) ==> {
            &&& Option::Some((s.root_hash@, s.owner@)) == spec_extract_stream(h@)
            &&& header_wf(h@) ==> s.wf()
        },
{
    match &h.extensions {
        Option::None => Option::None,
        Option::Some(e) => {
            let root_hash = match &e.stream_root_hash {
                Option::None => crate::extensions::StreamRootHash { bytes: header_id(h) },
                Option::Some(r) => r.clone(),
            };
            let owner = match &e.stream_owner {
                Option::None => crate::extensions::StreamOwner {
                    bytes: crate::bytes::copy_range(
                        h.public_key.as_slice(),
                        0,
                        h.public_key.len(),
                    ),
                },
                Option::Some(o) => o.clone(),
            };
            Option::Some(crate::extensions::Stream { root_hash, owner })
        },
    }
}

/// Extracts the log id of a header, with the stream defaulting rules.
pub fn extract_log_id(h: &Header) -> (r: Option<crate::extensions::LogId>)
    ensures
        r is Some <==> spec_extract_log_id(h@) is Some,
        r matches Option::Some(l) ==> Option::Some(l@) == spec_extract_log_id(h@),
{
    match extract_stream(h) {
        Option::None => Option::None,
        Option::Some(stream) => {
            let log_path = match &h.extensions {
                Option::None => Option::None,
                Option::Some(e) => match &e.log_path {
                    Option::None => Option::None,
                    Option::Some(p) => Option::Some(p.clone()),
                },
            };
            Option::Some(crate::extensions::to_log_id(&stream, &log_path))
        },
    }
}

/// Checks the structural well-formedness of a header: fixed lengths of
/// keys, hashes and signatures.
pub fn check_header_wf(h: &Header) -> (r: bool)
    ensures
        r == header_wf(h@),
{
    if h.public_key.len() != KEY_LEN {
        return false;
    }
    match &h.signature {
        Option::Some(s) => if s.len() != SIG_LEN {
            return false;
        },
        Option::None => {},
    }
    match &h.payload_hash {
        Option::Some(p) => if p.len() != HASH_LEN {
            return false;
        },
        Option::None => {},
    }
    match &h.backlink {
        Option::Some(b) => if b.len() != HASH_LEN {
            return false;
        },
        Option::None => {},
    }
    let mut i: usize = 0;
    while i < h.previous.len()
        invariant
            i <= h.previous.len(),
            forall|j: int| 0 <= j < i ==> h@.previous[j].len() == HASH_LEN,
            h@.previous.len() == h.previous.len(),
        decreases h.previous.len() - i,
    {
        if h.previous[i].len() != HASH_LEN {
            assert(h@.previous[i as int].len() != HASH_LEN);
            return false;
        }
        i += 1;
    }
    proof {
        assert(h.previous.len() <= usize::MAX);
        assert(h@.previous.len() == h.previous@.len());
    }
    match &h.extensions {
        Option::None => true,
        Option::Some(e) => {
            proof {
                match e.log_path {
                    Option::Some(ref p) => {
                        assert(p.bytes.len() <= usize::MAX);
                        assert(p@.len() == p.bytes@.len());
                    },
                    Option::None => {},
                }
            }
            let root_ok = match &e.stream_root_hash {
                Option::None => true,
                Option::Some(r) => r.bytes.len() == HASH_LEN,
            };
            let owner_ok = match &e.stream_owner {
                Option::None => true,
                Option::Some(o) => o.bytes.len() == KEY_LEN,
            };
            root_ok && owner_ok
        },
    }
}

/// Extracts the prune flag of a header; clear when no extensions record is
/// present.
pub fn extract_prune(h: &Header) -> (r: bool)
    ensures
        r == spec_extract_prune(h@),
{
    match &h.extensions {
        Option::None => false,
        Option::Some(e) => e.prune_flag,
    }
}


/// A decoding failure: the bytes are not a canonical encoding.
#[derive(Clone, Copy, Debug, PartialEq, Eq, Structural)]
pub enum DecodeError {
    Malformed,
}

/// The wire form of a gossip message: a two-element array of the encoded
/// header and the optional body bytes.
pub open spec fn spec_encode_gossip(header_bytes: Seq<u8>, body: Option<Seq<u8>>) -> Seq<u8> {
    spec_enc_head(MAJOR_ARR, 2) + spec_enc_bstr(header_bytes) + spec_enc_opt_bstr(body)
}

/// Encodes an operation for gossip: the encoded header and the optional
/// body, framed as a two-element array.
pub fn encode_gossip_message(header: &Header, body: Option<&Vec<u8>>) -> (r: Vec<u8>)
    ensures
        r@ == spec_encode_gossip(
            spec_encode_header(header@),
            match body {
                Option::None => Option::<Seq<u8>>::None,
                Option::Some(b) => Option::Some(b@),
            },
        ),
{
    let header_bytes = encode_header(header);
    let mut out: Vec<u8> = Vec::new();
    push_head(&mut out, MAJOR_ARR, 2);
    push_bstr(&mut out, header_bytes.as_slice());
    match body {
        Option::None => {
            out.push(SIMPLE_NULL);
            assert(out@ =~= (spec_enc_head(MAJOR_ARR, 2) + spec_enc_bstr(header_bytes@))
                + spec_enc_null());
        },
        Option::Some(b) => {
            push_bstr(&mut out, b.as_slice());
        },
    }
    proof {
        assert(out@ =~= spec_encode_gossip(
            spec_encode_header(header@),
            match body {
                Option::None => Option::<Seq<u8>>::None,
                Option::Some(b) => Option::Some(b@),
            },
        ));
    }
    out
}

/// Splits a gossip message into the encoded header bytes and the optional
/// body bytes. Succeeds only on the canonical framing, and then returns
/// exactly the framed parts.
#[verifier::rlimit(100)]
pub fn decode_gossip_message(bytes: &[u8]) -> (r: Result<(Vec<u8>, Option<Vec<u8>>), DecodeError>)
    ensures
        r matches Ok(p) ==> bytes@ == spec_encode_gossip(p.0@, opt_bytes_view(p.1)),
        r is Err ==> forall|hb: Seq<u8>, b: Option<Seq<u8>>|
            bytes@ != #[trigger] spec_encode_gossip(hb, b),
        forall|hb: Seq<u8>, b: Option<Seq<u8>>|
            bytes@ == #[trigger] spec_encode_gossip(hb, b) ==> (r matches Ok(p) && p.0@ == hb
                && opt_bytes_view(p.1) == b),
{
    let ghost full = bytes@;
    proof {
        assert(bytes.len() <= usize::MAX);
        assert(full.len() <= u64::MAX);
    }
    let (n, pos) = match crate::cbor::read_head(bytes, 0, MAJOR_ARR) {
        Option::None => {
            proof {
                assert forall|hb: Seq<u8>, b: Option<Seq<u8>>| full != #[trigger] spec_encode_gossip(
                    hb,
                    b,
                ) by {
                    if full == spec_encode_gossip(hb, b) {
                        assert(full[0] == spec_enc_head(MAJOR_ARR, 2)[0]);
                        assert(full.len() >= 9);
                    }
                }
            }
            return Result::Err(DecodeError::Malformed);
        },
        Option::Some(x) => x,
    };
    if n != 2 {
        proof {
            assert forall|hb: Seq<u8>, b: Option<Seq<u8>>| full != #[trigger] spec_encode_gossip(
                hb,
                b,
            ) by {
                if full == spec_encode_gossip(hb, b) {
                    lemma_gossip_bounds(full, hb, b);
                    assert(full =~= spec_enc_head(MAJOR_ARR, 2) + (spec_enc_bstr(hb)
                        + spec_enc_opt_bstr(b)));
                    assert(full =~= spec_enc_head(MAJOR_ARR, n) + full.skip(9));
                    crate::cbor::lemma_head_prefix(
                        MAJOR_ARR,
                        n,
                        2,
                        full.skip(9),
                        spec_enc_bstr(hb) + spec_enc_opt_bstr(b),
                    );
                }
            }
        }
        return Result::Err(DecodeError::Malformed);
    }
    let (header_bytes, pos2) = match crate::cbor::read_bstr(bytes, pos) {
        Option::None => {
            proof {
                assert forall|hb: Seq<u8>, b: Option<Seq<u8>>| full != #[trigger] spec_encode_gossip(
                    hb,
                    b,
                ) by {
                    if full == spec_encode_gossip(hb, b) {
                        lemma_gossip_bounds(full, hb, b);
                        assert(full =~= spec_enc_head(MAJOR_ARR, 2) + ((spec_enc_head(
                            MAJOR_BSTR,
                            hb.len() as u64,
                        ) + hb) + spec_enc_opt_bstr(b)));
                        assert(full[pos as int] == MAJOR_BSTR);
                        assert(full.subrange(pos + 1, pos + 9) =~= crate::bytes::spec_u64_be(
                            hb.len() as u64,
                        ));
                        crate::bytes::lemma_u64_be_round_trip(hb.len() as u64);
                        assert(pos + 9 + hb.len() <= full.len());
                    }
                }
            }
            return Result::Err(DecodeError::Malformed);
        },
        Option::Some(x) => x,
    };
    proof {
        assert(full =~= full.subrange(0, pos as int) + (full.subrange(pos as int, pos2 as int)
            + full.skip(pos2 as int)));
    }
    let (body, pos3) = match crate::cbor::read_opt_bstr(bytes, pos2) {
        Option::None => {
            proof {
                assert forall|hb: Seq<u8>, b: Option<Seq<u8>>| full != #[trigger] spec_encode_gossip(
                    hb,
                    b,
                ) by {
                    if full == spec_encode_gossip(hb, b) {
                        lemma_gossip_bounds(full, hb, b);
                        assert(full =~= spec_enc_head(MAJOR_ARR, 2) + (spec_enc_bstr(hb) + (
                        spec_enc_opt_bstr(b) + Seq::<u8>::empty())));
                        assert(full.skip(pos as int) =~= spec_enc_bstr(hb) + (spec_enc_opt_bstr(b)
                            + Seq::<u8>::empty()));
                        assert(full.skip(pos as int) =~= spec_enc_bstr(header_bytes@) + full.skip(
                            pos2 as int,
                        ));
                        assert(header_bytes@.len() <= u64::MAX);
                        crate::cbor::lemma_bstr_prefix(
                            header_bytes@,
                            hb,
                            full.skip(pos2 as int),
                            spec_enc_opt_bstr(b) + Seq::<u8>::empty(),
                        );
                        assert(full.skip(pos2 as int) =~= spec_enc_opt_bstr(b));
                        match b {
                            Option::None => {
                                assert(full[pos2 as int] == SIMPLE_NULL && pos2 < full.len());
                            },
                            Option::Some(bb) => {
                                assert(full[pos2 as int] == MAJOR_BSTR);
                                assert(full.subrange(pos2 + 1, pos2 + 9)
                                    =~= crate::bytes::spec_u64_be(bb.len() as u64));
                                crate::bytes::lemma_u64_be_round_trip(bb.len() as u64);
                                assert(pos2 + 9 + bb.len() <= full.len());
                            },
                        }
                    }
                }
            }
            return Result::Err(DecodeError::Malformed);
        },
        Option::Some(x) => x,
    };
    if pos3 != bytes.len() {
        proof {
            assert forall|hb: Seq<u8>, b: Option<Seq<u8>>| full != #[trigger] spec_encode_gossip(
                hb,
                b,
            ) by {
                if full == spec_encode_gossip(hb, b) {
                    lemma_gossip_bounds(full, hb, b);
                    assert(full =~= spec_enc_head(MAJOR_ARR, 2) + (spec_enc_bstr(hb) + (
                    spec_enc_opt_bstr(b) + Seq::<u8>::empty())));
                    assert(full.skip(pos as int) =~= spec_enc_bstr(hb) + (spec_enc_opt_bstr(b)
                        + Seq::<u8>::empty()));
                    assert(full.skip(pos as int) =~= spec_enc_bstr(header_bytes@) + full.skip(
                        pos2 as int,
                    ));
                    assert(header_bytes@.len() <= u64::MAX);
                    crate::cbor::lemma_bstr_prefix(
                        header_bytes@,
                        hb,
                        full.skip(pos2 as int),
                        spec_enc_opt_bstr(b) + Seq::<u8>::empty(),
                    );
                    assert(full.subrange(pos2 as int, pos3 as int)
                        =~= spec_enc_opt_bstr(spec_opt_view(body)));
                    assert(full.skip(pos2 as int) =~= spec_enc_opt_bstr(spec_opt_view(body))
                        + full.skip(pos3 as int));
                    crate::cbor::lemma_opt_bstr_prefix(
                        spec_opt_view(body),
                        b,
                        full.skip(pos3 as int),
                        Seq::<u8>::empty(),
                    );
                    assert(full.skip(pos3 as int) =~= Seq::<u8>::empty());
                    assert(pos3 == full.len());
                }
            }
        }
        return Result::Err(DecodeError::Malformed);
    }
    proof {
        assert(bytes@ =~= bytes@.subrange(0, pos as int) + bytes@.subrange(pos as int, pos2 as int)
            + bytes@.subrange(pos2 as int, pos3 as int));
        assert(bytes@ == spec_encode_gossip(header_bytes@, spec_opt_view(body)));
        assert forall|hb: Seq<u8>, b2: Option<Seq<u8>>|
            bytes@ == #[trigger] spec_encode_gossip(hb, b2) implies (header_bytes@ == hb
            && spec_opt_view(body) == b2) by {
            lemma_gossip_bounds(full, hb, b2);
            assert(spec_enc_head(MAJOR_ARR, 2) + (spec_enc_bstr(header_bytes@) + (
            spec_enc_opt_bstr(spec_opt_view(body)) + Seq::<u8>::empty())) =~= bytes@);
            assert(spec_enc_head(MAJOR_ARR, 2) + (spec_enc_bstr(hb) + (spec_enc_opt_bstr(b2)
                + Seq::<u8>::empty())) =~= bytes@);
            crate::cbor::lemma_head_prefix(
                MAJOR_ARR,
                2,
                2,
                spec_enc_bstr(header_bytes@) + (spec_enc_opt_bstr(spec_opt_view(body))
                    + Seq::<u8>::empty()),
                spec_enc_bstr(hb) + (spec_enc_opt_bstr(b2) + Seq::<u8>::empty()),
            );
            assert(header_bytes@.len() <= u64::MAX);
            crate::cbor::lemma_bstr_prefix(
                header_bytes@,
                hb,
                spec_enc_opt_bstr(spec_opt_view(body)) + Seq::<u8>::empty(),
                spec_enc_opt_bstr(b2) + Seq::<u8>::empty(),
            );
            crate::cbor::lemma_opt_bstr_prefix(
                spec_opt_view(body),
                b2,
                Seq::<u8>::empty(),
                Seq::<u8>::empty(),
            );
        }
    }
    Result::Ok((header_bytes, body))
}

/// The parts of a gossip encoding fit inside it.
proof fn lemma_gossip_bounds(full: Seq<u8>, hb: Seq<u8>, b: Option<Seq<u8>>)
    requires
        full.len() <= u64::MAX,
        full == spec_encode_gossip(hb, b),
    ensures
        full.len() >= 19 + hb.len(),
        hb.len() <= u64::MAX,
        b matches Option::Some(bb) ==> full.len() == 18 + hb.len() + 9 + bb.len() && bb.len()
            <= u64::MAX,
        b is None ==> full.len() == 19 + hb.len(),
{
    assert((spec_enc_head(MAJOR_ARR, 2) + spec_enc_bstr(hb)).len() == 9 + (9 + hb.len()));
    assert(full.len() == (spec_enc_head(MAJOR_ARR, 2) + spec_enc_bstr(hb)).len()
        + spec_enc_opt_bstr(b).len());
    match b {
        Option::None => {
            assert(spec_enc_opt_bstr(b).len() == 1);
            assert(full.len() == 18 + hb.len() + 1);
        },
        Option::Some(bb) => {
            assert(crate::bytes::spec_u64_be(bb.len() as u64).len() == 8);
            assert(spec_enc_head(MAJOR_BSTR, bb.len() as u64).len() == 9);
            assert(spec_enc_opt_bstr(b).len() == (spec_enc_head(MAJOR_BSTR, bb.len() as u64)
                + bb).len());
            assert(spec_enc_opt_bstr(b).len() == 9 + bb.len());
            assert(full.len() == 18 + hb.len() + 9 + bb.len());
            assert(bb.len() <= u64::MAX);
        },
    }
    assert(hb.len() <= u64::MAX);
}

/// Reads a one-letter map key at `pos`; fails without consuming when the
/// next item is not exactly that key.
fn read_key(b: &[u8], pos: usize, c: u8) -> (r: Option<usize>)
    requires
        pos <= b@.len(),
    ensures
        r matches Option::Some(p) ==> pos < p <= b@.len() && b@.subrange(pos as int, p as int)
            =~= spec_enc_key(c),
        r is None ==> pos + 10 > b@.len() || b@.subrange(pos as int, pos + 10) != spec_enc_key(c),
{
    match crate::cbor::read_tstr(b, pos) {
        Option::None => {
            proof {
                if pos + 10 <= b@.len() && b@.subrange(pos as int, pos + 10) == spec_enc_key(c) {
                    let key = spec_enc_key(c);
                    assert(key =~= seq![crate::cbor::MAJOR_TSTR] + (crate::bytes::spec_u64_be(1)
                        + seq![c]));
                    assert(b@.subrange(pos as int, pos + 10)[0] == b@[pos as int]);
                    assert(b@[pos as int] == crate::cbor::MAJOR_TSTR);
                    assert forall|i: int| 0 <= i < 8 implies b@.subrange(pos + 1, pos + 9)[i]
                        == crate::bytes::spec_u64_be(1)[i] by {
                        assert(b@.subrange(pos + 1, pos + 9)[i] == b@[pos + 1 + i]);
                        assert(b@.subrange(pos as int, pos + 10)[i + 1] == b@[pos + 1 + i]);
                        assert(key[i + 1] == crate::bytes::spec_u64_be(1)[i]);
                    }
                    assert(b@.subrange(pos + 1, pos + 9) =~= crate::bytes::spec_u64_be(1));
                    crate::bytes::lemma_u64_be_round_trip(1);
                    assert(crate::bytes::spec_u64_from_be(b@.subrange(pos + 1, pos + 9)) == 1);
                }
            }
            Option::None
        },
        Option::Some((v, p)) => {
            if v.len() == 1 && v[0] == c {
                proof {
                    assert(v@ =~= seq![c]);
                }
                Option::Some(p)
            } else {
                proof {
                    if pos + 10 <= b@.len() && b@.subrange(pos as int, pos + 10) == spec_enc_key(
                        c,
                    ) {
                        assert(b@.skip(pos as int) =~= spec_enc_tstr(v@) + b@.skip(p as int));
                        assert(b@.skip(pos as int) =~= spec_enc_tstr(seq![c]) + b@.skip(pos + 10));
                        assert(v@.len() <= u64::MAX);
                        crate::cbor::lemma_tstr_prefix(
                            v@,
                            seq![c],
                            b@.skip(p as int),
                            b@.skip(pos + 10),
                        );
                        assert(v@[0] == c);
                    }
                }
                Option::None
            }
        },
    }
}

/// Two one-letter keys heading the same bytes are the same key.
proof fn lemma_keys_differ(c1: u8, c2: u8, x1: Seq<u8>, x2: Seq<u8>)
    requires
        spec_enc_key(c1) + x1 == spec_enc_key(c2) + x2,
    ensures
        c1 == c2,
{
    crate::cbor::lemma_tstr_prefix(seq![c1], seq![c2], x1, x2);
    assert(seq![c1][0] == seq![c2][0]);
}

/// Two extensions records encoded at the same position agree, as does what
/// follows them.
#[verifier::rlimit(100)]
pub proof fn lemma_ext_prefix(e1: ExtensionsV, e2: ExtensionsV, r1: Seq<u8>, r2: Seq<u8>)
    requires
        ext_wf(e1),
        ext_wf(e2),
        spec_encode_extensions(e1) + r1 == spec_encode_extensions(e2) + r2,
    ensures
        e1 == e2,
        r1 == r2,
{
    lemma_ext_tails(e1);
    lemma_ext_tails(e2);
    assert(spec_enc_head(MAJOR_MAP, spec_ext_count(e1) as u64) + (spec_ext_tail_root(e1) + r1)
        =~= spec_encode_extensions(e1) + r1);
    assert(spec_enc_head(MAJOR_MAP, spec_ext_count(e2) as u64) + (spec_ext_tail_root(e2) + r2)
        =~= spec_encode_extensions(e2) + r2);
    crate::cbor::lemma_head_prefix(
        MAJOR_MAP,
        spec_ext_count(e1) as u64,
        spec_ext_count(e2) as u64,
        spec_ext_tail_root(e1) + r1,
        spec_ext_tail_root(e2) + r2,
    );
    assert(spec_ext_count(e1) == spec_ext_count(e2));
    lemma_ext_fields_prefix(e1, e2, r1, r2);
}

/// The field-by-field alignment behind `lemma_ext_prefix`.
proof fn lemma_ext_fields_prefix(e1: ExtensionsV, e2: ExtensionsV, r1: Seq<u8>, r2: Seq<u8>)
    requires
        ext_wf(e1),
        ext_wf(e2),
        spec_ext_count(e1) == spec_ext_count(e2),
        spec_ext_tail_root(e1) + r1 == spec_ext_tail_root(e2) + r2,
    ensures
        e1 == e2,
        r1 == r2,
{
    lemma_ext_stage_root(e1, e2, r1, r2);
    lemma_ext_stage_owner(e1, e2, r1, r2);
    lemma_ext_stage_path(e1, e2, r1, r2);
    lemma_ext_stage_prune(e1, e2, r1, r2);
}

/// Root stage of the alignment.
#[verifier::rlimit(100)]
proof fn lemma_ext_stage_root(e1: ExtensionsV, e2: ExtensionsV, r1: Seq<u8>, r2: Seq<u8>)
    requires
        ext_wf(e1),
        ext_wf(e2),
        spec_ext_count(e1) == spec_ext_count(e2),
        spec_ext_tail_root(e1) + r1 == spec_ext_tail_root(e2) + r2,
    ensures
        e1.stream_root_hash == e2.stream_root_hash,
        spec_ext_tail_owner(e1) + r1 == spec_ext_tail_owner(e2) + r2,
{
    if e1.stream_root_hash is Some && e2.stream_root_hash is None {
        let v1 = e1.stream_root_hash->Some_0;
        assert(spec_ext_tail_root(e1) + r1 =~= spec_enc_key(KEY_ROOT) + (spec_enc_bstr(v1) + (
        spec_ext_tail_owner(e1) + r1)));
        lemma_ext_first_key_mismatch(e2, KEY_ROOT, spec_enc_bstr(v1) + (spec_ext_tail_owner(e1) + r1), r2);
        assert(spec_ext_count(e1) >= 1);
        assert(false);
    }
    if e1.stream_root_hash is None && e2.stream_root_hash is Some {
        let v2 = e2.stream_root_hash->Some_0;
        assert(spec_ext_tail_root(e2) + r2 =~= spec_enc_key(KEY_ROOT) + (spec_enc_bstr(v2) + (
        spec_ext_tail_owner(e2) + r2)));
        lemma_ext_first_key_mismatch(e1, KEY_ROOT, spec_enc_bstr(v2) + (spec_ext_tail_owner(e2) + r2), r1);
        assert(spec_ext_count(e2) >= 1);
        assert(false);
    }
    match (e1.stream_root_hash, e2.stream_root_hash) {
        (Option::Some(v1), Option::Some(v2)) => {
            assert(spec_ext_tail_root(e1) + r1 =~= spec_enc_key(KEY_ROOT) + (spec_enc_bstr(v1) + (
            spec_ext_tail_owner(e1) + r1)));
            assert(spec_ext_tail_root(e2) + r2 =~= spec_enc_key(KEY_ROOT) + (spec_enc_bstr(v2) + (
            spec_ext_tail_owner(e2) + r2)));
            crate::cbor::lemma_tstr_prefix(
                seq![KEY_ROOT],
                seq![KEY_ROOT],
                spec_enc_bstr(v1) + (spec_ext_tail_owner(e1) + r1),
                spec_enc_bstr(v2) + (spec_ext_tail_owner(e2) + r2),
            );
            crate::cbor::lemma_bstr_prefix(
                v1,
                v2,
                spec_ext_tail_owner(e1) + r1,
                spec_ext_tail_owner(e2) + r2,
            );
        },
        (Option::None, Option::None) => {
            assert(spec_ext_tail_root(e1) + r1 =~= spec_ext_tail_owner(e1) + r1);
            assert(spec_ext_tail_root(e2) + r2 =~= spec_ext_tail_owner(e2) + r2);
        },
        _ => {},
    }
}

/// Owner stage of the alignment.
#[verifier::rlimit(100)]
proof fn lemma_ext_stage_owner(e1: ExtensionsV, e2: ExtensionsV, r1: Seq<u8>, r2: Seq<u8>)
    requires
        ext_wf(e1),
        ext_wf(e2),
        spec_ext_count(e1) == spec_ext_count(e2),
        e1.stream_root_hash == e2.stream_root_hash,
        spec_ext_tail_owner(e1) + r1 == spec_ext_tail_owner(e2) + r2,
    ensures
        e1.stream_owner == e2.stream_owner,
        spec_ext_tail_path(e1) + r1 == spec_ext_tail_path(e2) + r2,
{
    if e1.stream_owner is Some && e2.stream_owner is None {
        let v1 = e1.stream_owner->Some_0;
        assert(spec_ext_tail_owner(e1) + r1 =~= spec_enc_key(KEY_OWNER) + (spec_enc_bstr(v1) + (
        spec_ext_tail_path(e1) + r1)));
        lemma_ext_owner_key_mismatch(e2, spec_enc_bstr(v1) + (spec_ext_tail_path(e1) + r1), r2);
        assert(false);
    }
    if e1.stream_owner is None && e2.stream_owner is Some {
        let v2 = e2.stream_owner->Some_0;
        assert(spec_ext_tail_owner(e2) + r2 =~= spec_enc_key(KEY_OWNER) + (spec_enc_bstr(v2) + (
        spec_ext_tail_path(e2) + r2)));
        lemma_ext_owner_key_mismatch(e1, spec_enc_bstr(v2) + (spec_ext_tail_path(e2) + r2), r1);
        assert(false);
    }
    match (e1.stream_owner, e2.stream_owner) {
        (Option::Some(v1), Option::Some(v2)) => {
            assert(spec_ext_tail_owner(e1) + r1 =~= spec_enc_key(KEY_OWNER) + (spec_enc_bstr(v1)
                + (spec_ext_tail_path(e1) + r1)));
            assert(spec_ext_tail_owner(e2) + r2 =~= spec_enc_key(KEY_OWNER) + (spec_enc_bstr(v2)
                + (spec_ext_tail_path(e2) + r2)));
            crate::cbor::lemma_tstr_prefix(
                seq![KEY_OWNER],
                seq![KEY_OWNER],
                spec_enc_bstr(v1) + (spec_ext_tail_path(e1) + r1),
                spec_enc_bstr(v2) + (spec_ext_tail_path(e2) + r2),
            );
            crate::cbor::lemma_bstr_prefix(
                v1,
                v2,
                spec_ext_tail_path(e1) + r1,
                spec_ext_tail_path(e2) + r2,
            );
        },
        (Option::None, Option::None) => {
            assert(spec_ext_tail_owner(e1) + r1 =~= spec_ext_tail_path(e1) + r1);
            assert(spec_ext_tail_owner(e2) + r2 =~= spec_ext_tail_path(e2) + r2);
        },
        _ => {},
    }
}

/// Path stage of the alignment.
#[verifier::rlimit(100)]
proof fn lemma_ext_stage_path(e1: ExtensionsV, e2: ExtensionsV, r1: Seq<u8>, r2: Seq<u8>)
    requires
        ext_wf(e1),
        ext_wf(e2),
        spec_ext_count(e1) == spec_ext_count(e2),
        e1.stream_root_hash == e2.stream_root_hash,
        e1.stream_owner == e2.stream_owner,
        spec_ext_tail_path(e1) + r1 == spec_ext_tail_path(e2) + r2,
    ensures
        e1.log_path == e2.log_path,
        spec_ext_tail_prune(e1) + r1 == spec_ext_tail_prune(e2) + r2,
{
    if e1.log_path is Some && e2.log_path is None {
        let v1 = e1.log_path->Some_0;
        assert(spec_ext_tail_path(e1) + r1 =~= spec_enc_key(KEY_PATH) + (spec_enc_tstr(v1) + (
        spec_ext_tail_prune(e1) + r1)));
        lemma_ext_path_key_mismatch(e2, spec_enc_tstr(v1) + (spec_ext_tail_prune(e1) + r1), r2);
        assert(false);
    }
    if e1.log_path is None && e2.log_path is Some {
        let v2 = e2.log_path->Some_0;
        assert(spec_ext_tail_path(e2) + r2 =~= spec_enc_key(KEY_PATH) + (spec_enc_tstr(v2) + (
        spec_ext_tail_prune(e2) + r2)));
        lemma_ext_path_key_mismatch(e1, spec_enc_tstr(v2) + (spec_ext_tail_prune(e2) + r2), r1);
        assert(false);
    }
    match (e1.log_path, e2.log_path) {
        (Option::Some(v1), Option::Some(v2)) => {
            assert(spec_ext_tail_path(e1) + r1 =~= spec_enc_key(KEY_PATH) + (spec_enc_tstr(v1) + (
            spec_ext_tail_prune(e1) + r1)));
            assert(spec_ext_tail_path(e2) + r2 =~= spec_enc_key(KEY_PATH) + (spec_enc_tstr(v2) + (
            spec_ext_tail_prune(e2) + r2)));
            crate::cbor::lemma_tstr_prefix(
                seq![KEY_PATH],
                seq![KEY_PATH],
                spec_enc_tstr(v1) + (spec_ext_tail_prune(e1) + r1),
                spec_enc_tstr(v2) + (spec_ext_tail_prune(e2) + r2),
            );
            crate::cbor::lemma_tstr_prefix(
                v1,
                v2,
                spec_ext_tail_prune(e1) + r1,
                spec_ext_tail_prune(e2) + r2,
            );
        },
        (Option::None, Option::None) => {
            assert(spec_ext_tail_path(e1) + r1 =~= spec_ext_tail_prune(e1) + r1);
            assert(spec_ext_tail_path(e2) + r2 =~= spec_ext_tail_prune(e2) + r2);
        },
        _ => {},
    }
}

/// Prune stage of the alignment: presence follows from the equal counts.
#[verifier::rlimit(100)]
proof fn lemma_ext_stage_prune(e1: ExtensionsV, e2: ExtensionsV, r1: Seq<u8>, r2: Seq<u8>)
    requires
        ext_wf(e1),
        ext_wf(e2),
        spec_ext_count(e1) == spec_ext_count(e2),
        e1.stream_root_hash == e2.stream_root_hash,
        e1.stream_owner == e2.stream_owner,
        e1.log_path == e2.log_path,
        spec_ext_tail_prune(e1) + r1 == spec_ext_tail_prune(e2) + r2,
    ensures
        e1 == e2,
        r1 == r2,
{
    assert(e1.prune_flag == e2.prune_flag);
    if e1.prune_flag {
        assert(spec_ext_tail_prune(e1) + r1 =~= spec_enc_key(KEY_PRUNE) + (spec_enc_bool(true)
            + r1));
        assert(spec_ext_tail_prune(e2) + r2 =~= spec_enc_key(KEY_PRUNE) + (spec_enc_bool(true)
            + r2));
        crate::cbor::lemma_tstr_prefix(
            seq![KEY_PRUNE],
            seq![KEY_PRUNE],
            spec_enc_bool(true) + r1,
            spec_enc_bool(true) + r2,
        );
        crate::cbor::lemma_bool_prefix(true, true, r1, r2);
    } else {
        assert(spec_ext_tail_prune(e1) + r1 =~= r1);
        assert(spec_ext_tail_prune(e2) + r2 =~= r2);
    }
}

/// A record with no root hash whose remaining encoding faces a root-keyed
/// field holds no field at all: any present field's key would differ.
proof fn lemma_ext_first_key_mismatch(e: ExtensionsV, c: u8, y: Seq<u8>, r: Seq<u8>)
    requires
        ext_wf(e),
        e.stream_root_hash is None,
        c == KEY_ROOT,
        spec_enc_key(c) + y == spec_ext_tail_root(e) + r,
    ensures
        spec_ext_count(e) == 0,
{
    assert(spec_ext_tail_root(e) + r =~= spec_ext_tail_owner(e) + r);
    match e.stream_owner {
        Option::Some(o) => {
            assert(spec_ext_tail_owner(e) + r =~= spec_enc_key(KEY_OWNER) + (spec_enc_bstr(o) + (
            spec_ext_tail_path(e) + r)));
            lemma_keys_differ(
                c,
                KEY_OWNER,
                y,
                spec_enc_bstr(o) + (spec_ext_tail_path(e) + r),
            );
        },
        Option::None => {
            assert(spec_ext_tail_owner(e) + r =~= spec_ext_tail_path(e) + r);
            match e.log_path {
                Option::Some(p) => {
                    assert(spec_ext_tail_path(e) + r =~= spec_enc_key(KEY_PATH) + (spec_enc_tstr(p)
                        + (spec_ext_tail_prune(e) + r)));
                    lemma_keys_differ(
                        c,
                        KEY_PATH,
                        y,
                        spec_enc_tstr(p) + (spec_ext_tail_prune(e) + r),
                    );
                },
                Option::None => {
                    assert(spec_ext_tail_path(e) + r =~= spec_ext_tail_prune(e) + r);
                    if e.prune_flag {
                        assert(spec_ext_tail_prune(e) + r =~= spec_enc_key(KEY_PRUNE) + (
                        spec_enc_bool(true) + r));
                        lemma_keys_differ(
                            c,
                            KEY_PRUNE,
                            y,
                            spec_enc_bool(true) + r,
                        );
                    } else {
                        assert(spec_ext_count(e) == 0);
                    }
                },
            }
        },
    }
}

/// As `lemma_ext_first_key_mismatch`, for the owner stage: no later field
/// is present either.
proof fn lemma_ext_owner_key_mismatch(e: ExtensionsV, y: Seq<u8>, r: Seq<u8>)
    requires
        ext_wf(e),
        e.stream_owner is None,
        spec_enc_key(KEY_OWNER) + y == spec_ext_tail_owner(e) + r,
    ensures
        e.log_path is None,
        !e.prune_flag,
{
    assert(spec_ext_tail_owner(e) + r =~= spec_ext_tail_path(e) + r);
    match e.log_path {
        Option::Some(p) => {
            assert(spec_ext_tail_path(e) + r =~= spec_enc_key(KEY_PATH) + (spec_enc_tstr(p) + (
            spec_ext_tail_prune(e) + r)));
            lemma_keys_differ(
                KEY_OWNER,
                KEY_PATH,
                y,
                spec_enc_tstr(p) + (spec_ext_tail_prune(e) + r),
            );
        },
        Option::None => {
            assert(spec_ext_tail_path(e) + r =~= spec_ext_tail_prune(e) + r);
            if e.prune_flag {
                assert(spec_ext_tail_prune(e) + r =~= spec_enc_key(KEY_PRUNE) + (spec_enc_bool(
                    true,
                ) + r));
                lemma_keys_differ(
                    KEY_OWNER,
                    KEY_PRUNE,
                    y,
                    spec_enc_bool(true) + r,
                );
            }
        },
    }
}

/// As `lemma_ext_first_key_mismatch`, for the path stage: the prune flag
/// is clear too.
proof fn lemma_ext_path_key_mismatch(e: ExtensionsV, y: Seq<u8>, r: Seq<u8>)
    requires
        ext_wf(e),
        e.log_path is None,
        spec_enc_key(KEY_PATH) + y == spec_ext_tail_path(e) + r,
    ensures
        !e.prune_flag,
{
    assert(spec_ext_tail_path(e) + r =~= spec_ext_tail_prune(e) + r);
    if e.prune_flag {
        assert(spec_ext_tail_prune(e) + r =~= spec_enc_key(KEY_PRUNE) + (spec_enc_bool(true) + r));
        lemma_keys_differ(KEY_PATH, KEY_PRUNE, y, spec_enc_bool(true) + r);
    }
}


/// An extensions record with no present field encodes to the empty field
/// area.
proof fn lemma_ext_empty(e: ExtensionsV)
    requires
        spec_ext_count(e) == 0,
    ensures
        spec_ext_tail_root(e) == Seq::<u8>::empty(),
{
    assert(e.stream_root_hash is None && e.stream_owner is None && e.log_path is None
        && !e.prune_flag);
    assert(spec_ext_tail_root(e) =~= Seq::<u8>::empty());
}

/// What a suffix beginning with a one-letter key and its value implies.
proof fn lemma_key_value_at(b: Seq<u8>, pos: int, c: u8, tail: Seq<u8>)
    requires
        0 <= pos <= b.len(),
        b.subrange(pos, b.len() as int) == spec_enc_key(c) + tail,
    ensures
        pos + 10 <= b.len(),
        b.subrange(pos, pos + 10) == spec_enc_key(c),
        b.subrange(pos + 10, b.len() as int) == tail,
{
    assert(b.subrange(pos, b.len() as int) =~= spec_enc_tstr(seq![c]) + tail);
    crate::cbor::lemma_tstr_at(b, pos, seq![c], tail);
    assert(b.subrange(pos, pos + 10) =~= spec_enc_key(c)) by {
        let suf = b.subrange(pos, b.len() as int);
        assert(spec_enc_key(c).len() == 10);
        assert forall|i: int| 0 <= i < 10 implies b.subrange(pos, pos + 10)[i] == spec_enc_key(
            c,
        )[i] by {
            assert(b.subrange(pos, pos + 10)[i] == b[pos + i]);
            assert(b[pos + i] == suf[i]);
            assert(suf[i] == (spec_enc_key(c) + tail)[i]);
        }
    }
    assert(b.subrange(pos + 10, b.len() as int) =~= tail) by {
        let suf = b.subrange(pos, b.len() as int);
        assert forall|i: int| 0 <= i < tail.len() implies b.subrange(pos + 10, b.len() as int)[i]
            == tail[i] by {
            assert(b.subrange(pos + 10, b.len() as int)[i] == b[pos + 10 + i]);
            assert(b[pos + 10 + i] == suf[10 + i]);
            assert(suf[10 + i] == (spec_enc_key(c) + tail)[10 + i]);
        }
    }
}

/// Decodes an extensions record at `pos`. Succeeds exactly on the
/// canonical map form of a well-formed record filling the rest of the
/// bytes, and then returns exactly the encoded record.
#[verifier::rlimit(100)]
fn decode_extensions(b: &[u8], pos: usize) -> (r: Option<(Extensions, usize)>)
    requires
        pos <= b@.len(),
    ensures
        r matches Option::Some(x) ==> {
            &&& pos < x.1 <= b@.len()
            &&& b@.subrange(pos as int, x.1 as int) =~= spec_encode_extensions(x.0@)
            &&& ext_wf(x.0@)
        },
        r is None ==> forall|e: ExtensionsV|
            ext_wf(e) ==> b@.subrange(pos as int, b@.len() as int)
                != #[trigger] spec_encode_extensions(e),
{
    let ghost bl = b@.len() as int;
    let (m, p0) = match crate::cbor::read_head(b, pos, MAJOR_MAP) {
        Option::None => {
            proof {
                assert forall|e: ExtensionsV| ext_wf(e) implies b@.subrange(pos as int, bl)
                    != #[trigger] spec_encode_extensions(e) by {
                    if b@.subrange(pos as int, bl) == spec_encode_extensions(e) {
                        lemma_ext_tails(e);
                        assert(b@.subrange(pos as int, bl) =~= spec_enc_head(
                            MAJOR_MAP,
                            spec_ext_count(e) as u64,
                        ) + spec_ext_tail_root(e));
                        crate::cbor::lemma_head_at(
                            b@,
                            pos as int,
                            MAJOR_MAP,
                            spec_ext_count(e) as u64,
                            spec_ext_tail_root(e),
                        );
                    }
                }
            }
            return Option::None;
        },
        Option::Some(x) => x,
    };
    proof {
        assert forall|e: ExtensionsV|
            ext_wf(e) && b@.subrange(pos as int, bl) == #[trigger] spec_encode_extensions(
                e,
            ) implies (m == spec_ext_count(e) && b@.subrange(p0 as int, bl)
            == spec_ext_tail_root(e)) by {
            lemma_ext_tails(e);
            assert(b@.subrange(pos as int, bl) =~= spec_enc_head(
                MAJOR_MAP,
                spec_ext_count(e) as u64,
            ) + spec_ext_tail_root(e));
            assert(b@.subrange(pos as int, bl) =~= spec_enc_head(MAJOR_MAP, m) + b@.subrange(
                p0 as int,
                bl,
            ));
            crate::cbor::lemma_head_prefix(
                MAJOR_MAP,
                m,
                spec_ext_count(e) as u64,
                b@.subrange(p0 as int, bl),
                spec_ext_tail_root(e),
            );
        }
    }
    let (stream_root_hash, stream_owner, p2) = match decode_ext_first(b, pos, p0) {
        Option::None => {
            return Option::None;
        },
        Option::Some(x) => x,
    };
    let (log_path, prune_flag, p4) = match decode_ext_second(b, pos, p0, p2) {
        Option::None => {
            return Option::None;
        },
        Option::Some(x) => x,
    };
    let mut count: u64 = 0;
    if stream_root_hash.is_some() {
        count += 1;
    }
    if stream_owner.is_some() {
        count += 1;
    }
    if log_path.is_some() {
        count += 1;
    }
    if prune_flag {
        count += 1;
    }
    if count != m {
        proof {
            assert forall|e: ExtensionsV|
                ext_wf(e) && b@.subrange(pos as int, bl) == #[trigger] spec_encode_extensions(
                    e,
                ) implies false by {
                assert(count == spec_ext_count(e));
            }
        }
        return Option::None;
    }
    let e = Extensions { stream_root_hash, stream_owner, log_path, prune_flag };
    proof {
        assert(count == spec_ext_count(e@));
        assert(b@.subrange(pos as int, p0 as int) =~= spec_enc_head(
            MAJOR_MAP,
            spec_ext_count(e@) as u64,
        ));
        lemma_ext_tails(e@);
        assert(b@.subrange(pos as int, p4 as int) =~= b@.subrange(pos as int, p0 as int) + (
        b@.subrange(p0 as int, p2 as int) + b@.subrange(p2 as int, p4 as int)));
        assert(spec_ext_tail_root(e@) =~= (match e@.stream_root_hash {
            Option::None => Seq::<u8>::empty(),
            Option::Some(h) => spec_enc_key(KEY_ROOT) + spec_enc_bstr(h),
        }) + ((match e@.stream_owner {
            Option::None => Seq::<u8>::empty(),
            Option::Some(o) => spec_enc_key(KEY_OWNER) + spec_enc_bstr(o),
        }) + spec_ext_tail_path(e@)));
        assert(b@.subrange(p0 as int, p2 as int) =~= (match e@.stream_root_hash {
            Option::None => Seq::<u8>::empty(),
            Option::Some(h) => spec_enc_key(KEY_ROOT) + spec_enc_bstr(h),
        }) + (match e@.stream_owner {
            Option::None => Seq::<u8>::empty(),
            Option::Some(o) => spec_enc_key(KEY_OWNER) + spec_enc_bstr(o),
        }));
        assert(b@.subrange(p2 as int, p4 as int) =~= (match e@.log_path {
            Option::None => Seq::<u8>::empty(),
            Option::Some(p) => spec_enc_key(KEY_PATH) + spec_enc_tstr(p),
        }) + spec_ext_tail_prune(e@));
        assert(spec_ext_tail_path(e@) =~= (match e@.log_path {
            Option::None => Seq::<u8>::empty(),
            Option::Some(p) => spec_enc_key(KEY_PATH) + spec_enc_tstr(p),
        }) + spec_ext_tail_prune(e@));
        assert(b@.subrange(pos as int, p4 as int) =~= spec_encode_extensions(e@));
    }
    Option::Some((e, p4))
}

/// The root-hash and owner stages of extensions decoding.
#[verifier::rlimit(100)]
fn decode_ext_first(b: &[u8], pos: usize, p0: usize) -> (r: Option<
    (Option<crate::extensions::StreamRootHash>, Option<crate::extensions::StreamOwner>, usize),
>)
    requires
        pos <= p0 <= b@.len(),
        forall|e: ExtensionsV|
            ext_wf(e) && b@.subrange(pos as int, b@.len() as int)
                == #[trigger] spec_encode_extensions(e) ==> b@.subrange(p0 as int, b@.len() as int)
                == spec_ext_tail_root(e),
    ensures
        r is None ==> forall|e: ExtensionsV|
            ext_wf(e) ==> b@.subrange(pos as int, b@.len() as int)
                != #[trigger] spec_encode_extensions(e),
        r matches Option::Some(x) ==> {
            &&& p0 <= x.2 <= b@.len()
            &&& (x.0 matches Option::Some(v) ==> v@.len() == HASH_LEN)
            &&& (x.1 matches Option::Some(v) ==> v@.len() == KEY_LEN)
            &&& b@.subrange(p0 as int, x.2 as int) =~= (match x.0 {
                Option::None => Seq::<u8>::empty(),
                Option::Some(v) => spec_enc_key(KEY_ROOT) + spec_enc_bstr(v@),
            }) + (match x.1 {
                Option::None => Seq::<u8>::empty(),
                Option::Some(v) => spec_enc_key(KEY_OWNER) + spec_enc_bstr(v@),
            })
            &&& forall|e: ExtensionsV|
                ext_wf(e) && b@.subrange(pos as int, b@.len() as int)
                    == #[trigger] spec_encode_extensions(e) ==> ((match x.0 {
                    Option::None => e.stream_root_hash is None,
                    Option::Some(v) => e.stream_root_hash == Option::Some(v@),
                }) && (match x.1 {
                    Option::None => e.stream_owner is None,
                    Option::Some(v) => e.stream_owner == Option::Some(v@),
                }) && b@.subrange(x.2 as int, b@.len() as int) == spec_ext_tail_path(e))
        },
{
    let (stream_root_hash, p1) = match decode_ext_root(b, pos, p0) {
        Option::None => {
            return Option::None;
        },
        Option::Some(x) => x,
    };
    let (stream_owner, p2) = match decode_ext_owner(b, pos, p1) {
        Option::None => {
            return Option::None;
        },
        Option::Some(x) => x,
    };
    proof {
        assert(b@.subrange(p0 as int, p2 as int) =~= b@.subrange(p0 as int, p1 as int)
            + b@.subrange(p1 as int, p2 as int));
    }
    Option::Some((stream_root_hash, stream_owner, p2))
}

/// The root-hash stage of extensions decoding.
#[verifier::rlimit(100)]
fn decode_ext_root(b: &[u8], pos: usize, p0: usize) -> (r: Option<
    (Option<crate::extensions::StreamRootHash>, usize),
>)
    requires
        pos <= p0 <= b@.len(),
        forall|e: ExtensionsV|
            ext_wf(e) && b@.subrange(pos as int, b@.len() as int)
                == #[trigger] spec_encode_extensions(e) ==> b@.subrange(p0 as int, b@.len() as int)
                == spec_ext_tail_root(e),
    ensures
        r is None ==> forall|e: ExtensionsV|
            ext_wf(e) ==> b@.subrange(pos as int, b@.len() as int)
                != #[trigger] spec_encode_extensions(e),
        r matches Option::Some(x) ==> {
            &&& p0 <= x.1 <= b@.len()
            &&& (x.0 matches Option::Some(v) ==> v@.len() == HASH_LEN)
            &&& b@.subrange(p0 as int, x.1 as int) =~= (match x.0 {
                Option::None => Seq::<u8>::empty(),
                Option::Some(v) => spec_enc_key(KEY_ROOT) + spec_enc_bstr(v@),
            })
            &&& forall|e: ExtensionsV|
                ext_wf(e) && b@.subrange(pos as int, b@.len() as int)
                    == #[trigger] spec_encode_extensions(e) ==> ((match x.0 {
                    Option::None => e.stream_root_hash is None,
                    Option::Some(v) => e.stream_root_hash == Option::Some(v@),
                }) && b@.subrange(x.1 as int, b@.len() as int) == spec_ext_tail_owner(e))
        },
{
    let ghost bl = b@.len() as int;
    // Root hash field.
    let key_root = read_key(b, p0, KEY_ROOT);
    proof {
        assert forall|e: ExtensionsV|
            ext_wf(e) && b@.subrange(pos as int, bl) == #[trigger] spec_encode_extensions(
                e,
            ) implies (match key_root {
            Option::Some(pk) => e.stream_root_hash is Some && b@.subrange(pk as int, bl)
                == spec_enc_bstr(e.stream_root_hash->Some_0) + spec_ext_tail_owner(e),
            Option::None => e.stream_root_hash is None && b@.subrange(p0 as int, bl)
                == spec_ext_tail_owner(e),
        }) by {
            match key_root {
                Option::Some(pk) => {
                    assert(b@.subrange(p0 as int, bl) =~= spec_enc_key(KEY_ROOT) + b@.subrange(
                        pk as int,
                        bl,
                    ));
                    if e.stream_root_hash is None {
                        lemma_ext_first_key_mismatch(
                            e,
                            KEY_ROOT,
                            b@.subrange(pk as int, bl),
                            Seq::<u8>::empty(),
                        );
                        lemma_ext_empty(e);
                        assert(b@.subrange(p0 as int, bl).len() == 0);
                        assert(false);
                    }
                    let re = e.stream_root_hash->Some_0;
                    assert(spec_ext_tail_root(e) =~= spec_enc_key(KEY_ROOT) + (spec_enc_bstr(re)
                        + spec_ext_tail_owner(e)));
                    crate::cbor::lemma_concat_eq_parts(
                        spec_enc_key(KEY_ROOT),
                        b@.subrange(pk as int, bl),
                        spec_enc_key(KEY_ROOT),
                        spec_enc_bstr(re) + spec_ext_tail_owner(e),
                    );
                },
                Option::None => {
                    if e.stream_root_hash is Some {
                        let re = e.stream_root_hash->Some_0;
                        assert(b@.subrange(p0 as int, bl) =~= spec_enc_key(KEY_ROOT) + (
                        spec_enc_bstr(re) + spec_ext_tail_owner(e)));
                        lemma_key_value_at(
                            b@,
                            p0 as int,
                            KEY_ROOT,
                            spec_enc_bstr(re) + spec_ext_tail_owner(e),
                        );
                        assert(false);
                    }
                    assert(b@.subrange(p0 as int, bl) =~= spec_ext_tail_owner(e));
                },
            }
        }
    }
    let (stream_root_hash, p1): (Option<crate::extensions::StreamRootHash>, usize) =
        match key_root {
        Option::Some(pk) => match crate::cbor::read_bstr(b, pk) {
            Option::Some((v, pv)) => {
                if v.len() != HASH_LEN {
                    proof {
                        root_value_refutation(b@, pos as int, pk as int, pv as int, v@);
                    }
                    return Option::None;
                }
                assert(b@.subrange(p0 as int, pv as int) =~= spec_enc_key(KEY_ROOT)
                    + spec_enc_bstr(v@));
                (Option::Some(crate::extensions::StreamRootHash { bytes: v }), pv)
            },
            Option::None => {
                proof {
                    assert forall|e: ExtensionsV|
                        ext_wf(e) && b@.subrange(pos as int, bl)
                            == #[trigger] spec_encode_extensions(e) implies false by {
                        let re = e.stream_root_hash->Some_0;
                        crate::cbor::lemma_bstr_at(
                            b@,
                            pk as int,
                            re,
                            spec_ext_tail_owner(e),
                        );
                    }
                }
                return Option::None;
            },
        },
        Option::None => (Option::None, p0),
    };
    proof {
        assert forall|e: ExtensionsV|
            ext_wf(e) && b@.subrange(pos as int, bl) == #[trigger] spec_encode_extensions(
                e,
            ) implies ((match stream_root_hash {
            Option::Some(ref v) => e.stream_root_hash == Option::Some(v@),
            Option::None => e.stream_root_hash is None,
        }) && b@.subrange(p1 as int, bl) == spec_ext_tail_owner(e)) by {
            match stream_root_hash {
                Option::Some(ref v) => {
                    let pk = key_root->Some_0;
                    assert(b@.subrange(pk as int, bl) =~= spec_enc_bstr(v@) + b@.subrange(
                        p1 as int,
                        bl,
                    ));
                    crate::cbor::lemma_bstr_prefix(
                        v@,
                        e.stream_root_hash->Some_0,
                        b@.subrange(p1 as int, bl),
                        spec_ext_tail_owner(e),
                    );
                },
                Option::None => {},
            }
        }
    }
    proof {
        match stream_root_hash {
            Option::Some(ref v) => {
                assert(b@.subrange(p0 as int, p1 as int) =~= spec_enc_key(KEY_ROOT)
                    + spec_enc_bstr(v@));
            },
            Option::None => {
                assert(b@.subrange(p0 as int, p1 as int) =~= Seq::<u8>::empty());
            },
        }
    }
    Option::Some((stream_root_hash, p1))
}

/// The owner stage of extensions decoding.
#[verifier::rlimit(100)]
fn decode_ext_owner(b: &[u8], pos: usize, p1: usize) -> (r: Option<
    (Option<crate::extensions::StreamOwner>, usize),
>)
    requires
        pos <= p1 <= b@.len(),
        forall|e: ExtensionsV|
            ext_wf(e) && b@.subrange(pos as int, b@.len() as int)
                == #[trigger] spec_encode_extensions(e) ==> b@.subrange(p1 as int, b@.len() as int)
                == spec_ext_tail_owner(e),
    ensures
        r is None ==> forall|e: ExtensionsV|
            ext_wf(e) ==> b@.subrange(pos as int, b@.len() as int)
                != #[trigger] spec_encode_extensions(e),
        r matches Option::Some(x) ==> {
            &&& p1 <= x.1 <= b@.len()
            &&& (x.0 matches Option::Some(v) ==> v@.len() == KEY_LEN)
            &&& b@.subrange(p1 as int, x.1 as int) =~= (match x.0 {
                Option::None => Seq::<u8>::empty(),
                Option::Some(v) => spec_enc_key(KEY_OWNER) + spec_enc_bstr(v@),
            })
            &&& forall|e: ExtensionsV|
                ext_wf(e) && b@.subrange(pos as int, b@.len() as int)
                    == #[trigger] spec_encode_extensions(e) ==> ((match x.0 {
                    Option::None => e.stream_owner is None,
                    Option::Some(v) => e.stream_owner == Option::Some(v@),
                }) && b@.subrange(x.1 as int, b@.len() as int) == spec_ext_tail_path(e))
        },
{
    let ghost bl = b@.len() as int;
    // Owner field.
    let key_owner = read_key(b, p1, KEY_OWNER);
    proof {
        assert forall|e: ExtensionsV|
            ext_wf(e) && b@.subrange(pos as int, bl) == #[trigger] spec_encode_extensions(
                e,
            ) implies (match key_owner {
            Option::Some(pk) => e.stream_owner is Some && b@.subrange(pk as int, bl)
                == spec_enc_bstr(e.stream_owner->Some_0) + spec_ext_tail_path(e),
            Option::None => e.stream_owner is None && b@.subrange(p1 as int, bl)
                == spec_ext_tail_path(e),
        }) by {
            match key_owner {
                Option::Some(pk) => {
                    assert(b@.subrange(p1 as int, bl) =~= spec_enc_key(KEY_OWNER) + b@.subrange(
                        pk as int,
                        bl,
                    ));
                    if e.stream_owner is None {
                        lemma_ext_owner_key_mismatch(
                            e,
                            b@.subrange(pk as int, bl),
                            Seq::<u8>::empty(),
                        );
                        assert(spec_ext_tail_owner(e) =~= Seq::<u8>::empty());
                        assert(b@.subrange(p1 as int, bl).len() == 0);
                        assert(false);
                    }
                    let oe = e.stream_owner->Some_0;
                    assert(spec_ext_tail_owner(e) =~= spec_enc_key(KEY_OWNER) + (spec_enc_bstr(oe)
                        + spec_ext_tail_path(e)));
                    crate::cbor::lemma_concat_eq_parts(
                        spec_enc_key(KEY_OWNER),
                        b@.subrange(pk as int, bl),
                        spec_enc_key(KEY_OWNER),
                        spec_enc_bstr(oe) + spec_ext_tail_path(e),
                    );
                },
                Option::None => {
                    if e.stream_owner is Some {
                        let oe = e.stream_owner->Some_0;
                        assert(b@.subrange(p1 as int, bl) =~= spec_enc_key(KEY_OWNER) + (
                        spec_enc_bstr(oe) + spec_ext_tail_path(e)));
                        lemma_key_value_at(
                            b@,
                            p1 as int,
                            KEY_OWNER,
                            spec_enc_bstr(oe) + spec_ext_tail_path(e),
                        );
                        assert(false);
                    }
                    assert(b@.subrange(p1 as int, bl) =~= spec_ext_tail_path(e));
                },
            }
        }
    }
    let (stream_owner, p2): (Option<crate::extensions::StreamOwner>, usize) = match key_owner {
        Option::Some(pk) => match crate::cbor::read_bstr(b, pk) {
            Option::Some((v, pv)) => {
                if v.len() != KEY_LEN {
                    proof {
                        assert forall|e: ExtensionsV|
                            ext_wf(e) && b@.subrange(pos as int, bl)
                                == #[trigger] spec_encode_extensions(e) implies false by {
                            let oe = e.stream_owner->Some_0;
                            assert(b@.subrange(pk as int, bl) =~= spec_enc_bstr(v@) + b@.subrange(
                                pv as int,
                                bl,
                            ));
                            crate::cbor::lemma_bstr_prefix(
                                v@,
                                oe,
                                b@.subrange(pv as int, bl),
                                spec_ext_tail_path(e),
                            );
                        }
                    }
                    return Option::None;
                }
                assert(b@.subrange(p1 as int, pv as int) =~= spec_enc_key(KEY_OWNER)
                    + spec_enc_bstr(v@));
                (Option::Some(crate::extensions::StreamOwner { bytes: v }), pv)
            },
            Option::None => {
                proof {
                    assert forall|e: ExtensionsV|
                        ext_wf(e) && b@.subrange(pos as int, bl)
                            == #[trigger] spec_encode_extensions(e) implies false by {
                        let oe = e.stream_owner->Some_0;
                        crate::cbor::lemma_bstr_at(b@, pk as int, oe, spec_ext_tail_path(e));
                    }
                }
                return Option::None;
            },
        },
        Option::None => (Option::None, p1),
    };
    proof {
        assert forall|e: ExtensionsV|
            ext_wf(e) && b@.subrange(pos as int, bl) == #[trigger] spec_encode_extensions(
                e,
            ) implies ((match stream_owner {
            Option::Some(ref v) => e.stream_owner == Option::Some(v@),
            Option::None => e.stream_owner is None,
        }) && b@.subrange(p2 as int, bl) == spec_ext_tail_path(e)) by {
            match stream_owner {
                Option::Some(ref v) => {
                    let pk = key_owner->Some_0;
                    assert(b@.subrange(pk as int, bl) =~= spec_enc_bstr(v@) + b@.subrange(
                        p2 as int,
                        bl,
                    ));
                    crate::cbor::lemma_bstr_prefix(
                        v@,
                        e.stream_owner->Some_0,
                        b@.subrange(p2 as int, bl),
                        spec_ext_tail_path(e),
                    );
                },
                Option::None => {},
            }
        }
    }
    proof {
        match stream_owner {
            Option::Some(ref v) => {
                assert(b@.subrange(p1 as int, p2 as int) =~= spec_enc_key(KEY_OWNER)
                    + spec_enc_bstr(v@));
            },
            Option::None => {
                assert(b@.subrange(p1 as int, p2 as int) =~= Seq::<u8>::empty());
            },
        }
    }
    Option::Some((stream_owner, p2))
}

/// The log-path and prune-flag stages of extensions decoding.
#[verifier::rlimit(100)]
fn decode_ext_second(b: &[u8], pos: usize, p0: usize, p2: usize) -> (r: Option<
    (Option<crate::extensions::LogPath>, bool, usize),
>)
    requires
        pos <= p0 <= p2 <= b@.len(),
        forall|e: ExtensionsV|
            ext_wf(e) && b@.subrange(pos as int, b@.len() as int)
                == #[trigger] spec_encode_extensions(e) ==> b@.subrange(p2 as int, b@.len() as int)
                == spec_ext_tail_path(e),
    ensures
        r is None ==> forall|e: ExtensionsV|
            ext_wf(e) ==> b@.subrange(pos as int, b@.len() as int)
                != #[trigger] spec_encode_extensions(e),
        r matches Option::Some(x) ==> {
            &&& p2 <= x.2 <= b@.len()
            &&& b@.subrange(p2 as int, x.2 as int) =~= (match x.0 {
                Option::None => Seq::<u8>::empty(),
                Option::Some(v) => spec_enc_key(KEY_PATH) + spec_enc_tstr(v@),
            }) + (if x.1 {
                spec_enc_key(KEY_PRUNE) + spec_enc_bool(true)
            } else {
                Seq::<u8>::empty()
            })
            &&& forall|e: ExtensionsV|
                ext_wf(e) && b@.subrange(pos as int, b@.len() as int)
                    == #[trigger] spec_encode_extensions(e) ==> ((match x.0 {
                    Option::None => e.log_path is None,
                    Option::Some(v) => e.log_path == Option::Some(v@),
                }) && e.prune_flag == x.1 && x.2 == b@.len())
        },
{
    let ghost bl = b@.len() as int;
    // Log path field.
    let key_path = read_key(b, p2, KEY_PATH);
    proof {
        assert forall|e: ExtensionsV|
            ext_wf(e) && b@.subrange(pos as int, bl) == #[trigger] spec_encode_extensions(
                e,
            ) implies (match key_path {
            Option::Some(pk) => e.log_path is Some && b@.subrange(pk as int, bl) == spec_enc_tstr(
                e.log_path->Some_0,
            ) + spec_ext_tail_prune(e),
            Option::None => e.log_path is None && b@.subrange(p2 as int, bl)
                == spec_ext_tail_prune(e),
        }) by {
            match key_path {
                Option::Some(pk) => {
                    assert(b@.subrange(p2 as int, bl) =~= spec_enc_key(KEY_PATH) + b@.subrange(
                        pk as int,
                        bl,
                    ));
                    if e.log_path is None {
                        lemma_ext_path_key_mismatch(
                            e,
                            b@.subrange(pk as int, bl),
                            Seq::<u8>::empty(),
                        );
                        assert(spec_ext_tail_path(e) =~= Seq::<u8>::empty());
                        assert(b@.subrange(p2 as int, bl).len() == 0);
                        assert(false);
                    }
                    let pe = e.log_path->Some_0;
                    assert(spec_ext_tail_path(e) =~= spec_enc_key(KEY_PATH) + (spec_enc_tstr(pe)
                        + spec_ext_tail_prune(e)));
                    crate::cbor::lemma_concat_eq_parts(
                        spec_enc_key(KEY_PATH),
                        b@.subrange(pk as int, bl),
                        spec_enc_key(KEY_PATH),
                        spec_enc_tstr(pe) + spec_ext_tail_prune(e),
                    );
                },
                Option::None => {
                    if e.log_path is Some {
                        let pe = e.log_path->Some_0;
                        assert(b@.subrange(p2 as int, bl) =~= spec_enc_key(KEY_PATH) + (
                        spec_enc_tstr(pe) + spec_ext_tail_prune(e)));
                        lemma_key_value_at(
                            b@,
                            p2 as int,
                            KEY_PATH,
                            spec_enc_tstr(pe) + spec_ext_tail_prune(e),
                        );
                        assert(false);
                    }
                    assert(b@.subrange(p2 as int, bl) =~= spec_ext_tail_prune(e));
                },
            }
        }
    }
    let (log_path, p3): (Option<crate::extensions::LogPath>, usize) = match key_path {
        Option::Some(pk) => match crate::cbor::read_tstr(b, pk) {
            Option::Some((v, pv)) => {
                assert(b@.subrange(p2 as int, pv as int) =~= spec_enc_key(KEY_PATH)
                    + spec_enc_tstr(v@));
                (Option::Some(crate::extensions::LogPath { bytes: v }), pv)
            },
            Option::None => {
                proof {
                    assert forall|e: ExtensionsV|
                        ext_wf(e) && b@.subrange(pos as int, bl)
                            == #[trigger] spec_encode_extensions(e) implies false by {
                        let pe = e.log_path->Some_0;
                        crate::cbor::lemma_tstr_at(b@, pk as int, pe, spec_ext_tail_prune(e));
                    }
                }
                return Option::None;
            },
        },
        Option::None => (Option::None, p2),
    };
    proof {
        assert forall|e: ExtensionsV|
            ext_wf(e) && b@.subrange(pos as int, bl) == #[trigger] spec_encode_extensions(
                e,
            ) implies ((match log_path {
            Option::Some(ref v) => e.log_path == Option::Some(v@),
            Option::None => e.log_path is None,
        }) && b@.subrange(p3 as int, bl) == spec_ext_tail_prune(e)) by {
            match log_path {
                Option::Some(ref v) => {
                    let pk = key_path->Some_0;
                    assert(b@.subrange(pk as int, bl) =~= spec_enc_tstr(v@) + b@.subrange(
                        p3 as int,
                        bl,
                    ));
                    assert(v@.len() <= u64::MAX);
                    crate::cbor::lemma_tstr_prefix(
                        v@,
                        e.log_path->Some_0,
                        b@.subrange(p3 as int, bl),
                        spec_ext_tail_prune(e),
                    );
                },
                Option::None => {},
            }
        }
    }
    // Prune flag.
    let key_prune = read_key(b, p3, KEY_PRUNE);
    proof {
        assert forall|e: ExtensionsV|
            ext_wf(e) && b@.subrange(pos as int, bl) == #[trigger] spec_encode_extensions(
                e,
            ) implies (match key_prune {
            Option::Some(pk) => e.prune_flag && b@.subrange(pk as int, bl) == spec_enc_bool(true),
            Option::None => !e.prune_flag && b@.subrange(p3 as int, bl) == Seq::<u8>::empty(),
        }) by {
            match key_prune {
                Option::Some(pk) => {
                    assert(b@.subrange(p3 as int, bl) =~= spec_enc_key(KEY_PRUNE) + b@.subrange(
                        pk as int,
                        bl,
                    ));
                    if !e.prune_flag {
                        assert(spec_ext_tail_prune(e) =~= Seq::<u8>::empty());
                        assert(b@.subrange(p3 as int, bl).len() == 0);
                        assert(false);
                    }
                    assert(spec_ext_tail_prune(e) =~= spec_enc_key(KEY_PRUNE) + spec_enc_bool(
                        true,
                    ));
                    crate::cbor::lemma_concat_eq_parts(
                        spec_enc_key(KEY_PRUNE),
                        b@.subrange(pk as int, bl),
                        spec_enc_key(KEY_PRUNE),
                        spec_enc_bool(true),
                    );
                },
                Option::None => {
                    if e.prune_flag {
                        assert(b@.subrange(p3 as int, bl) =~= spec_enc_key(KEY_PRUNE) + (
                        spec_enc_bool(true) + Seq::<u8>::empty()));
                        lemma_key_value_at(
                            b@,
                            p3 as int,
                            KEY_PRUNE,
                            spec_enc_bool(true) + Seq::<u8>::empty(),
                        );
                        assert(false);
                    }
                    assert(b@.subrange(p3 as int, bl) =~= spec_ext_tail_prune(e));
                },
            }
        }
    }
    let (prune_flag, p4): (bool, usize) = match key_prune {
        Option::Some(pk) => match crate::cbor::read_bool(b, pk) {
            Option::Some((v, pv)) => {
                if !v {
                    proof {
                        assert forall|e: ExtensionsV|
                            ext_wf(e) && b@.subrange(pos as int, bl)
                                == #[trigger] spec_encode_extensions(e) implies false by {
                            assert(b@.subrange(pk as int, pv as int) =~= spec_enc_bool(false));
                            assert(b@.subrange(pk as int, pv as int)[0] == b@[pk as int]);
                            assert(spec_enc_bool(false)[0] == crate::cbor::SIMPLE_FALSE);
                            assert(b@.subrange(pk as int, bl)[0] == b@[pk as int]);
                            assert(spec_enc_bool(true)[0] == crate::cbor::SIMPLE_TRUE);
                        }
                    }
                    return Option::None;
                }
                assert(b@.subrange(p3 as int, pv as int) =~= spec_enc_key(KEY_PRUNE)
                    + spec_enc_bool(true));
                (true, pv)
            },
            Option::None => {
                proof {
                    assert forall|e: ExtensionsV|
                        ext_wf(e) && b@.subrange(pos as int, bl)
                            == #[trigger] spec_encode_extensions(e) implies false by {
                        assert(b@.subrange(pk as int, bl)[0] == b@[pk as int]);
                        assert(spec_enc_bool(true)[0] == crate::cbor::SIMPLE_TRUE);
                        assert(b@[pk as int] == crate::cbor::SIMPLE_TRUE);
                        assert(pk < b@.len());
                    }
                }
                return Option::None;
            },
        },
        Option::None => (false, p3),
    };
    proof {
        assert forall|e: ExtensionsV|
            ext_wf(e) && b@.subrange(pos as int, bl) == #[trigger] spec_encode_extensions(
                e,
            ) implies (e.prune_flag == prune_flag && b@.subrange(p4 as int, bl)
            == Seq::<u8>::empty() && p4 == b@.len()) by {
            if prune_flag {
                let pk = key_prune->Some_0;
                assert(b@.subrange(pk as int, bl) =~= spec_enc_bool(true) + b@.subrange(
                    p4 as int,
                    bl,
                ));
                crate::cbor::lemma_bool_prefix(
                    true,
                    true,
                    b@.subrange(p4 as int, bl),
                    Seq::<u8>::empty(),
                );
            }
        }
    }
    proof {
        assert(b@.subrange(p2 as int, p4 as int) =~= b@.subrange(p2 as int, p3 as int)
            + b@.subrange(p3 as int, p4 as int));
    }
    Option::Some((log_path, prune_flag, p4))
}

/// Refutes a root-hash value of the wrong length against any record the
/// bytes could encode.
proof fn root_value_refutation(b: Seq<u8>, pos: int, pk: int, pv: int, v: Seq<u8>)
    requires
        0 <= pos <= pk <= pv <= b.len(),
        v.len() != HASH_LEN,
        v.len() <= u64::MAX,
        b.subrange(pk, pv) == spec_enc_bstr(v),
        forall|e: ExtensionsV|
            ext_wf(e) && b.subrange(pos, b.len() as int) == #[trigger] spec_encode_extensions(e)
                ==> e.stream_root_hash is Some && b.subrange(pk, b.len() as int) == spec_enc_bstr(
                e.stream_root_hash->Some_0,
            ) + spec_ext_tail_owner(e),
    ensures
        forall|e: ExtensionsV|
            ext_wf(e) ==> b.subrange(pos, b.len() as int) != #[trigger] spec_encode_extensions(e),
{
    assert forall|e: ExtensionsV|
        ext_wf(e) implies b.subrange(pos, b.len() as int) != #[trigger] spec_encode_extensions(
        e,
    ) by {
        if b.subrange(pos, b.len() as int) == spec_encode_extensions(e) {
            let re = e.stream_root_hash->Some_0;
            assert(b.subrange(pk, b.len() as int) =~= spec_enc_bstr(v) + b.subrange(
                pv,
                b.len() as int,
            ));
            crate::cbor::lemma_bstr_prefix(
                v,
                re,
                b.subrange(pv, b.len() as int),
                spec_ext_tail_owner(e),
            );
        }
    }
}

/// The array head and version of a header, decoded.
#[verifier::rlimit(100)]
fn decode_header_start(bytes: &[u8]) -> (r: Option<(u64, usize)>)
    ensures
        r is None ==> forall|h: HeaderV|
            header_wf(h) ==> bytes@ != #[trigger] spec_encode_header(h),
        r matches Option::Some(x) ==> {
            &&& x.1 <= bytes@.len()
            &&& bytes@.subrange(0, x.1 as int) =~= spec_enc_head(MAJOR_ARR, 10) + spec_enc_uint(
                x.0,
            )
            &&& forall|h: HeaderV|
                header_wf(h) && bytes@ == #[trigger] spec_encode_header(h) ==> (h.version == x.0
                    && bytes@.subrange(x.1 as int, bytes@.len() as int) == spec_hdr_tail_pk(h))
        },
{
    let ghost bl = bytes@.len() as int;
    let (n, p0) = match crate::cbor::read_head(bytes, 0, MAJOR_ARR) {
        Option::None => {
            proof {
                assert forall|h: HeaderV| header_wf(h) implies bytes@
                    != #[trigger] spec_encode_header(h) by {
                    if bytes@ == spec_encode_header(h) {
                        lemma_header_tails(h);
                        assert(bytes@.subrange(0, bl) =~= bytes@);
                        crate::cbor::lemma_head_at(bytes@, 0, MAJOR_ARR, 10, spec_hdr_tail_ver(h));
                    }
                }
            }
            return Option::None;
        },
        Option::Some(x) => x,
    };
    if n != 10 {
        proof {
            assert forall|h: HeaderV| header_wf(h) implies bytes@ != #[trigger] spec_encode_header(
                h,
            ) by {
                if bytes@ == spec_encode_header(h) {
                    lemma_header_tails(h);
                    assert(bytes@ =~= spec_enc_head(MAJOR_ARR, n) + bytes@.subrange(p0 as int, bl));
                    crate::cbor::lemma_head_prefix(
                        MAJOR_ARR,
                        n,
                        10,
                        bytes@.subrange(p0 as int, bl),
                        spec_hdr_tail_ver(h),
                    );
                }
            }
        }
        return Option::None;
    }
    proof {
        assert forall|h: HeaderV|
            header_wf(h) && bytes@ == #[trigger] spec_encode_header(h) implies bytes@.subrange(
            p0 as int,
            bl,
        ) == spec_hdr_tail_ver(h) by {
            lemma_header_tails(h);
            assert(bytes@ =~= spec_enc_head(MAJOR_ARR, 10) + bytes@.subrange(p0 as int, bl));
            crate::cbor::lemma_head_prefix(
                MAJOR_ARR,
                10,
                10,
                bytes@.subrange(p0 as int, bl),
                spec_hdr_tail_ver(h),
            );
        }
    }
    let (version, p1) = match crate::cbor::read_uint(bytes, p0) {
        Option::None => {
            proof {
                assert forall|h: HeaderV| header_wf(h) implies bytes@
                    != #[trigger] spec_encode_header(h) by {
                    if bytes@ == spec_encode_header(h) {
                        crate::cbor::lemma_head_at(
                            bytes@,
                            p0 as int,
                            MAJOR_UINT,
                            h.version,
                            spec_hdr_tail_pk(h),
                        );
                    }
                }
            }
            return Option::None;
        },
        Option::Some(x) => x,
    };
    proof {
        assert forall|h: HeaderV|
            header_wf(h) && bytes@ == #[trigger] spec_encode_header(h) implies (h.version
            == version && bytes@.subrange(p1 as int, bl) == spec_hdr_tail_pk(h)) by {
            assert(bytes@.subrange(p0 as int, bl) =~= spec_enc_uint(version) + bytes@.subrange(
                p1 as int,
                bl,
            ));
            crate::cbor::lemma_head_prefix(
                MAJOR_UINT,
                version,
                h.version,
                bytes@.subrange(p1 as int, bl),
                spec_hdr_tail_pk(h),
            );
        }
    }
    proof {
        assert(bytes@.subrange(0, p1 as int) =~= bytes@.subrange(0, p0 as int) + bytes@.subrange(
            p0 as int,
            p1 as int,
        ));
        assert(bytes@.subrange(0, p0 as int) =~= spec_enc_head(MAJOR_ARR, 10));
    }
    Option::Some((version, p1))
}

/// The leading fields of a header up to the signature, decoded.
#[verifier::rlimit(100)]
fn decode_header_lead(bytes: &[u8]) -> (r: Option<(u64, Vec<u8>, Option<Vec<u8>>, usize)>)
    ensures
        r is None ==> forall|h: HeaderV|
            header_wf(h) ==> bytes@ != #[trigger] spec_encode_header(h),
        r matches Option::Some(x) ==> {
            &&& x.3 <= bytes@.len()
            &&& x.1@.len() == KEY_LEN
            &&& (x.2 matches Option::Some(v) ==> v@.len() == SIG_LEN)
            &&& bytes@.subrange(0, x.3 as int) =~= spec_enc_head(MAJOR_ARR, 10) + spec_enc_uint(
                x.0,
            ) + spec_enc_bstr(x.1@) + spec_enc_opt_bstr(opt_bytes_view(x.2))
            &&& forall|h: HeaderV|
                header_wf(h) && bytes@ == #[trigger] spec_encode_header(h) ==> (h.version == x.0
                    && h.public_key == x.1@ && h.signature == opt_bytes_view(x.2)
                    && bytes@.subrange(x.3 as int, bytes@.len() as int) == spec_hdr_tail_size(h))
        },
{
    let ghost bl = bytes@.len() as int;
    let (version, p1) = match decode_header_start(bytes) {
        Option::None => {
            return Option::None;
        },
        Option::Some(x) => x,
    };
    let (public_key, p2) = match crate::cbor::read_bstr(bytes, p1) {
        Option::None => {
            proof {
                assert forall|h: HeaderV| header_wf(h) implies bytes@
                    != #[trigger] spec_encode_header(h) by {
                    if bytes@ == spec_encode_header(h) {
                        crate::cbor::lemma_bstr_at(
                            bytes@,
                            p1 as int,
                            h.public_key,
                            spec_hdr_tail_sig(h),
                        );
                    }
                }
            }
            return Option::None;
        },
        Option::Some(x) => x,
    };
    proof {
        assert forall|h: HeaderV|
            header_wf(h) && bytes@ == #[trigger] spec_encode_header(h) implies (h.public_key
            == public_key@ && bytes@.subrange(p2 as int, bl) == spec_hdr_tail_sig(h)) by {
            assert(bytes@.subrange(p1 as int, bl) =~= spec_enc_bstr(public_key@) + bytes@.subrange(
                p2 as int,
                bl,
            ));
            crate::cbor::lemma_bstr_prefix(
                public_key@,
                h.public_key,
                bytes@.subrange(p2 as int, bl),
                spec_hdr_tail_sig(h),
            );
        }
    }
    if public_key.len() != KEY_LEN {
        proof {
            assert forall|h: HeaderV| header_wf(h) implies bytes@ != #[trigger] spec_encode_header(
                h,
            ) by {
                if bytes@ == spec_encode_header(h) {
                    assert(h.public_key.len() == KEY_LEN);
                }
            }
        }
        return Option::None;
    }
    let (signature, p3) = match crate::cbor::read_opt_bstr(bytes, p2) {
        Option::None => {
            proof {
                assert forall|h: HeaderV| header_wf(h) implies bytes@
                    != #[trigger] spec_encode_header(h) by {
                    if bytes@ == spec_encode_header(h) {
                        crate::cbor::lemma_opt_bstr_at(
                            bytes@,
                            p2 as int,
                            h.signature,
                            spec_hdr_tail_size(h),
                        );
                    }
                }
            }
            return Option::None;
        },
        Option::Some(x) => x,
    };
    proof {
        assert forall|h: HeaderV|
            header_wf(h) && bytes@ == #[trigger] spec_encode_header(h) implies (h.signature
            == opt_bytes_view(signature) && bytes@.subrange(p3 as int, bl) == spec_hdr_tail_size(
            h,
        )) by {
            assert(bytes@.subrange(p2 as int, bl) =~= spec_enc_opt_bstr(opt_bytes_view(signature))
                + bytes@.subrange(p3 as int, bl));
            crate::cbor::lemma_opt_bstr_prefix(
                opt_bytes_view(signature),
                h.signature,
                bytes@.subrange(p3 as int, bl),
                spec_hdr_tail_size(h),
            );
        }
    }
    match &signature {
        Option::Some(sv) => if sv.len() != SIG_LEN {
            proof {
                assert forall|h: HeaderV| header_wf(h) implies bytes@
                    != #[trigger] spec_encode_header(h) by {}
            }
            return Option::None;
        },
        Option::None => {},
    }
    proof {
        assert(bytes@.subrange(0, p3 as int) =~= (bytes@.subrange(0, p1 as int) + bytes@.subrange(
            p1 as int,
            p2 as int,
        )) + bytes@.subrange(p2 as int, p3 as int));
    }
    Option::Some((version, public_key, signature, p3))
}

/// The leading fields of a header through the payload hash, decoded.
#[verifier::rlimit(100)]
fn decode_header_mid(bytes: &[u8]) -> (r: Option<
    (u64, Vec<u8>, Option<Vec<u8>>, u64, Option<Vec<u8>>, usize),
>)
    ensures
        r is None ==> forall|h: HeaderV|
            header_wf(h) ==> bytes@ != #[trigger] spec_encode_header(h),
        r matches Option::Some(x) ==> {
            &&& x.5 <= bytes@.len()
            &&& x.1@.len() == KEY_LEN
            &&& (x.2 matches Option::Some(v) ==> v@.len() == SIG_LEN)
            &&& (x.4 matches Option::Some(v) ==> v@.len() == HASH_LEN)
            &&& bytes@.subrange(0, x.5 as int) =~= spec_enc_head(MAJOR_ARR, 10) + spec_enc_uint(
                x.0,
            ) + spec_enc_bstr(x.1@) + spec_enc_opt_bstr(opt_bytes_view(x.2)) + spec_enc_uint(x.3)
                + spec_enc_opt_bstr(opt_bytes_view(x.4))
            &&& forall|h: HeaderV|
                header_wf(h) && bytes@ == #[trigger] spec_encode_header(h) ==> (h.version == x.0
                    && h.public_key == x.1@ && h.signature == opt_bytes_view(x.2)
                    && h.payload_size == x.3 && h.payload_hash == opt_bytes_view(x.4)
                    && bytes@.subrange(x.5 as int, bytes@.len() as int) == spec_hdr_tail_ts(h))
        },
{
    let ghost bl = bytes@.len() as int;
    let (version, public_key, signature, p3) = match decode_header_lead(bytes) {
        Option::None => {
            return Option::None;
        },
        Option::Some(x) => x,
    };
    let (payload_size, p4) = match crate::cbor::read_uint(bytes, p3) {
        Option::None => {
            proof {
                assert forall|h: HeaderV| header_wf(h) implies bytes@
                    != #[trigger] spec_encode_header(h) by {
                    if bytes@ == spec_encode_header(h) {
                        crate::cbor::lemma_head_at(
                            bytes@,
                            p3 as int,
                            MAJOR_UINT,
                            h.payload_size,
                            spec_hdr_tail_ph(h),
                        );
                    }
                }
            }
            return Option::None;
        },
        Option::Some(x) => x,
    };
    proof {
        assert forall|h: HeaderV|
            header_wf(h) && bytes@ == #[trigger] spec_encode_header(h) implies (h.payload_size
            == payload_size && bytes@.subrange(p4 as int, bl) == spec_hdr_tail_ph(h)) by {
            assert(bytes@.subrange(p3 as int, bl) =~= spec_enc_uint(payload_size)
                + bytes@.subrange(p4 as int, bl));
            crate::cbor::lemma_head_prefix(
                MAJOR_UINT,
                payload_size,
                h.payload_size,
                bytes@.subrange(p4 as int, bl),
                spec_hdr_tail_ph(h),
            );
        }
    }
    let (payload_hash, p5) = match crate::cbor::read_opt_bstr(bytes, p4) {
        Option::None => {
            proof {
                assert forall|h: HeaderV| header_wf(h) implies bytes@
                    != #[trigger] spec_encode_header(h) by {
                    if bytes@ == spec_encode_header(h) {
                        crate::cbor::lemma_opt_bstr_at(
                            bytes@,
                            p4 as int,
                            h.payload_hash,
                            spec_hdr_tail_ts(h),
                        );
                    }
                }
            }
            return Option::None;
        },
        Option::Some(x) => x,
    };
    proof {
        assert forall|h: HeaderV|
            header_wf(h) && bytes@ == #[trigger] spec_encode_header(h) implies (h.payload_hash
            == opt_bytes_view(payload_hash) && bytes@.subrange(p5 as int, bl)
            == spec_hdr_tail_ts(h)) by {
            assert(bytes@.subrange(p4 as int, bl) =~= spec_enc_opt_bstr(
                opt_bytes_view(payload_hash),
            ) + bytes@.subrange(p5 as int, bl));
            crate::cbor::lemma_opt_bstr_prefix(
                opt_bytes_view(payload_hash),
                h.payload_hash,
                bytes@.subrange(p5 as int, bl),
                spec_hdr_tail_ts(h),
            );
        }
    }
    match &payload_hash {
        Option::Some(pv) => if pv.len() != HASH_LEN {
            proof {
                assert forall|h: HeaderV| header_wf(h) implies bytes@
                    != #[trigger] spec_encode_header(h) by {}
            }
            return Option::None;
        },
        Option::None => {},
    }
    proof {
        assert(bytes@.subrange(0, p5 as int) =~= (bytes@.subrange(0, p3 as int) + bytes@.subrange(
            p3 as int,
            p4 as int,
        )) + bytes@.subrange(p4 as int, p5 as int));
    }
    Option::Some((version, public_key, signature, payload_size, payload_hash, p5))
}

/// The fixed-width leading fields of a header, decoded. Fails exactly when
/// no well-formed header's canonical encoding matches the bytes this far.
#[verifier::rlimit(100)]
fn decode_header_prefix(bytes: &[u8]) -> (r: Option<
    (u64, Vec<u8>, Option<Vec<u8>>, u64, Option<Vec<u8>>, u64, u64, Option<Vec<u8>>, usize),
>)
    ensures
        r is None ==> forall|h: HeaderV|
            header_wf(h) ==> bytes@ != #[trigger] spec_encode_header(h),
        r matches Option::Some(x) ==> {
            &&& x.8 <= bytes@.len()
            &&& x.1@.len() == KEY_LEN
            &&& (x.2 matches Option::Some(v) ==> v@.len() == SIG_LEN)
            &&& (x.4 matches Option::Some(v) ==> v@.len() == HASH_LEN)
            &&& (x.7 matches Option::Some(v) ==> v@.len() == HASH_LEN)
            &&& bytes@.subrange(0, x.8 as int) =~= spec_enc_head(MAJOR_ARR, 10) + spec_enc_uint(
                x.0,
            ) + spec_enc_bstr(x.1@) + spec_enc_opt_bstr(opt_bytes_view(x.2)) + spec_enc_uint(x.3)
                + spec_enc_opt_bstr(opt_bytes_view(x.4)) + spec_enc_uint(x.5) + spec_enc_uint(x.6)
                + spec_enc_opt_bstr(opt_bytes_view(x.7))
            &&& forall|h: HeaderV|
                header_wf(h) && bytes@ == #[trigger] spec_encode_header(h) ==> (h.version == x.0
                    && h.public_key == x.1@ && h.signature == opt_bytes_view(x.2)
                    && h.payload_size == x.3 && h.payload_hash == opt_bytes_view(x.4)
                    && h.timestamp == x.5 && h.seq_num == x.6 && h.backlink == opt_bytes_view(x.7)
                    && bytes@.subrange(x.8 as int, bytes@.len() as int) == spec_hdr_tail_prev(h))
        },
{
    let ghost bl = bytes@.len() as int;
    let (version, public_key, signature, payload_size, payload_hash, p5) = match decode_header_mid(
        bytes,
    ) {
        Option::None => {
            return Option::None;
        },
        Option::Some(x) => x,
    };
    let (timestamp, p6) = match crate::cbor::read_uint(bytes, p5) {
        Option::None => {
            proof {
                assert forall|h: HeaderV| header_wf(h) implies bytes@
                    != #[trigger] spec_encode_header(h) by {
                    if bytes@ == spec_encode_header(h) {
                        crate::cbor::lemma_head_at(
                            bytes@,
                            p5 as int,
                            MAJOR_UINT,
                            h.timestamp,
                            spec_hdr_tail_seq(h),
                        );
                    }
                }
            }
            return Option::None;
        },
        Option::Some(x) => x,
    };
    proof {
        assert forall|h: HeaderV|
            header_wf(h) && bytes@ == #[trigger] spec_encode_header(h) implies (h.timestamp
            == timestamp && bytes@.subrange(p6 as int, bl) == spec_hdr_tail_seq(h)) by {
            assert(bytes@.subrange(p5 as int, bl) =~= spec_enc_uint(timestamp) + bytes@.subrange(
                p6 as int,
                bl,
            ));
            crate::cbor::lemma_head_prefix(
                MAJOR_UINT,
                timestamp,
                h.timestamp,
                bytes@.subrange(p6 as int, bl),
                spec_hdr_tail_seq(h),
            );
        }
    }
    let (seq_num, p7) = match crate::cbor::read_uint(bytes, p6) {
        Option::None => {
            proof {
                assert forall|h: HeaderV| header_wf(h) implies bytes@
                    != #[trigger] spec_encode_header(h) by {
                    if bytes@ == spec_encode_header(h) {
                        crate::cbor::lemma_head_at(
                            bytes@,
                            p6 as int,
                            MAJOR_UINT,
                            h.seq_num,
                            spec_hdr_tail_backlink(h),
                        );
                    }
                }
            }
            return Option::None;
        },
        Option::Some(x) => x,
    };
    proof {
        assert forall|h: HeaderV|
            header_wf(h) && bytes@ == #[trigger] spec_encode_header(h) implies (h.seq_num
            == seq_num && bytes@.subrange(p7 as int, bl) == spec_hdr_tail_backlink(h)) by {
            assert(bytes@.subrange(p6 as int, bl) =~= spec_enc_uint(seq_num) + bytes@.subrange(
                p7 as int,
                bl,
            ));
            crate::cbor::lemma_head_prefix(
                MAJOR_UINT,
                seq_num,
                h.seq_num,
                bytes@.subrange(p7 as int, bl),
                spec_hdr_tail_backlink(h),
            );
        }
    }
    let (backlink, p8) = match crate::cbor::read_opt_bstr(bytes, p7) {
        Option::None => {
            proof {
                assert forall|h: HeaderV| header_wf(h) implies bytes@
                    != #[trigger] spec_encode_header(h) by {
                    if bytes@ == spec_encode_header(h) {
                        crate::cbor::lemma_opt_bstr_at(
                            bytes@,
                            p7 as int,
                            h.backlink,
                            spec_hdr_tail_prev(h),
                        );
                    }
                }
            }
            return Option::None;
        },
        Option::Some(x) => x,
    };
    proof {
        assert forall|h: HeaderV|
            header_wf(h) && bytes@ == #[trigger] spec_encode_header(h) implies (h.backlink
            == opt_bytes_view(backlink) && bytes@.subrange(p8 as int, bl) == spec_hdr_tail_prev(
            h,
        )) by {
            assert(bytes@.subrange(p7 as int, bl) =~= spec_enc_opt_bstr(opt_bytes_view(backlink))
                + bytes@.subrange(p8 as int, bl));
            crate::cbor::lemma_opt_bstr_prefix(
                opt_bytes_view(backlink),
                h.backlink,
                bytes@.subrange(p8 as int, bl),
                spec_hdr_tail_prev(h),
            );
        }
    }
    match &backlink {
        Option::Some(bv) => if bv.len() != HASH_LEN {
            proof {
                assert forall|h: HeaderV| header_wf(h) implies bytes@
                    != #[trigger] spec_encode_header(h) by {}
            }
            return Option::None;
        },
        Option::None => {},
    }
    proof {
        assert(bytes@.subrange(0, p8 as int) =~= ((bytes@.subrange(0, p5 as int) + bytes@.subrange(
            p5 as int,
            p6 as int,
        )) + bytes@.subrange(p6 as int, p7 as int)) + bytes@.subrange(p7 as int, p8 as int));
    }
    Option::Some((version, public_key, signature, payload_size, payload_hash, timestamp, seq_num, backlink, p8))
}

/// Decodes a header from its canonical byte form. Succeeds exactly when the
/// bytes are the canonical encoding of a well-formed header, and then
/// returns that header: what is accepted re-encodes to the input, and no
/// encoding is refused.
#[verifier::rlimit(100)]
pub fn decode_header(bytes: &[u8]) -> (r: Result<Header, DecodeError>)
    ensures
        r matches Ok(h) ==> header_wf(h@) && bytes@ == spec_encode_header(h@),
        r is Err ==> forall|h: HeaderV|
            header_wf(h) ==> bytes@ != #[trigger] spec_encode_header(h),
        forall|h: HeaderV|
            header_wf(h) && bytes@ == #[trigger] spec_encode_header(h) ==> (r matches Ok(hdr)
                && hdr@ == h),
{
    let ghost bl = bytes@.len() as int;
    let (version, public_key, signature, payload_size, payload_hash, timestamp, seq_num, backlink, p8) =
        match decode_header_prefix(bytes) {
        Option::None => {
            return Result::Err(DecodeError::Malformed);
        },
        Option::Some(x) => x,
    };
    let (n_prev, p9) = match crate::cbor::read_head(bytes, p8, MAJOR_ARR) {
        Option::None => {
            proof {
                assert forall|h: HeaderV| header_wf(h) implies bytes@
                    != #[trigger] spec_encode_header(h) by {
                    if bytes@ == spec_encode_header(h) {
                        crate::cbor::lemma_head_at(
                            bytes@,
                            p8 as int,
                            MAJOR_ARR,
                            h.previous.len() as u64,
                            spec_hdr_tail_prev_items(h),
                        );
                    }
                }
            }
            return Result::Err(DecodeError::Malformed);
        },
        Option::Some(x) => x,
    };
    proof {
        assert forall|h: HeaderV|
            header_wf(h) && bytes@ == #[trigger] spec_encode_header(h) implies (h.previous.len()
            == n_prev && bytes@.subrange(p9 as int, bl) == spec_enc_hash_list(h.previous.skip(0))
            + spec_hdr_tail_ext(h)) by {
            assert(bytes@.subrange(p8 as int, bl) =~= spec_enc_head(MAJOR_ARR, n_prev)
                + bytes@.subrange(p9 as int, bl));
            crate::cbor::lemma_head_prefix(
                MAJOR_ARR,
                n_prev,
                h.previous.len() as u64,
                bytes@.subrange(p9 as int, bl),
                spec_hdr_tail_prev_items(h),
            );
            assert(h.previous.skip(0) =~= h.previous);
        }
    }
    let mut previous: Vec<Vec<u8>> = Vec::new();
    let mut p = p9;
    let mut i: u64 = 0;
    proof {
        assert(hashes_view(previous@) =~= Seq::<Seq<u8>>::empty());
        assert(bytes@.subrange(p9 as int, p9 as int) =~= Seq::<u8>::empty());
        assert(spec_enc_hash_list(hashes_view(previous@)) == Seq::<u8>::empty());
    }
    while i < n_prev
        invariant
            i <= n_prev,
            p9 <= p <= bytes@.len(),
            bl == bytes@.len() as int,
            previous@.len() == i,
            forall|j: int| 0 <= j < i ==> (#[trigger] hashes_view(previous@)[j]).len() == HASH_LEN,
            bytes@.subrange(p9 as int, p as int) =~= spec_enc_hash_list(hashes_view(previous@)),
            forall|h: HeaderV|
                header_wf(h) && bytes@ == #[trigger] spec_encode_header(h) ==> (h.previous.len()
                    == n_prev && bytes@.subrange(p as int, bl) == spec_enc_hash_list(
                    h.previous.skip(i as int),
                ) + spec_hdr_tail_ext(h)),
        decreases n_prev - i,
    {
        let (hv, pv) = match crate::cbor::read_bstr(bytes, p) {
            Option::None => {
                proof {
                    assert forall|h: HeaderV| header_wf(h) implies bytes@
                        != #[trigger] spec_encode_header(h) by {
                        if bytes@ == spec_encode_header(h) {
                            lemma_enc_hash_list_peel(h.previous, i as int);
                            assert(bytes@.subrange(p as int, bl) =~= spec_enc_bstr(
                                h.previous[i as int],
                            ) + (spec_enc_hash_list(h.previous.skip(i + 1))
                                + spec_hdr_tail_ext(h)));
                            crate::cbor::lemma_bstr_at(
                                bytes@,
                                p as int,
                                h.previous[i as int],
                                spec_enc_hash_list(h.previous.skip(i + 1)) + spec_hdr_tail_ext(h),
                            );
                        }
                    }
                }
                return Result::Err(DecodeError::Malformed);
            },
            Option::Some(x) => x,
        };
        proof {
            assert forall|h: HeaderV|
                header_wf(h) && bytes@ == #[trigger] spec_encode_header(h) implies (
            h.previous[i as int] == hv@ && bytes@.subrange(pv as int, bl) == spec_enc_hash_list(
                h.previous.skip(i + 1),
            ) + spec_hdr_tail_ext(h)) by {
                lemma_enc_hash_list_peel(h.previous, i as int);
                assert(bytes@.subrange(p as int, bl) =~= spec_enc_bstr(hv@) + bytes@.subrange(
                    pv as int,
                    bl,
                ));
                assert(bytes@.subrange(p as int, bl) =~= spec_enc_bstr(h.previous[i as int]) + (
                spec_enc_hash_list(h.previous.skip(i + 1)) + spec_hdr_tail_ext(h)));
                crate::cbor::lemma_bstr_prefix(
                    hv@,
                    h.previous[i as int],
                    bytes@.subrange(pv as int, bl),
                    spec_enc_hash_list(h.previous.skip(i + 1)) + spec_hdr_tail_ext(h),
                );
            }
        }
        if hv.len() != HASH_LEN {
            proof {
                assert forall|h: HeaderV| header_wf(h) implies bytes@
                    != #[trigger] spec_encode_header(h) by {
                    if bytes@ == spec_encode_header(h) {
                        assert(h.previous[i as int].len() == HASH_LEN);
                    }
                }
            }
            return Result::Err(DecodeError::Malformed);
        }
        let ghost prev0 = hashes_view(previous@);
        let ghost hvv = hv@;
        previous.push(hv);
        proof {
            assert(hashes_view(previous@) =~= prev0.push(hvv));
            lemma_enc_hash_list_snoc(prev0.push(hvv));
            assert(prev0.push(hvv).drop_last() =~= prev0);
            assert(prev0.push(hvv).last() == hvv);
            assert(bytes@.subrange(p9 as int, pv as int) =~= bytes@.subrange(p9 as int, p as int)
                + bytes@.subrange(p as int, pv as int));
        }
        p = pv;
        i += 1;
    }
    proof {
        assert forall|h: HeaderV|
            header_wf(h) && bytes@ == #[trigger] spec_encode_header(h) implies bytes@.subrange(
            p as int,
            bl,
        ) == spec_enc_opt_ext(h.extensions) by {
            assert(h.previous.skip(n_prev as int).len() == 0);
            assert(spec_enc_hash_list(h.previous.skip(n_prev as int)) == Seq::<u8>::empty());
            assert(Seq::<u8>::empty() + spec_hdr_tail_ext(h) =~= spec_hdr_tail_ext(h));
        }
    }
    let (extensions, p10): (Option<Extensions>, usize) = if p < bytes.len() && bytes[p]
        == SIMPLE_NULL {
        proof {
            assert(bytes@.subrange(p as int, p + 1) =~= spec_enc_null());
        }
        (Option::None, p + 1)
    } else {
        match decode_extensions(bytes, p) {
            Option::None => {
                proof {
                    assert forall|h: HeaderV| header_wf(h) implies bytes@
                        != #[trigger] spec_encode_header(h) by {
                        if bytes@ == spec_encode_header(h) {
                            match h.extensions {
                                Option::None => {
                                    assert(bytes@.subrange(p as int, bl) =~= spec_enc_null());
                                    assert(bytes@.subrange(p as int, bl)[0] == bytes@[p as int]);
                                    assert(spec_enc_null()[0] == SIMPLE_NULL);
                                    assert(p < bytes@.len());
                                },
                                Option::Some(eh) => {
                                    assert(ext_wf(eh));
                                },
                            }
                        }
                    }
                }
                return Result::Err(DecodeError::Malformed);
            },
            Option::Some((e, pe)) => (Option::Some(e), pe),
        }
    };
    if p10 != bytes.len() {
        proof {
            assert forall|h: HeaderV| header_wf(h) implies bytes@ != #[trigger] spec_encode_header(
                h,
            ) by {
                if bytes@ == spec_encode_header(h) {
                    match extensions {
                        Option::None => {
                            match h.extensions {
                                Option::None => {
                                    assert(bytes@.subrange(p as int, bl) =~= spec_enc_null());
                                    assert(bl - p == 1);
                                },
                                Option::Some(eh) => {
                                    assert(bytes@.subrange(p as int, bl)[0] == bytes@[p as int]);
                                    lemma_ext_tails(eh);
                                    assert(bytes@.subrange(p as int, bl) =~= spec_enc_head(
                                        MAJOR_MAP,
                                        spec_ext_count(eh) as u64,
                                    ) + spec_ext_tail_root(eh));
                                    crate::cbor::lemma_head_at(
                                        bytes@,
                                        p as int,
                                        MAJOR_MAP,
                                        spec_ext_count(eh) as u64,
                                        spec_ext_tail_root(eh),
                                    );
                                    assert(bytes@[p as int] == MAJOR_MAP);
                                },
                            }
                        },
                        Option::Some(ref e) => {
                            match h.extensions {
                                Option::None => {
                                    assert(bytes@.subrange(p as int, bl) =~= spec_enc_null());
                                    assert(bytes@.subrange(p as int, bl)[0] == bytes@[p as int]);
                                    assert(spec_enc_null()[0] == SIMPLE_NULL);
                                    assert(p < bytes@.len());
                                },
                                Option::Some(eh) => {
                                    assert(bytes@.subrange(p as int, bl) =~= spec_encode_extensions(
                                        e@,
                                    ) + bytes@.subrange(p10 as int, bl));
                                    lemma_ext_prefix(
                                        e@,
                                        eh,
                                        bytes@.subrange(p10 as int, bl),
                                        Seq::<u8>::empty(),
                                    );
                                    assert(bytes@.subrange(p10 as int, bl).len() == 0);
                                },
                            }
                        },
                    }
                }
            }
        }
        return Result::Err(DecodeError::Malformed);
    }
    let header = Header {
        version,
        public_key,
        signature,
        payload_size,
        payload_hash,
        timestamp,
        seq_num,
        backlink,
        previous,
        extensions,
    };
    proof {
        reveal(spec_encode_header);
        assert(bytes@ =~= ((bytes@.subrange(0, p8 as int) + bytes@.subrange(p8 as int, p9 as int))
            + bytes@.subrange(p9 as int, p as int)) + bytes@.subrange(p as int, p10 as int));
        assert(bytes@ =~= spec_encode_header(header@));
        assert(header_wf(header@));
        assert forall|h: HeaderV|
            header_wf(h) && bytes@ == #[trigger] spec_encode_header(h) implies header@ == h by {
            lemma_encode_header_injective(header@, h);
        }
    }
    Result::Ok(header)
}

} // verus!
