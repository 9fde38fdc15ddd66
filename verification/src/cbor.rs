//! CBOR encoding and decoding primitives.
//!
//! Operation headers and gossip messages are carried in CBOR. This module
//! fixes one deterministic profile of CBOR: every integer argument (values,
//! string and container lengths) is carried in the 8-byte form of its major
//! type. That profile is valid CBOR, every value has exactly one encoding,
//! and the decoder accepts exactly that encoding.

use vstd::prelude::*;

use crate::bytes::{
    copy_range, lemma_u64_be_injective, lemma_u64_be_of_from_be, lemma_u64_be_round_trip,
    push_u64_be, read_u64_be, spec_u64_be, spec_u64_from_be,
};

verus! {

/// Head byte of an unsigned integer with 8-byte argument.
pub const MAJOR_UINT: u8 = 0x1b;

/// Head byte of a byte string with 8-byte length.
pub const MAJOR_BSTR: u8 = 0x5b;

/// Head byte of a text string with 8-byte length.
pub const MAJOR_TSTR: u8 = 0x7b;

/// Head byte of an array with 8-byte element count.
pub const MAJOR_ARR: u8 = 0x9b;

/// Head byte of a map with 8-byte pair count.
pub const MAJOR_MAP: u8 = 0xbb;

/// The simple value `false`.
pub const SIMPLE_FALSE: u8 = 0xf4;

/// The simple value `true`.
pub const SIMPLE_TRUE: u8 = 0xf5;

/// The simple value `null`.
pub const SIMPLE_NULL: u8 = 0xf6;

/// A CBOR head: a major-type tag byte followed by an 8-byte big-endian
/// argument.
pub open spec fn spec_enc_head(tag: u8, v: u64) -> Seq<u8> {
    seq![tag] + spec_u64_be(v)
}

/// Encoding of an unsigned integer.
pub open spec fn spec_enc_uint(v: u64) -> Seq<u8> {
    spec_enc_head(MAJOR_UINT, v)
}

/// Encoding of a byte string.
pub open spec fn spec_enc_bstr(b: Seq<u8>) -> Seq<u8> {
    spec_enc_head(MAJOR_BSTR, b.len() as u64) + b
}

/// Encoding of a text string, given its UTF-8 bytes.
pub open spec fn spec_enc_tstr(b: Seq<u8>) -> Seq<u8> {
    spec_enc_head(MAJOR_TSTR, b.len() as u64) + b
}

/// Encoding of a boolean.
pub open spec fn spec_enc_bool(v: bool) -> Seq<u8> {
    if v {
        seq![SIMPLE_TRUE]
    } else {
        seq![SIMPLE_FALSE]
    }
}

/// Encoding of `null`.
pub open spec fn spec_enc_null() -> Seq<u8> {
    seq![SIMPLE_NULL]
}

/// Encoding of an optional byte string: `null` when absent.
pub open spec fn spec_enc_opt_bstr(o: Option<Seq<u8>>) -> Seq<u8> {
    match o {
        Option::None => spec_enc_null(),
        Option::Some(b) => spec_enc_bstr(b),
    }
}

/// The byte-string views of an optional byte vector.
pub open spec fn spec_opt_view(o: Option<Vec<u8>>) -> Option<Seq<u8>> {
    match o {
        Option::None => Option::None,
        Option::Some(v) => Option::Some(v@),
    }
}

/// Splitting a concatenation at matching lengths equates the parts.
pub proof fn lemma_concat_eq_parts(a: Seq<u8>, b: Seq<u8>, c: Seq<u8>, d: Seq<u8>)
    requires
        a.len() == c.len(),
        a + b == c + d,
    ensures
        a == c,
        b == d,
{
    assert(a =~= (a + b).subrange(0, a.len() as int));
    assert(c =~= (c + d).subrange(0, c.len() as int));
    assert(b =~= (a + b).subrange(a.len() as int, (a + b).len() as int));
    assert(d =~= (c + d).subrange(c.len() as int, (c + d).len() as int));
}

/// Two heads with the same tag followed by anything agree on their argument
/// and on what follows.
pub proof fn lemma_head_prefix(tag: u8, v1: u64, v2: u64, r1: Seq<u8>, r2: Seq<u8>)
    requires
        spec_enc_head(tag, v1) + r1 == spec_enc_head(tag, v2) + r2,
    ensures
        v1 == v2,
        r1 == r2,
{
    lemma_concat_eq_parts(spec_enc_head(tag, v1), r1, spec_enc_head(tag, v2), r2);
    lemma_concat_eq_parts(seq![tag], spec_u64_be(v1), seq![tag], spec_u64_be(v2));
    lemma_u64_be_injective(v1, v2);
}
/// Two byte strings encoded at the same position agree, as does what
/// follows them.
pub proof fn lemma_bstr_prefix(b1: Seq<u8>, b2: Seq<u8>, r1: Seq<u8>, r2: Seq<u8>)
    requires
        b1.len() <= u64::MAX,
        b2.len() <= u64::MAX,
        spec_enc_bstr(b1) + r1 == spec_enc_bstr(b2) + r2,
    ensures
        b1 == b2,
        r1 == r2,
{
    assert(spec_enc_head(MAJOR_BSTR, b1.len() as u64) + (b1 + r1) =~= spec_enc_bstr(b1) + r1);
    assert(spec_enc_head(MAJOR_BSTR, b2.len() as u64) + (b2 + r2) =~= spec_enc_bstr(b2) + r2);
    lemma_head_prefix(MAJOR_BSTR, b1.len() as u64, b2.len() as u64, b1 + r1, b2 + r2);
    lemma_concat_eq_parts(b1, r1, b2, r2);
}

/// Two optional byte strings encoded at the same position agree, as does
/// what follows them.
pub proof fn lemma_opt_bstr_prefix(
    o1: Option<Seq<u8>>,
    o2: Option<Seq<u8>>,
    r1: Seq<u8>,
    r2: Seq<u8>,
)
    requires
        o1 matches Option::Some(b1) ==> b1.len() <= u64::MAX,
        o2 matches Option::Some(b2) ==> b2.len() <= u64::MAX,
        spec_enc_opt_bstr(o1) + r1 == spec_enc_opt_bstr(o2) + r2,
    ensures
        o1 == o2,
        r1 == r2,
{
    let s1 = spec_enc_opt_bstr(o1) + r1;
    let s2 = spec_enc_opt_bstr(o2) + r2;
    assert(s1[0] == s2[0]);
    match (o1, o2) {
        (Option::None, Option::None) => {
            lemma_concat_eq_parts(spec_enc_null(), r1, spec_enc_null(), r2);
        },
        (Option::Some(b1), Option::Some(b2)) => {
            lemma_bstr_prefix(b1, b2, r1, r2);
        },
        (Option::None, Option::Some(b2)) => {
            assert(s1[0] == SIMPLE_NULL && s2[0] == MAJOR_BSTR);
        },
        (Option::Some(b1), Option::None) => {
            assert(s2[0] == SIMPLE_NULL && s1[0] == MAJOR_BSTR);
        },
    }
}

/// Two booleans encoded at the same position agree, as does what follows.
pub proof fn lemma_bool_prefix(v1: bool, v2: bool, r1: Seq<u8>, r2: Seq<u8>)
    requires
        spec_enc_bool(v1) + r1 == spec_enc_bool(v2) + r2,
    ensures
        v1 == v2,
        r1 == r2,
{
    let s1 = spec_enc_bool(v1) + r1;
    let s2 = spec_enc_bool(v2) + r2;
    if v1 != v2 {
        assert(s1[0] == spec_enc_bool(v1)[0]);
        assert(s2[0] == spec_enc_bool(v2)[0]);
        assert(false);
    }
    lemma_concat_eq_parts(spec_enc_bool(v1), r1, spec_enc_bool(v2), r2);
}

/// Two text strings encoded at the same position agree, as does what
/// follows them.
pub proof fn lemma_tstr_prefix(b1: Seq<u8>, b2: Seq<u8>, r1: Seq<u8>, r2: Seq<u8>)
    requires
        b1.len() <= u64::MAX,
        b2.len() <= u64::MAX,
        spec_enc_tstr(b1) + r1 == spec_enc_tstr(b2) + r2,
    ensures
        b1 == b2,
        r1 == r2,
{
    assert(spec_enc_head(MAJOR_TSTR, b1.len() as u64) + (b1 + r1) =~= spec_enc_tstr(b1) + r1);
    assert(spec_enc_head(MAJOR_TSTR, b2.len() as u64) + (b2 + r2) =~= spec_enc_tstr(b2) + r2);
    lemma_head_prefix(MAJOR_TSTR, b1.len() as u64, b2.len() as u64, b1 + r1, b2 + r2);
    lemma_concat_eq_parts(b1, r1, b2, r2);
}



/// Appends the bytes of `b` to `out`.
pub fn push_bytes(out: &mut Vec<u8>, b: &[u8])
    ensures
        final(out)@ =~= old(out)@ + b@,
{
    let ghost base = out@;
    let mut i: usize = 0;
    while i < b.len()
        invariant
            i <= b@.len(),
            out@ =~= base + b@.subrange(0, i as int),
        decreases b@.len() - i,
    {
        out.push(b[i]);
        assert(out@ =~= base + b@.subrange(0, i + 1));
        i += 1;
    }
    assert(b@.subrange(0, b@.len() as int) =~= b@);
}

/// Appends a CBOR head to `out`.
pub fn push_head(out: &mut Vec<u8>, tag: u8, v: u64)
    ensures
        final(out)@ =~= old(out)@ + spec_enc_head(tag, v),
{
    out.push(tag);
    push_u64_be(out, v);
}

/// Appends the encoding of an unsigned integer to `out`.
pub fn push_uint(out: &mut Vec<u8>, v: u64)
    ensures
        final(out)@ =~= old(out)@ + spec_enc_uint(v),
{
    push_head(out, MAJOR_UINT, v);
}

/// Appends the encoding of a byte string to `out`.
pub fn push_bstr(out: &mut Vec<u8>, b: &[u8])
    ensures
        final(out)@ =~= old(out)@ + spec_enc_bstr(b@),
{
    push_head(out, MAJOR_BSTR, b.len() as u64);
    push_bytes(out, b);
}

/// Appends the encoding of a text string, given its UTF-8 bytes, to `out`.
pub fn push_tstr(out: &mut Vec<u8>, b: &[u8])
    ensures
        final(out)@ =~= old(out)@ + spec_enc_tstr(b@),
{
    push_head(out, MAJOR_TSTR, b.len() as u64);
    push_bytes(out, b);
}

/// Appends the encoding of a boolean to `out`.
pub fn push_bool(out: &mut Vec<u8>, v: bool)
    ensures
        final(out)@ =~= old(out)@ + spec_enc_bool(v),
{
    if v {
        out.push(SIMPLE_TRUE);
    } else {
        out.push(SIMPLE_FALSE);
    }
}

/// Appends the encoding of an optional byte string to `out`.
pub fn push_opt_bstr(out: &mut Vec<u8>, o: &Option<Vec<u8>>)
    ensures
        final(out)@ =~= old(out)@ + spec_enc_opt_bstr(spec_opt_view(*o)),
{
    match o {
        Option::None => {
            out.push(SIMPLE_NULL);
        },
        Option::Some(b) => {
            push_bstr(out, b.as_slice());
        },
    }
}

/// Reads a CBOR head with the given tag at `pos`. Fails exactly when fewer
/// than nine bytes remain or the tag differs.
pub fn read_head(b: &[u8], pos: usize, tag: u8) -> (r: Option<(u64, usize)>)
    requires
        pos <= b@.len(),
    ensures
        match r {
            Option::Some((v, p)) => {
                &&& p == pos + 9 <= b@.len()
                &&& b@.subrange(pos as int, p as int) =~= spec_enc_head(tag, v)
            },
            Option::None => pos + 9 > b@.len() || b@[pos as int] != tag,
        },
{
    if b.len() - pos < 9 {
        return Option::None;
    }
    if b[pos] != tag {
        return Option::None;
    }
    let v = read_u64_be(b, pos + 1);
    proof {
        lemma_u64_be_of_from_be(b@.subrange(pos + 1, pos + 9));
        assert(b@.subrange(pos as int, pos + 9) =~= seq![tag] + b@.subrange(pos + 1, pos + 9));
    }
    Option::Some((v, pos + 9))
}

/// Reads an unsigned integer at `pos`.
pub fn read_uint(b: &[u8], pos: usize) -> (r: Option<(u64, usize)>)
    requires
        pos <= b@.len(),
    ensures
        match r {
            Option::Some((v, p)) => {
                &&& p == pos + 9 <= b@.len()
                &&& b@.subrange(pos as int, p as int) =~= spec_enc_uint(v)
            },
            Option::None => pos + 9 > b@.len() || b@[pos as int] != MAJOR_UINT,
        },
{
    read_head(b, pos, MAJOR_UINT)
}

/// Reads a byte string at `pos`. Fails exactly when the head is missing or
/// wrong, or fewer bytes remain than the head announces.
pub fn read_bstr(b: &[u8], pos: usize) -> (r: Option<(Vec<u8>, usize)>)
    requires
        pos <= b@.len(),
    ensures
        match r {
            Option::Some((v, p)) => {
                &&& pos + 9 + v@.len() == p <= b@.len()
                &&& b@.subrange(pos as int, p as int) =~= spec_enc_bstr(v@)
            },
            Option::None => pos + 9 > b@.len() || b@[pos as int] != MAJOR_BSTR
                || spec_u64_from_be(b@.subrange(pos + 1, pos + 9)) + pos + 9 > b@.len(),
        },
{
    let (n, p) = match read_head(b, pos, MAJOR_BSTR) {
        Option::Some(x) => x,
        Option::None => {
            return Option::None;
        },
    };
    proof {
        lemma_u64_be_round_trip(n);
        assert(b@.subrange(pos as int, p as int)[0] == MAJOR_BSTR);
        assert(b@.subrange(pos + 1, pos + 9) =~= b@.subrange(pos as int, p as int).subrange(1, 9));
        assert(b@.subrange(pos + 1, pos + 9) =~= spec_u64_be(n));
    }
    if n > (b.len() - p) as u64 {
        return Option::None;
    }
    let end = p + (n as usize);
    let v = copy_range(b, p, end);
    proof {
        assert(b@.subrange(pos as int, end as int) =~= spec_enc_head(MAJOR_BSTR, n) + v@);
    }
    Option::Some((v, end))
}

/// Reads a text string at `pos`, returning its UTF-8 bytes.
pub fn read_tstr(b: &[u8], pos: usize) -> (r: Option<(Vec<u8>, usize)>)
    requires
        pos <= b@.len(),
    ensures
        match r {
            Option::Some((v, p)) => {
                &&& pos + 9 + v@.len() == p <= b@.len()
                &&& b@.subrange(pos as int, p as int) =~= spec_enc_tstr(v@)
            },
            Option::None => pos + 9 > b@.len() || b@[pos as int] != MAJOR_TSTR
                || spec_u64_from_be(b@.subrange(pos + 1, pos + 9)) + pos + 9 > b@.len(),
        },
{
    let (n, p) = match read_head(b, pos, MAJOR_TSTR) {
        Option::Some(x) => x,
        Option::None => {
            return Option::None;
        },
    };
    proof {
        lemma_u64_be_round_trip(n);
        assert(b@.subrange(pos as int, p as int)[0] == MAJOR_TSTR);
        assert(b@.subrange(pos + 1, pos + 9) =~= b@.subrange(pos as int, p as int).subrange(1, 9));
        assert(b@.subrange(pos + 1, pos + 9) =~= spec_u64_be(n));
    }
    if n > (b.len() - p) as u64 {
        return Option::None;
    }
    let end = p + (n as usize);
    let v = copy_range(b, p, end);
    proof {
        assert(b@.subrange(pos as int, end as int) =~= spec_enc_head(MAJOR_TSTR, n) + v@);
    }
    Option::Some((v, end))
}

/// Reads an optional byte string at `pos`: `null` or a byte string.
pub fn read_opt_bstr(b: &[u8], pos: usize) -> (r: Option<(Option<Vec<u8>>, usize)>)
    requires
        pos <= b@.len(),
    ensures
        match r {
            Option::Some((o, p)) => {
                &&& pos < p <= b@.len()
                &&& b@.subrange(pos as int, p as int) =~= spec_enc_opt_bstr(spec_opt_view(o))
            },
            Option::None => {
                &&& pos >= b@.len() || b@[pos as int] != SIMPLE_NULL
                &&& pos + 9 > b@.len() || b@[pos as int] != MAJOR_BSTR || spec_u64_from_be(
                    b@.subrange(pos + 1, pos + 9),
                ) + pos + 9 > b@.len()
            },
        },
{
    if pos < b.len() && b[pos] == SIMPLE_NULL {
        proof {
            assert(b@.subrange(pos as int, pos + 1) =~= spec_enc_null());
        }
        return Option::Some((Option::None, pos + 1));
    }
    match read_bstr(b, pos) {
        Option::Some((v, p)) => Option::Some((Option::Some(v), p)),
        Option::None => Option::None,
    }
}

/// Reads a boolean at `pos`.
pub fn read_bool(b: &[u8], pos: usize) -> (r: Option<(bool, usize)>)
    requires
        pos <= b@.len(),
    ensures
        match r {
            Option::Some((v, p)) => {
                &&& p == pos + 1 <= b@.len()
                &&& b@.subrange(pos as int, p as int) =~= spec_enc_bool(v)
            },
            Option::None => pos >= b@.len() || (b@[pos as int] != SIMPLE_TRUE && b@[pos as int]
                != SIMPLE_FALSE),
        },
{
    if pos < b.len() && b[pos] == SIMPLE_TRUE {
        proof {
            assert(b@.subrange(pos as int, pos + 1) =~= spec_enc_bool(true));
        }
        Option::Some((true, pos + 1))
    } else if pos < b.len() && b[pos] == SIMPLE_FALSE {
        proof {
            assert(b@.subrange(pos as int, pos + 1) =~= spec_enc_bool(false));
        }
        Option::Some((false, pos + 1))
    } else {
        Option::None
    }
}


/// What a suffix beginning with an encoded head implies about the bytes.
pub proof fn lemma_head_at(b: Seq<u8>, pos: int, tag: u8, n: u64, rest: Seq<u8>)
    requires
        0 <= pos <= b.len(),
        b.subrange(pos, b.len() as int) == spec_enc_head(tag, n) + rest,
    ensures
        pos + 9 <= b.len(),
        b[pos] == tag,
        b.subrange(pos + 1, pos + 9) == spec_u64_be(n),
        b.subrange(pos + 9, b.len() as int) == rest,
        spec_u64_from_be(b.subrange(pos + 1, pos + 9)) == n,
{
    let suf = b.subrange(pos, b.len() as int);
    assert(suf.len() == 9 + rest.len());
    assert(suf[0] == (spec_enc_head(tag, n) + rest)[0]);
    assert(b[pos] == suf[0]);
    assert forall|i: int| 0 <= i < 8 implies b.subrange(pos + 1, pos + 9)[i] == spec_u64_be(n)[i] by {
        assert(b.subrange(pos + 1, pos + 9)[i] == b[pos + 1 + i]);
        assert(b[pos + 1 + i] == suf[i + 1]);
        assert(suf[i + 1] == (spec_enc_head(tag, n) + rest)[i + 1]);
        assert((spec_enc_head(tag, n) + rest)[i + 1] == spec_enc_head(tag, n)[i + 1]);
        assert(spec_enc_head(tag, n)[i + 1] == spec_u64_be(n)[i]);
    }
    assert(b.subrange(pos + 1, pos + 9) =~= spec_u64_be(n));
    lemma_u64_be_round_trip(n);
    assert forall|i: int| 0 <= i < rest.len() implies b.subrange(pos + 9, b.len() as int)[i]
        == rest[i] by {
        assert(b.subrange(pos + 9, b.len() as int)[i] == b[pos + 9 + i]);
        assert(b[pos + 9 + i] == suf[i + 9]);
        assert(suf[i + 9] == rest[i]);
    }
    assert(b.subrange(pos + 9, b.len() as int) =~= rest);
}

/// What a suffix beginning with an encoded byte string implies.
pub proof fn lemma_bstr_at(b: Seq<u8>, pos: int, v: Seq<u8>, rest: Seq<u8>)
    requires
        0 <= pos <= b.len(),
        v.len() <= u64::MAX,
        b.subrange(pos, b.len() as int) == spec_enc_bstr(v) + rest,
    ensures
        pos + 9 + v.len() <= b.len(),
        b[pos] == MAJOR_BSTR,
        spec_u64_from_be(b.subrange(pos + 1, pos + 9)) == v.len(),
        b.subrange(pos + 9, pos + 9 + v.len()) == v,
        b.subrange(pos + 9 + v.len(), b.len() as int) == rest,
{
    assert(b.subrange(pos, b.len() as int) =~= spec_enc_head(MAJOR_BSTR, v.len() as u64) + (v
        + rest));
    lemma_head_at(b, pos, MAJOR_BSTR, v.len() as u64, v + rest);
    let suf = b.subrange(pos + 9, b.len() as int);
    assert(suf == v + rest);
    assert forall|i: int| 0 <= i < v.len() implies b.subrange(pos + 9, pos + 9 + v.len())[i]
        == v[i] by {
        assert(b.subrange(pos + 9, pos + 9 + v.len())[i] == b[pos + 9 + i]);
        assert(b[pos + 9 + i] == suf[i]);
    }
    assert(b.subrange(pos + 9, pos + 9 + v.len()) =~= v);
    assert forall|i: int| 0 <= i < rest.len() implies b.subrange(
        pos + 9 + v.len(),
        b.len() as int,
    )[i] == rest[i] by {
        assert(b.subrange(pos + 9 + v.len(), b.len() as int)[i] == b[pos + 9 + v.len() + i]);
        assert(b[pos + 9 + v.len() + i] == suf[v.len() + i]);
    }
    assert(b.subrange(pos + 9 + v.len(), b.len() as int) =~= rest);
}

/// What a suffix beginning with an encoded text string implies.
pub proof fn lemma_tstr_at(b: Seq<u8>, pos: int, v: Seq<u8>, rest: Seq<u8>)
    requires
        0 <= pos <= b.len(),
        v.len() <= u64::MAX,
        b.subrange(pos, b.len() as int) == spec_enc_tstr(v) + rest,
    ensures
        pos + 9 + v.len() <= b.len(),
        b[pos] == MAJOR_TSTR,
        spec_u64_from_be(b.subrange(pos + 1, pos + 9)) == v.len(),
        b.subrange(pos + 9, pos + 9 + v.len()) == v,
        b.subrange(pos + 9 + v.len(), b.len() as int) == rest,
{
    assert(b.subrange(pos, b.len() as int) =~= spec_enc_head(MAJOR_TSTR, v.len() as u64) + (v
        + rest));
    lemma_head_at(b, pos, MAJOR_TSTR, v.len() as u64, v + rest);
    let suf = b.subrange(pos + 9, b.len() as int);
    assert(suf == v + rest);
    assert forall|i: int| 0 <= i < v.len() implies b.subrange(pos + 9, pos + 9 + v.len())[i]
        == v[i] by {
        assert(b.subrange(pos + 9, pos + 9 + v.len())[i] == b[pos + 9 + i]);
        assert(b[pos + 9 + i] == suf[i]);
    }
    assert(b.subrange(pos + 9, pos + 9 + v.len()) =~= v);
    assert forall|i: int| 0 <= i < rest.len() implies b.subrange(
        pos + 9 + v.len(),
        b.len() as int,
    )[i] == rest[i] by {
        assert(b.subrange(pos + 9 + v.len(), b.len() as int)[i] == b[pos + 9 + v.len() + i]);
        assert(b[pos + 9 + v.len() + i] == suf[v.len() + i]);
    }
    assert(b.subrange(pos + 9 + v.len(), b.len() as int) =~= rest);
}

/// What a suffix beginning with an encoded optional byte string implies.
pub proof fn lemma_opt_bstr_at(b: Seq<u8>, pos: int, o: Option<Seq<u8>>, rest: Seq<u8>)
    requires
        0 <= pos <= b.len(),
        o matches Option::Some(v) ==> v.len() <= u64::MAX,
        b.subrange(pos, b.len() as int) == spec_enc_opt_bstr(o) + rest,
    ensures
        pos < b.len(),
        o is None ==> b[pos] == SIMPLE_NULL && b.subrange(pos + 1, b.len() as int) == rest,
        o matches Option::Some(v) ==> b[pos] == MAJOR_BSTR && pos + 9 + v.len() <= b.len()
            && spec_u64_from_be(b.subrange(pos + 1, pos + 9)) == v.len() && b.subrange(
            pos + 9 + v.len(),
            b.len() as int,
        ) == rest,
{
    let suf = b.subrange(pos, b.len() as int);
    match o {
        Option::None => {
            assert(suf == spec_enc_null() + rest);
            assert(suf.len() == 1 + rest.len());
            assert((spec_enc_null() + rest)[0] == spec_enc_null()[0]);
            assert(spec_enc_null()[0] == SIMPLE_NULL);
            assert(b[pos] == suf[0]);
            assert forall|i: int| 0 <= i < rest.len() implies b.subrange(
                pos + 1,
                b.len() as int,
            )[i] == rest[i] by {
                assert(b.subrange(pos + 1, b.len() as int)[i] == b[pos + 1 + i]);
                assert(b[pos + 1 + i] == suf[i + 1]);
                assert(suf[i + 1] == (spec_enc_null() + rest)[i + 1]);
                assert((spec_enc_null() + rest)[i + 1] == rest[i]);
            }
            assert(b.subrange(pos + 1, b.len() as int) =~= rest);
        },
        Option::Some(v) => {
            assert(suf =~= spec_enc_bstr(v) + rest);
            lemma_bstr_at(b, pos, v, rest);
        },
    }
}

} // verus!
