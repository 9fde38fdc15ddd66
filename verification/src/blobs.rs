//! Blob addressing: the `blobstore://` URI scheme.
//!
//! A blob is addressed by a 32-byte content hash, written as 64 hexadecimal
//! characters in the URI's host position. An optional single trailing slash
//! is accepted; anything after it is rejected.

use vstd::prelude::*;

use crate::crypto::HASH_LEN;
use crate::hexfmt::{spec_is_hex_seq, spec_unhex, hex_decode};

verus! {

/// The accepted URI prefix, as bytes: `blobstore://`.
pub open spec fn spec_blob_scheme() -> Seq<u8> {
    seq![98u8, 108u8, 111u8, 98u8, 115u8, 116u8, 111u8, 114u8, 101u8, 58u8, 47u8, 47u8]
}

/// A URI addresses a blob exactly when it is the scheme prefix, 64
/// hexadecimal characters, and at most one trailing slash.
pub open spec fn spec_blob_uri_ok(uri: Seq<u8>) -> bool {
    &&& uri.len() == 76 || (uri.len() == 77 && uri[76] == 47u8)
    &&& uri.subrange(0, 12) == spec_blob_scheme()
    &&& spec_is_hex_seq(uri.subrange(12, 76))
}

/// The hash a well-formed blob URI addresses.
pub open spec fn spec_blob_uri_hash(uri: Seq<u8>) -> Seq<u8> {
    spec_unhex(uri.subrange(12, 76))
}

/// Extracts the blob hash from a `blobstore://` URI, given as bytes.
/// Succeeds exactly on `blobstore://` followed by 64 hexadecimal characters
/// and at most a single trailing slash, and returns the decoded 32-byte
/// hash.
pub fn parse_blob_uri(uri: &[u8]) -> (r: Option<Vec<u8>>)
    ensures
        r is Some <==> spec_blob_uri_ok(uri@),
        r matches Option::Some(h) ==> h@ == spec_blob_uri_hash(uri@) && h@.len() == HASH_LEN,
{
    let scheme: [u8; 12] = [98, 108, 111, 98, 115, 116, 111, 114, 101, 58, 47, 47];
    proof {
        assert(scheme@ =~= spec_blob_scheme());
    }
    if !(uri.len() == 76 || (uri.len() == 77 && uri[76] == 47)) {
        return Option::None;
    }
    let head = crate::bytes::copy_range(uri, 0, 12);
    if !crate::bytes::bytes_eq(head.as_slice(), scheme.as_slice()) {
        assert(uri@.subrange(0, 12) != spec_blob_scheme());
        return Option::None;
    }
    let hex_part = crate::bytes::copy_range(uri, 12, 76);
    match hex_decode(hex_part.as_slice()) {
        Option::None => {
            assert(!spec_is_hex_seq(uri@.subrange(12, 76)));
            Option::None
        },
        Option::Some(h) => {
            assert(h@ == spec_unhex(uri@.subrange(12, 76)));
            assert(h@.len() == HASH_LEN);
            Option::Some(h)
        },
    }
}

/// One step of the blob request state machine: what a request handler does
/// next, given where it stands.
#[derive(Clone, Copy, Debug, PartialEq, Eq, Structural)]
pub enum BlobStep {
    /// Serve the locally available bytes.
    ServeLocal,
    /// Not found locally on the first attempt: try one peer sync, bounded
    /// by the timeout, then look again.
    TrySync,
    /// Give up and report not found.
    NotFound,
}

/// Decides the next step of a blob request: serve a locally available blob;
/// otherwise sync from a peer exactly once, and report not found after the
/// second miss.
pub fn blob_request_step(locally_available: bool, first_attempt: bool) -> (r: BlobStep)
    ensures
        locally_available ==> r == BlobStep::ServeLocal,
        !locally_available && first_attempt ==> r == BlobStep::TrySync,
        !locally_available && !first_attempt ==> r == BlobStep::NotFound,
{
    if locally_available {
        BlobStep::ServeLocal
    } else if first_attempt {
        BlobStep::TrySync
    } else {
        BlobStep::NotFound
    }
}

} // verus!
