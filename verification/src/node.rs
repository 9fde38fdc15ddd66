//! Routing of inbound network messages and outbound publishes.
//!
//! The node actor multiplexes gossip and sync messages into the stream
//! controller. A gossip message that does not frame an operation is routed
//! to the ephemeral path; a malformed sync message is dropped.

use vstd::prelude::*;

use crate::crypto::{hash_bytes, hash_of, HASH_LEN};
use crate::operation::{
    decode_gossip_message, decode_header, encode_gossip_message, header_id, header_wf,
    opt_bytes_view, spec_encode_gossip, spec_encode_header, spec_header_id, Header, HeaderV,
};

verus! {

/// An inbound message from the network layer.
pub enum FromNetworkEvent {
    /// A live gossip payload.
    GossipMessage { bytes: Vec<u8> },
    /// An operation delivered by a sync session.
    SyncMessage { header_bytes: Vec<u8>, payload: Option<Vec<u8>> },
}

/// Where an inbound message goes.
pub enum RouteDecision {
    /// A decoded operation, bound for the ingestion pipeline.
    Ingest { header: Header, body: Option<Vec<u8>> },
    /// Raw bytes that do not frame an operation, bound for the ephemeral
    /// path.
    Ephemeral { bytes: Vec<u8> },
    /// A malformed sync message; dropped.
    Drop,
}

/// Routes one inbound network message. A gossip message that frames a
/// well-formed operation goes to the pipeline; one that does not is treated
/// as an ephemeral payload. A sync message goes to the pipeline, or is
/// dropped when malformed; the ephemeral path never fires for sync.
pub fn route_network_event(event: FromNetworkEvent) -> (r: RouteDecision)
    ensures
        r matches RouteDecision::Ingest { header, body } ==> header_wf(header@),
        event matches FromNetworkEvent::GossipMessage { bytes } ==> match r {
            RouteDecision::Ingest { header, body } => exists|hb: Seq<u8>|
                bytes@ == spec_encode_gossip(hb, opt_bytes_view(body)) && #[trigger] (
                spec_encode_header(header@)) == hb,
            RouteDecision::Ephemeral { bytes: eb } => eb@ == bytes@,
            RouteDecision::Drop => false,
        },
        event matches FromNetworkEvent::GossipMessage { bytes } ==> forall|
            h: HeaderV,
            b: Option<Seq<u8>>,
        |
            header_wf(h) && bytes@ == #[trigger] spec_encode_gossip(spec_encode_header(h), b)
                ==> (r matches RouteDecision::Ingest { header, body } && header@ == h
                && opt_bytes_view(body) == b),
        event matches FromNetworkEvent::SyncMessage { header_bytes, payload } ==> match r {
            RouteDecision::Ingest { header, body } => header_bytes@ == spec_encode_header(header@)
                && opt_bytes_view(body) == opt_bytes_view(payload),
            RouteDecision::Ephemeral { .. } => false,
            RouteDecision::Drop => forall|h: HeaderV|
                header_wf(h) ==> header_bytes@ != #[trigger] spec_encode_header(h),
        },
{
    match event {
        FromNetworkEvent::GossipMessage { bytes } => {
            match decode_gossip_message(bytes.as_slice()) {
                Result::Err(_) => RouteDecision::Ephemeral { bytes },
                Result::Ok((header_bytes, body)) => {
                    match decode_header(header_bytes.as_slice()) {
                        Result::Err(_) => RouteDecision::Ephemeral { bytes },
                        Result::Ok(header) => {
                            proof {
                                assert(spec_encode_header(header@) == header_bytes@);
                            }
                            RouteDecision::Ingest { header, body }
                        },
                    }
                },
            }
        },
        FromNetworkEvent::SyncMessage { header_bytes, payload } => {
            match decode_header(header_bytes.as_slice()) {
                Result::Err(_) => RouteDecision::Drop,
                Result::Ok(header) => RouteDecision::Ingest { header, body: payload },
            }
        },
    }
}

/// Prepares a local publish: the operation's id and the gossip encoding to
/// broadcast on the topic.
pub fn prepare_publish(header: &Header, body: Option<&Vec<u8>>) -> (r: (Vec<u8>, Vec<u8>))
    ensures
        r.0@ == spec_header_id(header@),
        r.0@.len() == HASH_LEN,
        r.1@ == spec_encode_gossip(
            spec_encode_header(header@),
            match body {
                Option::None => Option::<Seq<u8>>::None,
                Option::Some(b) => Option::Some(b@),
            },
        ),
{
    let id = header_id(header);
    let bytes = encode_gossip_message(header, body);
    (id, bytes)
}

/// The network identifier this node joins: the hash of the application
/// name.
pub fn network_id() -> (r: Vec<u8>)
    ensures
        r@ == hash_of(seq![116u8, 111u8, 111u8, 108u8, 107u8, 105u8, 116u8, 116u8, 121u8]),
        r@.len() == HASH_LEN,
{
    let name: [u8; 9] = [116, 111, 111, 108, 107, 105, 116, 116, 121];
    proof {
        assert(name@ =~= seq![116u8, 111u8, 111u8, 108u8, 107u8, 105u8, 116u8, 116u8, 121u8]);
    }
    hash_bytes(name.as_slice())
}


/// Records a topic subscription if it is new: returns whether the topic id
/// was fresh, and appends it exactly then. The underlying network is
/// subscribed, and the subscription event emitted, only for a fresh topic.
pub fn note_subscription(subs: &mut Vec<Vec<u8>>, topic_id: &[u8]) -> (fresh: bool)
    ensures
        fresh <==> !(exists|j: int| 0 <= j < old(subs)@.len() && (#[trigger] old(subs)@[j])@ == topic_id@),
        fresh ==> final(subs)@.len() == old(subs)@.len() + 1 && final(subs)@.last()@ == topic_id@
            && (forall|j: int|
            0 <= j < old(subs)@.len() ==> #[trigger] final(subs)@[j] == old(subs)@[j]),
        !fresh ==> final(subs)@ == old(subs)@,
{
    let mut j: usize = 0;
    while j < subs.len()
        invariant
            j <= subs@.len(),
            subs@ == old(subs)@,
            forall|j2: int| 0 <= j2 < j ==> (#[trigger] subs@[j2])@ != topic_id@,
        decreases subs@.len() - j,
    {
        if crate::bytes::bytes_eq(subs[j].as_slice(), topic_id) {
            return false;
        }
        j += 1;
    }
    let copy = crate::bytes::copy_range(topic_id, 0, topic_id.len());
    proof {
        assert(copy@ =~= topic_id@);
    }
    subs.push(copy);
    true
}

/// Decides a broadcast: send on a registered topic's channel, silently drop
/// when the topic was never subscribed.
pub fn broadcast_route(subs: &Vec<Vec<u8>>, topic_id: &[u8]) -> (send: bool)
    ensures
        send <==> exists|j: int| 0 <= j < subs@.len() && (#[trigger] subs@[j])@ == topic_id@,
{
    let mut j: usize = 0;
    while j < subs.len()
        invariant
            j <= subs@.len(),
            forall|j2: int| 0 <= j2 < j ==> (#[trigger] subs@[j2])@ != topic_id@,
        decreases subs@.len() - j,
    {
        if crate::bytes::bytes_eq(subs[j].as_slice(), topic_id) {
            return true;
        }
        j += 1;
    }
    false
}

} // verus!
