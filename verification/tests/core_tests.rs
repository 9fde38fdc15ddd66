use toolkitty_core::blobs::{blob_request_step, parse_blob_uri, BlobStep};
use toolkitty_core::extensions::{Extensions, LogPath, Stream, StreamOwner, StreamRootHash};
use toolkitty_core::hexfmt::{hex_decode, hex_encode};
use toolkitty_core::messages::{InitError, MessageType};
use toolkitty_core::operation::{
    check_signature, decode_gossip_message, decode_header, encode_gossip_message, encode_header,
    extract_log_id, header_id,
};
use toolkitty_core::store::{create_operation, LogStore};
use toolkitty_core::stream::{
    ingest_operation, EventData, IngestOutcome, ReplayRequest, StreamController, StreamError,
    ToStreamController,
};
use toolkitty_core::topic::{Topic, TopicMap};

const SECRET_A: [u8; 32] = [7u8; 32];
const SECRET_B: [u8; 32] = [9u8; 32];

fn public_key_of(secret: &[u8]) -> Vec<u8> {
    toolkitty_core::crypto::derive_public_key(secret)
}

fn inbox_extensions(root: Option<Vec<u8>>, owner: Option<Vec<u8>>) -> Extensions {
    Extensions {
        stream_root_hash: root.map(|bytes| StreamRootHash { bytes }),
        stream_owner: owner.map(|bytes| StreamOwner { bytes }),
        log_path: Some(LogPath::from_str("inbox")),
        prune_flag: false,
    }
}

const PAYLOAD: &[u8] = b"{\"message\":\"organize!\"}";

#[test]
fn parse_blobstore_uri() {
    assert!(parse_blob_uri(
        b"blobstore://3a9ff2cbee2fe12c1c9bd42f9ec18b34fffe42be6d34f4c670fb39cac373d278"
    )
    .is_some());

    // Trailing slash is ok.
    assert!(parse_blob_uri(
        b"blobstore://3a9ff2cbee2fe12c1c9bd42f9ec18b34fffe42be6d34f4c670fb39cac373d278/"
    )
    .is_some());

    // Invalid schema.
    assert!(parse_blob_uri(
        b"unknown://3a9ff2cbee2fe12c1c9bd42f9ec18b34fffe42be6d34f4c670fb39cac373d278"
    )
    .is_none());

    // Invalid hexadecimal characters.
    assert!(parse_blob_uri(b"blobstore://invalidhash").is_none());

    // Too long hash.
    assert!(parse_blob_uri(
        b"blobstore://3a9ff2cbee2fe12c1c9bd42f9ec18b34fffe42be6d34f4c670fb39cac373d2781256"
    )
    .is_none());

    // Invalid suffix.
    assert!(parse_blob_uri(
        b"blobstore://3a9ff2cbee2fe12c1c9bd42f9ec18b34fffe42be6d34f4c670fb39cac373d278/more/things?here"
    )
    .is_none());
    assert!(parse_blob_uri(
        b"blobstore://3a9ff2cbee2fe12c1c9bd42f9ec18b34fffe42be6d34f4c670fb39cac373d278/?here"
    )
    .is_none());
}

#[test]
fn parsed_blob_hash_decodes_hex() {
    let uri = b"blobstore://3a9ff2cbee2fe12c1c9bd42f9ec18b34fffe42be6d34f4c670fb39cac373d278";
    let hash = parse_blob_uri(uri).unwrap();
    assert_eq!(hash.len(), 32);
    assert_eq!(hash[0], 0x3a);
    assert_eq!(hash[31], 0x78);
}

#[test]
fn blob_request_steps() {
    assert_eq!(blob_request_step(true, true), BlobStep::ServeLocal);
    assert_eq!(blob_request_step(true, false), BlobStep::ServeLocal);
    assert_eq!(blob_request_step(false, true), BlobStep::TrySync);
    assert_eq!(blob_request_step(false, false), BlobStep::NotFound);
}

#[test]
fn hex_round_trip() {
    let encoded = hex_encode(&[0xde, 0xad, 0x01, 0x00]);
    assert_eq!(encoded, b"dead0100".to_vec());
    let decoded = hex_decode(b"dead0100").unwrap();
    assert_eq!(decoded, vec![0xde, 0xad, 0x01, 0x00]);
    // Upper case decodes too; odd length and bad digits fail.
    assert_eq!(hex_decode(b"DEAD0100").unwrap(), vec![0xde, 0xad, 0x01, 0x00]);
    assert!(hex_decode(b"abc").is_none());
    assert!(hex_decode(b"zz").is_none());
}

/// Local publish and surface: the first operation of a stream carries no
/// stream fields; extraction defaults them to the operation's own id and
/// the author.
#[test]
fn publish_and_surface() {
    let store = LogStore::new();
    let mut controller = StreamController::new(store);
    let public_key = public_key_of(&SECRET_A);

    let (header, body) = create_operation(
        &controller.store,
        &SECRET_A,
        inbox_extensions(None, None),
        Some(PAYLOAD),
        10,
    );
    let operation_id = header_id(&header);
    assert!(check_signature(&header));
    assert_eq!(header.seq_num, 0);
    assert!(header.backlink.is_none());
    assert_eq!(header.timestamp, 10);

    let events = controller.ingest(header, body);
    assert_eq!(events.len(), 1);
    let meta = events[0].meta.as_ref().unwrap();
    assert_eq!(meta.operation_id, operation_id);
    assert_eq!(meta.author, public_key);
    // Stream defaults: root hash is the operation's own id, owner is the
    // author.
    assert_eq!(meta.stream.root_hash.bytes, operation_id);
    assert_eq!(meta.stream.owner.bytes, public_key);
    assert_eq!(meta.log_path.as_ref().unwrap().bytes, b"inbox".to_vec());
    match &events[0].data {
        EventData::Application(data) => assert_eq!(data, &PAYLOAD.to_vec()),
        _ => panic!("expected application data"),
    }
}

fn publish_next(
    controller: &mut StreamController,
    secret: &[u8],
    root: &[u8],
    owner: &[u8],
    ts: u64,
) -> (Vec<u8>, usize) {
    let (header, body) = create_operation(
        &controller.store,
        secret,
        inbox_extensions(Some(root.to_vec()), Some(owner.to_vec())),
        Some(PAYLOAD),
        ts,
    );
    let id = header_id(&header);
    let events = controller.ingest(header, body);
    (id, events.len())
}

/// Ack moves the replay cursor; replay emits exactly the unacknowledged
/// tail in sequence order.
#[test]
fn replay_unacked_operations() {
    let store = LogStore::new();
    let mut controller = StreamController::new(store);
    let public_key = public_key_of(&SECRET_A);

    // Create and ingest operation 0.
    let (header_0, body_0) = create_operation(
        &controller.store,
        &SECRET_A,
        inbox_extensions(None, None),
        Some(PAYLOAD),
        1,
    );
    let operation_id_0 = header_id(&header_0);
    let log_id = extract_log_id(&header_0).unwrap();
    let events = controller.ingest(header_0, body_0);
    assert_eq!(events.len(), 1);

    // Acknowledge operation 0.
    assert!(controller.ack(&operation_id_0).is_ok());

    // Ask to replay the log; expect nothing.
    let events = controller.replay_log(&public_key, &log_id);
    assert_eq!(events.len(), 0);

    // Create and ingest operations 1 and 2, in the stream rooted at
    // operation 0.
    let (operation_id_1, emitted_1) =
        publish_next(&mut controller, &SECRET_A, &operation_id_0, &public_key, 2);
    assert_eq!(emitted_1, 1);
    let (operation_id_2, emitted_2) =
        publish_next(&mut controller, &SECRET_A, &operation_id_0, &public_key, 3);
    assert_eq!(emitted_2, 1);

    // Replay the log: expect exactly operations 1 and 2, in order.
    let events = controller.replay_log(&public_key, &log_id);
    assert_eq!(events.len(), 2);
    assert_eq!(events[0].meta.as_ref().unwrap().operation_id, operation_id_1);
    assert_eq!(events[1].meta.as_ref().unwrap().operation_id, operation_id_2);

    // Acknowledge both; replay is empty again.
    assert!(controller.ack(&operation_id_1).is_ok());
    assert!(controller.ack(&operation_id_2).is_ok());
    let events = controller.replay_log(&public_key, &log_id);
    assert_eq!(events.len(), 0);

    // Acknowledging an earlier operation again does not move the cursor
    // back.
    assert!(controller.ack(&operation_id_0).is_ok());
    let events = controller.replay_log(&public_key, &log_id);
    assert_eq!(events.len(), 0);
}

/// The replay command covers several logs at once.
#[test]
fn replay_command_over_requests() {
    let store = LogStore::new();
    let mut controller = StreamController::new(store);
    let public_key = public_key_of(&SECRET_A);

    let (header_0, body_0) = create_operation(
        &controller.store,
        &SECRET_A,
        inbox_extensions(None, None),
        Some(PAYLOAD),
        1,
    );
    let operation_id_0 = header_id(&header_0);
    let log_id = extract_log_id(&header_0).unwrap();
    controller.ingest(header_0, body_0);

    let logs = vec![ReplayRequest { author: public_key.clone(), log_ids: vec![log_id] }];
    let (result, events) = controller.handle_command(ToStreamController::Replay { logs });
    assert!(result.is_ok());
    assert_eq!(events.len(), 1);
    assert_eq!(events[0].meta.as_ref().unwrap().operation_id, operation_id_0);
}

/// An unknown id cannot be acknowledged.
#[test]
fn ack_unknown_operation_fails() {
    let store = LogStore::new();
    let mut controller = StreamController::new(store);
    let missing = [0u8; 32];
    assert!(controller.ack(&missing).is_err());
}

/// The pipeline decides duplicates, forks, bad backlinks and bad first
/// operations exactly.
#[test]
fn pipeline_rejections() {
    let mut store = LogStore::new();
    let (header_0, body_0) = create_operation(
        &store,
        &SECRET_A,
        inbox_extensions(None, None),
        Some(PAYLOAD),
        1,
    );
    let operation_id_0 = header_id(&header_0);
    let public_key = public_key_of(&SECRET_A);

    let r = ingest_operation(&mut store, &header_0, &body_0);
    assert_eq!(r, IngestOutcome::Persisted { pruned: false });

    // Same operation again: dropped silently.
    let r = ingest_operation(&mut store, &header_0, &body_0);
    assert_eq!(r, IngestOutcome::Duplicate);

    // A different operation at the same sequence number: a fork.
    let (fork, fork_body) = create_operation(
        &LogStore::new(),
        &SECRET_A,
        inbox_extensions(Some(operation_id_0.clone()), Some(public_key.clone())),
        Some(b"{\"message\":\"other\"}".as_slice()),
        9,
    );
    assert_eq!(fork.seq_num, 0);
    // A different operation at sequence zero of a log that already holds a
    // different entry there is a fork.
    let r = ingest_operation(&mut store, &fork, &fork_body);
    assert_eq!(r, IngestOutcome::Rejected(StreamError::Fork));

    // Body not matching the declared payload hash.
    let (header_1, _) = create_operation(
        &store,
        &SECRET_A,
        inbox_extensions(Some(operation_id_0.clone()), Some(public_key.clone())),
        Some(PAYLOAD),
        2,
    );
    let wrong_body = Some(b"{\"message\":\"tampered\"}".to_vec());
    let r = ingest_operation(&mut store, &header_1, &wrong_body);
    assert_eq!(r, IngestOutcome::Rejected(StreamError::PayloadMismatch));
}

/// An out-of-order operation is buffered and released when its predecessor
/// arrives, in sequence order.
#[test]
fn out_of_order_operations_are_buffered() {
    let store = LogStore::new();
    let mut controller = StreamController::new(store);
    let public_key = public_key_of(&SECRET_A);

    // Forge three operations against a private store.
    let mut forge_store = LogStore::new();
    let (header_0, body_0) = create_operation(
        &forge_store,
        &SECRET_A,
        inbox_extensions(None, None),
        Some(PAYLOAD),
        1,
    );
    let operation_id_0 = header_id(&header_0);
    let r = ingest_operation(&mut forge_store, &header_0, &body_0);
    assert_eq!(r, IngestOutcome::Persisted { pruned: false });
    let (header_1, body_1) = create_operation(
        &forge_store,
        &SECRET_A,
        inbox_extensions(Some(operation_id_0.clone()), Some(public_key.clone())),
        Some(PAYLOAD),
        2,
    );
    let operation_id_1 = header_id(&header_1);
    let r = ingest_operation(&mut forge_store, &header_1, &body_1);
    assert_eq!(r, IngestOutcome::Persisted { pruned: false });
    let (header_2, body_2) = create_operation(
        &forge_store,
        &SECRET_A,
        inbox_extensions(Some(operation_id_0.clone()), Some(public_key.clone())),
        Some(PAYLOAD),
        3,
    );
    let operation_id_2 = header_id(&header_2);

    // Deliver out of order: 2 first (buffered), then 0 (emits 0), then 1
    // (emits 1 and releases 2).
    let events = controller.ingest(header_2, body_2);
    assert_eq!(events.len(), 0);
    let events = controller.ingest(header_0, body_0);
    assert_eq!(events.len(), 1);
    assert_eq!(events[0].meta.as_ref().unwrap().operation_id, operation_id_0);
    let events = controller.ingest(header_1, body_1);
    assert_eq!(events.len(), 2);
    assert_eq!(events[0].meta.as_ref().unwrap().operation_id, operation_id_1);
    assert_eq!(events[1].meta.as_ref().unwrap().operation_id, operation_id_2);
}

/// A set prune flag deletes all earlier entries of the log.
#[test]
fn prune_truncates_log() {
    let mut store = LogStore::new();
    let public_key = public_key_of(&SECRET_A);
    let (header_0, body_0) = create_operation(
        &store,
        &SECRET_A,
        inbox_extensions(None, None),
        Some(PAYLOAD),
        1,
    );
    let operation_id_0 = header_id(&header_0);
    let log_id = extract_log_id(&header_0).unwrap();
    ingest_operation(&mut store, &header_0, &body_0);

    let mut extensions =
        inbox_extensions(Some(operation_id_0.clone()), Some(public_key.clone()));
    extensions.prune_flag = true;
    let (header_1, body_1) = create_operation(&store, &SECRET_A, extensions, Some(PAYLOAD), 2);
    let operation_id_1 = header_id(&header_1);
    let r = ingest_operation(&mut store, &header_1, &body_1);
    assert_eq!(r, IngestOutcome::Persisted { pruned: true });

    // Only the pruning operation remains; the log now starts at its
    // sequence number.
    let ops = store.collect_from(&public_key, &log_id, 0);
    assert_eq!(ops.len(), 1);
    assert_eq!(ops[0].header.seq_num, 1);
    assert_eq!(header_id(&ops[0].header), operation_id_1);
}

/// Encoding then decoding a header or a gossip message is the identity;
/// the operation id is the hash of the encoded header.
#[test]
fn codec_round_trip() {
    let store = LogStore::new();
    let (header, body) = create_operation(
        &store,
        &SECRET_A,
        inbox_extensions(None, None),
        Some(PAYLOAD),
        42,
    );
    let encoded = encode_header(&header);
    let decoded = decode_header(&encoded).unwrap();
    assert_eq!(encode_header(&decoded), encoded);
    assert_eq!(decoded.seq_num, header.seq_num);
    assert_eq!(decoded.timestamp, header.timestamp);
    assert_eq!(decoded.public_key, header.public_key);
    assert_eq!(decoded.signature, header.signature);
    assert_eq!(header_id(&decoded), header_id(&header));
    assert!(check_signature(&decoded));

    let gossip = encode_gossip_message(&header, body.as_ref());
    let (header_bytes, gossip_body) = decode_gossip_message(&gossip).unwrap();
    assert_eq!(header_bytes, encoded);
    assert_eq!(gossip_body, body);

    // Malformed inputs are rejected.
    assert!(decode_header(b"junk").is_err());
    assert!(decode_gossip_message(b"junk").is_err());
}

/// A header signed by one key does not verify after tampering.
#[test]
fn tampered_header_fails_signature() {
    let store = LogStore::new();
    let (mut header, _body) = create_operation(
        &store,
        &SECRET_A,
        inbox_extensions(None, None),
        Some(PAYLOAD),
        42,
    );
    assert!(check_signature(&header));
    header.timestamp = 43;
    assert!(!check_signature(&header));
}

/// Topic ids are stable: equal topics agree, distinct topics differ.
#[test]
fn topic_id_stability() {
    let a1 = Topic::Persisted("chat".to_string());
    let a2 = Topic::Persisted("chat".to_string());
    let b = Topic::Ephemeral("chat".to_string());
    let c = Topic::Persisted("calendar".to_string());
    assert_eq!(a1.id(), a2.id());
    assert_eq!(a1.id().len(), 32);
    assert_ne!(a1.id(), b.id());
    assert_ne!(a1.id(), c.id());
    assert!(a1.matches(&a2));
    assert!(!a1.matches(&b));
    assert!(!a1.matches(&c));
}

/// Ephemeral topics have an empty sync set; persisted topics reflect what
/// was added.
#[test]
fn topic_map_routing() {
    let map = TopicMap::new();
    let ephemeral = Topic::Ephemeral("hello".to_string());
    let persisted = Topic::Persisted("messages".to_string());

    let logs = map.get(&ephemeral).unwrap();
    assert_eq!(logs.len(), 0);
    assert!(map.get(&persisted).is_none());
}

/// An ephemeral command surfaces the payload unchanged and persists
/// nothing.
#[test]
fn ephemeral_bypasses_pipeline() {
    let store = LogStore::new();
    let mut controller = StreamController::new(store);
    let (result, events) = controller.handle_command(ToStreamController::Ephemeral {
        bytes: b"{\"message\":\"hi\"}".to_vec(),
    });
    assert!(result.is_ok());
    assert_eq!(events.len(), 1);
    assert!(events[0].meta.is_none());
    match &events[0].data {
        EventData::Ephemeral(data) => assert_eq!(data, &b"{\"message\":\"hi\"}".to_vec()),
        _ => panic!("expected ephemeral data"),
    }
    assert_eq!(controller.store.logs.len(), 0);
}

/// The stream identifier is derived from the root hash and the owner.
#[test]
fn stream_id_and_log_id() {
    let root = vec![1u8; 32];
    let owner = vec![2u8; 32];
    let stream = Stream {
        root_hash: StreamRootHash { bytes: root.clone() },
        owner: StreamOwner { bytes: owner.clone() },
    };
    let id = stream.id();
    assert_eq!(id.len(), 32);
    let log_id = toolkitty_core::extensions::to_log_id(
        &stream,
        &Some(LogPath::from_str("inbox")),
    );
    // 64 hexadecimal characters, a slash, then the path.
    assert_eq!(log_id.bytes.len(), 64 + 1 + 5);
    assert_eq!(log_id.bytes[64], b'/');
    assert_eq!(&log_id.bytes[65..], b"inbox");
    assert_eq!(hex_decode(&log_id.bytes[..64]).unwrap(), id);
}

#[test]
fn message_kinds() {
    let m = MessageType::Application;
    assert_eq!(m, MessageType::Application);
    assert_eq!(
        InitError::SetStreamChannelError.as_str(),
        "stream channel already set"
    );
    assert_eq!(
        InitError::OneshotChannelError.as_str(),
        "oneshot channel receiver closed"
    );
}

/// Two authors contribute to the same stream under their own logs.
#[test]
fn two_authors_one_stream() {
    let store = LogStore::new();
    let mut controller = StreamController::new(store);
    let public_key_a = public_key_of(&SECRET_A);

    let (header_a, body_a) = create_operation(
        &controller.store,
        &SECRET_A,
        inbox_extensions(None, None),
        Some(PAYLOAD),
        1,
    );
    let operation_id_a = header_id(&header_a);
    controller.ingest(header_a, body_a);

    // B publishes into A's stream.
    let (header_b, body_b) = create_operation(
        &controller.store,
        &SECRET_B,
        inbox_extensions(Some(operation_id_a.clone()), Some(public_key_a.clone())),
        Some(b"{\"message\":\"Hell yeah!\"}".as_slice()),
        2,
    );
    assert_eq!(header_b.seq_num, 0);
    let events = controller.ingest(header_b, body_b);
    assert_eq!(events.len(), 1);
    let meta = events[0].meta.as_ref().unwrap();
    assert_eq!(meta.author, public_key_of(&SECRET_B));
    assert_eq!(meta.stream.root_hash.bytes, operation_id_a);
    assert_eq!(meta.stream.owner.bytes, public_key_a);
    assert_eq!(controller.store.logs.len(), 2);
}

/// Recording a log under a topic is idempotent and per author.
#[test]
fn topic_map_add_log() {
    let mut map = TopicMap::new();
    let topic = Topic::Persisted("messages".to_string());
    let author_a = public_key_of(&SECRET_A);
    let author_b = public_key_of(&SECRET_B);
    let log_id = toolkitty_core::extensions::LogId { bytes: b"aa/inbox".to_vec() };
    let other_log = toolkitty_core::extensions::LogId { bytes: b"aa/outbox".to_vec() };

    map.add_log(&topic, &author_a, &log_id);
    map.add_log(&topic, &author_a, &log_id);
    map.add_log(&topic, &author_a, &other_log);
    map.add_log(&topic, &author_b, &log_id);

    let logs = map.get(&topic).unwrap();
    assert_eq!(logs.len(), 2);
    assert_eq!(logs[0].author, author_a);
    assert_eq!(logs[0].log_ids.len(), 2);
    assert_eq!(logs[0].log_ids[0].bytes, b"aa/inbox".to_vec());
    assert_eq!(logs[0].log_ids[1].bytes, b"aa/outbox".to_vec());
    assert_eq!(logs[1].author, author_b);
    assert_eq!(logs[1].log_ids.len(), 1);

    // Ephemeral topics still sync nothing.
    let ephemeral = Topic::Ephemeral("messages".to_string());
    assert_eq!(map.get(&ephemeral).unwrap().len(), 0);
}

/// Subscriptions are recorded once; broadcasts go only to subscribed
/// topics.
#[test]
fn subscription_bookkeeping() {
    let mut subs: Vec<Vec<u8>> = Vec::new();
    let chat = Topic::Persisted("chat".to_string()).id();
    let other = Topic::Persisted("other".to_string()).id();
    assert!(toolkitty_core::node::note_subscription(&mut subs, &chat));
    assert!(!toolkitty_core::node::note_subscription(&mut subs, &chat));
    assert_eq!(subs.len(), 1);
    assert!(toolkitty_core::node::broadcast_route(&subs, &chat));
    assert!(!toolkitty_core::node::broadcast_route(&subs, &other));
}

/// A gossip message framing an operation reaches the pipeline; junk goes to
/// the ephemeral path; a malformed sync message is dropped.
#[test]
fn network_routing() {
    let store = LogStore::new();
    let (header, body) = create_operation(
        &store,
        &SECRET_A,
        inbox_extensions(None, None),
        Some(PAYLOAD),
        5,
    );
    let operation_id = header_id(&header);
    let gossip = encode_gossip_message(&header, body.as_ref());
    match toolkitty_core::node::route_network_event(toolkitty_core::node::FromNetworkEvent::GossipMessage { bytes: gossip }) {
        toolkitty_core::node::RouteDecision::Ingest { header: h, body: b } => {
            assert_eq!(header_id(&h), operation_id);
            assert_eq!(b, body);
        }
        _ => panic!("expected the pipeline route"),
    }
    match toolkitty_core::node::route_network_event(toolkitty_core::node::FromNetworkEvent::GossipMessage {
        bytes: b"{\"message\":\"hi\"}".to_vec(),
    }) {
        toolkitty_core::node::RouteDecision::Ephemeral { bytes } => {
            assert_eq!(bytes, b"{\"message\":\"hi\"}".to_vec())
        }
        _ => panic!("expected the ephemeral route"),
    }
    match toolkitty_core::node::route_network_event(toolkitty_core::node::FromNetworkEvent::SyncMessage {
        header_bytes: encode_header(&header),
        payload: body.clone(),
    }) {
        toolkitty_core::node::RouteDecision::Ingest { header: h, .. } => assert_eq!(header_id(&h), operation_id),
        _ => panic!("expected the pipeline route"),
    }
    match toolkitty_core::node::route_network_event(toolkitty_core::node::FromNetworkEvent::SyncMessage {
        header_bytes: b"junk".to_vec(),
        payload: None,
    }) {
        toolkitty_core::node::RouteDecision::Drop => {}
        _ => panic!("expected a drop"),
    }
}

/// Decoding a canonical encoding returns exactly the encoded header.
#[test]
fn decode_is_inverse_of_encode() {
    let store = LogStore::new();
    let public_key = public_key_of(&SECRET_A);
    let (header_0, body_0) = create_operation(
        &store,
        &SECRET_A,
        inbox_extensions(None, None),
        Some(PAYLOAD),
        7,
    );
    let mut forge_store = LogStore::new();
    ingest_operation(&mut forge_store, &header_0, &body_0);
    let mut extensions =
        inbox_extensions(Some(header_id(&header_0)), Some(public_key.clone()));
    extensions.prune_flag = true;
    let (header_1, _body_1) = create_operation(&forge_store, &SECRET_A, extensions, None, 8);

    for header in [&header_0, &header_1] {
        let decoded = decode_header(&encode_header(header)).unwrap();
        assert_eq!(decoded.version, header.version);
        assert_eq!(decoded.public_key, header.public_key);
        assert_eq!(decoded.signature, header.signature);
        assert_eq!(decoded.payload_size, header.payload_size);
        assert_eq!(decoded.payload_hash, header.payload_hash);
        assert_eq!(decoded.timestamp, header.timestamp);
        assert_eq!(decoded.seq_num, header.seq_num);
        assert_eq!(decoded.backlink, header.backlink);
        assert_eq!(header_id(&decoded), header_id(header));
        let d = decoded.extensions.as_ref().unwrap();
        let o = header.extensions.as_ref().unwrap();
        assert_eq!(d.prune_flag, o.prune_flag);
        assert_eq!(
            d.log_path.as_ref().map(|p| p.bytes.clone()),
            o.log_path.as_ref().map(|p| p.bytes.clone())
        );
    }
}

/// Acknowledging an operation whose header carries no extensions fails
/// with the log id missing.
#[test]
fn ack_without_log_id_fails() {
    let store = LogStore::new();
    let mut controller = StreamController::new(store);
    let (mut header, body) = create_operation(
        &store_for_forge(),
        &SECRET_A,
        inbox_extensions(None, None),
        Some(PAYLOAD),
        1,
    );
    // Strip the extensions and re-sign: a valid operation without a log id
    // cannot enter the store, so acking its id reports it unknown.
    header.extensions = None;
    let id = header_id(&header);
    let events = controller.ingest(header, body);
    assert_eq!(events.len(), 0);
    assert_eq!(
        controller.ack(&id),
        Err(toolkitty_core::stream::StreamControllerError::AckedUnknownOperation)
    );
}

fn store_for_forge() -> LogStore {
    LogStore::new()
}
