use iroh_sdht::framing::{frame_header, frame_length, read_frame, write_frame, FrameError};
use iroh_sdht::protocol::{
    DhtProtocol, FindNodeRequest, FindValueRequest, PingRequest, Reply, StoreRequest,
};
use iroh_sdht::{hash_content, Contact, DhtNode, Key, NodeId};

fn id(n: u8) -> NodeId {
    [n; 32]
}

fn contact(n: u8) -> Contact {
    Contact {
        id: id(n),
        addr: format!("node-{n}"),
    }
}

fn node(n: u8) -> DhtNode {
    DhtNode::new(id(n), contact(n), 20, 3)
}

fn store(n: u8, key: Key, value: &[u8]) -> DhtProtocol {
    DhtProtocol::Store(StoreRequest {
        from: contact(n),
        key,
        value: value.to_vec(),
    })
}

fn find_value(n: u8, key: Key) -> DhtProtocol {
    DhtProtocol::FindValue(FindValueRequest {
        from: contact(n),
        key,
    })
}

fn find_node(n: u8, target: NodeId) -> DhtProtocol {
    DhtProtocol::FindNode(FindNodeRequest {
        from: contact(n),
        target,
    })
}

fn nodes(reply: Reply) -> Vec<Contact> {
    match reply {
        Reply::Nodes(nodes) => nodes,
        other => panic!("{other:?}"),
    }
}

fn value(reply: Reply) -> (Option<Vec<u8>>, Vec<Contact>) {
    match reply {
        Reply::Value(response) => (response.value, response.closer),
        other => panic!("{other:?}"),
    }
}

#[test]
fn a_frame_is_a_little_endian_length_and_the_payload() {
    let mut stream = vec![9];
    write_frame(&mut stream, b"abc");
    assert_eq!(stream, vec![9, 3, 0, 0, 0, b'a', b'b', b'c']);
    assert_eq!(frame_header(0x0102_0304), [4, 3, 2, 1]);
    assert_eq!(frame_length(&[4, 3, 2, 1]), 0x0102_0304);
    assert_eq!(frame_length(&[0xff; 4]), u32::MAX);
}

#[test]
fn a_header_loses_the_higher_bytes_of_a_length() {
    assert_eq!(frame_header(0x1_0000_0005), [5, 0, 0, 0]);
}

#[test]
fn frames_are_read_back_in_order() {
    let mut stream = Vec::new();
    write_frame(&mut stream, b"first");
    write_frame(&mut stream, b"");
    write_frame(&mut stream, &[7; 300]);
    let (payload, taken) = read_frame(&stream).unwrap().unwrap();
    assert_eq!((payload, taken), (b"first".to_vec(), 9));
    let rest = &stream[taken..];
    let (payload, taken) = read_frame(rest).unwrap().unwrap();
    assert_eq!((payload, taken), (Vec::new(), 4));
    let rest = &rest[taken..];
    let (payload, taken) = read_frame(rest).unwrap().unwrap();
    assert_eq!((payload, taken), (vec![7; 300], 304));
    assert_eq!(read_frame(&rest[taken..]), Ok(None));
}

#[test]
fn a_stream_that_ends_in_a_header_is_over() {
    assert_eq!(read_frame(&[]), Ok(None));
    assert_eq!(read_frame(&[1, 0, 0]), Ok(None));
}

#[test]
fn a_stream_that_ends_in_a_payload_is_an_error() {
    assert_eq!(
        read_frame(&[2, 0, 0, 0, 1]),
        Err(FrameError::UnexpectedEnd)
    );
    assert_eq!(
        read_frame(&[0xff, 0xff, 0xff, 0xff]),
        Err(FrameError::UnexpectedEnd)
    );
}

#[test]
fn a_find_node_request_is_answered_with_the_nearest_contacts() {
    let mut node = node(1);
    for n in [8u8, 4, 2] {
        node.observe_contact(contact(n));
    }
    let answer = node.handle_message(find_node(16, id(4)), 0);
    let found: Vec<NodeId> = nodes(answer.reply).iter().map(|c| c.id).collect();
    assert_eq!(found, vec![id(4), id(2), id(8), id(16)]);
    assert!(answer.pending.is_none());
}

#[test]
fn a_stored_value_is_served() {
    let mut node = node(1);
    let key = hash_content(b"content");
    let answer = node.handle_message(store(2, key, b"content"), 0);
    assert!(matches!(answer.reply, Reply::Done));
    let answer = node.handle_message(find_value(3, key), 1);
    assert_eq!(
        value(answer.reply),
        (Some(b"content".to_vec()), Vec::new())
    );
    assert_eq!(node.telemetry_snapshot().stored_keys, 1);
}

#[test]
fn a_missing_value_is_answered_with_contacts() {
    let mut node = node(1);
    let key = hash_content(b"content");
    let answer = node.handle_message(find_value(3, key), 0);
    assert_eq!(value(answer.reply), (None, vec![contact(3)]));
}

#[test]
fn a_value_under_a_wrong_key_is_ignored() {
    let mut node = node(1);
    let answer = node.handle_message(store(2, id(0), b"content"), 0);
    assert!(matches!(answer.reply, Reply::Done));
    let snapshot = node.telemetry_snapshot();
    assert_eq!(snapshot.stored_keys, 0);
    assert_eq!(snapshot.pressure, Some(0));
    // the sender is known all the same
    assert_eq!(node.closest(&id(2)), vec![contact(2)]);
}

#[test]
fn a_ping_is_acknowledged_and_leaves_no_trace() {
    let mut node = node(1);
    let message = DhtProtocol::Ping(PingRequest { from: contact(2) });
    let answer = node.handle_message(message, 0);
    assert!(matches!(answer.reply, Reply::Done));
    assert!(answer.pending.is_none());
    assert!(node.closest(&id(2)).is_empty());
}

#[test]
fn a_crowded_bucket_is_left_to_be_pinged() {
    let mut node = DhtNode::new(id(0), contact(0), 1, 3);
    node.handle_message(find_node(0x81, id(0)), 0);
    let answer = node.handle_message(find_node(0x82, id(0)), 0);
    let pending = answer.pending.expect("the bucket is full");
    assert_eq!(pending.oldest, contact(0x81));
    assert_eq!(pending.new_contact, contact(0x82));
    assert_eq!(nodes(answer.reply), vec![contact(0x81)]);
    node.apply_ping_result(pending, false);
    assert_eq!(node.closest(&id(0)), vec![contact(0x82)]);
}
