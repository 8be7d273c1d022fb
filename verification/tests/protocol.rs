use comlink::protocol::move_transferred_buffers;
use comlink::{ArrayBuffer, BufferStore, Envelope, Message, MessageType, Transferable, Value, WireValue};

fn path(p: &[&str]) -> Vec<String> {
    p.iter().map(|s| s.to_string()).collect()
}

#[test]
fn messages_report_id_type_and_path() {
    let get = Message::Get {
        id: "1".to_string(),
        path: path(&["a", "b"]),
    };
    assert_eq!(get.id(), "1");
    assert_eq!(get.message_type(), MessageType::Get);
    assert_eq!(get.path(), &path(&["a", "b"])[..]);

    let set = Message::Assign {
        id: "2".to_string(),
        path: path(&["x"]),
        value: WireValue::Raw { value: Value::Null },
    };
    assert_eq!(set.message_type(), MessageType::Assign);
    assert_eq!(set.path(), &path(&["x"])[..]);

    let release = Message::Release { id: "3".to_string() };
    assert_eq!(release.id(), "3");
    assert_eq!(release.message_type(), MessageType::Release);
    assert!(release.path().is_empty());

    let endpoint = Message::Endpoint { id: "4".to_string() };
    assert_eq!(endpoint.message_type(), MessageType::Endpoint);
    assert!(endpoint.path().is_empty());

    let apply = Message::Apply {
        id: "5".to_string(),
        path: path(&["f"]),
        argument_list: vec![],
    };
    assert_eq!(apply.message_type(), MessageType::Apply);
    let construct = Message::Construct {
        id: "6".to_string(),
        path: vec![],
        argument_list: vec![],
    };
    assert_eq!(construct.message_type(), MessageType::Construct);
}

#[test]
fn will_transfer_buffers() {
    let mut store = BufferStore::new();
    let buf = ArrayBuffer::new(&mut store, vec![1, 2, 3]);
    let mut env = Envelope::Request(Message::Apply {
        id: "t".to_string(),
        path: vec![],
        argument_list: vec![WireValue::Raw {
            value: Value::Buffer(buf.clone()),
        }],
    });
    move_transferred_buffers(&mut env, &vec![Transferable::Buffer(buf.clone())], &mut store);
    // The sender is left holding an empty buffer...
    assert_eq!(buf.byte_length(&store), 0);
    // ...and the envelope carries the bytes in a buffer of its own.
    match env {
        Envelope::Request(Message::Apply { argument_list, .. }) => match &argument_list[0] {
            WireValue::Raw {
                value: Value::Buffer(moved),
            } => {
                assert!(!moved.same(&buf));
                assert_eq!(moved.to_vec(&store), vec![1, 2, 3]);
            }
            other => panic!("expected a buffer, got {:?}", other),
        },
        other => panic!("expected an apply, got {:?}", other),
    }
}

#[test]
fn will_transfer_deeply_nested_buffers() {
    let mut store = BufferStore::new();
    let buf = ArrayBuffer::new(&mut store, vec![4, 5]);
    let nested = Value::object(vec![(
        "a",
        Value::object(vec![("b", Value::Array(vec![Value::Buffer(buf.clone())]))]),
    )]);
    let mut env = Envelope::Data(nested);
    move_transferred_buffers(&mut env, &vec![Transferable::Buffer(buf.clone())], &mut store);
    assert!(buf.is_detached(&store));
    match env {
        Envelope::Data(v) => {
            let inner = v
                .path(&path(&["a", "b", "0"]))
                .expect("the nested buffer is still there");
            match inner {
                Value::Buffer(moved) => assert_eq!(moved.to_vec(&store), vec![4, 5]),
                other => panic!("expected a buffer, got {:?}", other),
            }
        }
        other => panic!("expected data, got {:?}", other),
    }
}

#[test]
fn copied_bytes_are_left_alone() {
    let mut store = BufferStore::new();
    let buf = ArrayBuffer::new(&mut store, vec![1]);
    let mut env = Envelope::Response {
        id: "r".to_string(),
        value: WireValue::Raw {
            value: Value::Bytes(vec![7, 8]),
        },
    };
    move_transferred_buffers(&mut env, &vec![Transferable::Buffer(buf.clone()), Transferable::Port(3)], &mut store);
    assert!(buf.is_detached(&store));
    match env {
        Envelope::Response { value: WireValue::Raw { value }, .. } => {
            assert_eq!(value, Value::Bytes(vec![7, 8]))
        }
        other => panic!("unexpected envelope {:?}", other),
    }
}

#[test]
fn only_the_first_place_holding_a_transferred_buffer_gets_its_bytes() {
    let mut store = BufferStore::new();
    let buf = ArrayBuffer::new(&mut store, vec![5, 6]);
    let mut env = Envelope::Data(Value::Array(vec![Value::Buffer(buf), Value::Buffer(buf)]));
    move_transferred_buffers(&mut env, &vec![Transferable::Buffer(buf)], &mut store);
    assert!(buf.is_detached(&store));
    match env {
        Envelope::Data(Value::Array(items)) => {
            match &items[0] {
                Value::Buffer(first) => {
                    assert!(!first.same(&buf));
                    assert_eq!(first.to_vec(&store), vec![5, 6]);
                }
                other => panic!("expected a buffer, got {:?}", other),
            }
            match &items[1] {
                Value::Buffer(second) => assert!(second.same(&buf)),
                other => panic!("expected a buffer, got {:?}", other),
            }
        }
        other => panic!("unexpected envelope {:?}", other),
    }
}
