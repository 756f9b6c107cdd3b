use maelstrom::client::{Routed, UninitMessageIn, UninitMessageOut};
use maelstrom::codec::{
    decode_init, decode_line, decode_reply, decode_request, encode_init_ok, encode_reply,
    encode_request, DecodeError,
};
use maelstrom::json::{member, read_names, read_numbers, write_names, write_numbers, Json};
use maelstrom::message::Message;
use maelstrom::node_map::NodeMap;
use maelstrom::node_set::NodeSet;
use maelstrom::payload::{MessageIn, MessageOut};
use serde_json::Value;
use std::collections::HashSet;

fn names(list: &[&str]) -> Vec<String> {
    list.iter().map(|s| s.to_string()).collect()
}

fn values(list: &[u64]) -> HashSet<u64> {
    list.iter().copied().collect()
}

fn to_json(value: &Value) -> Json {
    match value {
        Value::Null => Json::Null,
        Value::Bool(b) => Json::Bool(*b),
        Value::Number(n) => match n.as_u64() {
            Some(n) => Json::Number(n),
            None => Json::OtherNumber,
        },
        Value::String(s) => Json::Text(s.clone()),
        Value::Array(items) => Json::Array(items.iter().map(to_json).collect()),
        Value::Object(members) => {
            Json::Object(members.iter().map(|(k, v)| (k.clone(), to_json(v))).collect())
        },
    }
}

fn to_value(json: &Json) -> Value {
    match json {
        Json::Null => Value::Null,
        Json::Bool(b) => Value::Bool(*b),
        Json::Number(n) => Value::from(*n),
        Json::OtherNumber => panic!("the codec writes whole numbers only"),
        Json::Text(s) => Value::String(s.clone()),
        Json::Array(items) => Value::Array(items.iter().map(to_value).collect()),
        Json::Object(members) => {
            Value::Object(members.iter().map(|(k, v)| (k.clone(), to_value(v))).collect())
        },
    }
}

fn parse(line: &str) -> Json {
    to_json(&serde_json::from_str::<Value>(line).unwrap())
}

fn print(json: &Json) -> String {
    serde_json::to_string(&to_value(json)).unwrap()
}

#[test]
fn a_store_request_is_read_off_the_wire() {
    let line = r#"{"src":"c1","dest":"n1","body":{"type":"broadcast","msg_id":1,"message":42}}"#;
    let m = decode_request(&parse(line)).unwrap();
    assert_eq!(m.src(), "c1");
    assert_eq!(m.dst(), "n1");
    assert_eq!(m.msg_id(), Some(1));
    assert_eq!(m.in_reply_to(), None);
    assert!(matches!(m.data(), MessageIn::Broadcast { message: 42 }));
}

#[test]
fn every_request_kind_is_read() {
    let line = r#"{"src":"n1","dest":"n2","body":{"type":"rebroadcast","msg_id":null,"in_reply_to":null,"message":7,"visited":["n1","n2","n1"]}}"#;
    match decode_request(&parse(line)).unwrap().data() {
        MessageIn::Rebroadcast { message, visited } => {
            assert_eq!(*message, 7);
            assert_eq!(visited.to_vec(), names(&["n1", "n2"]));
        },
        _ => panic!("rebroadcast"),
    }
    let line = r#"{"src":"c1","dest":"n1","body":{"type":"read","msg_id":3}}"#;
    assert!(matches!(decode_request(&parse(line)).unwrap().data(), MessageIn::Read {}));
    let line = r#"{"src":"c1","dest":"n1","body":{"type":"topology","msg_id":2,"topology":{"n1":["n2","n3"],"n2":["n1"],"n3":["n1"]}}}"#;
    match decode_request(&parse(line)).unwrap().data() {
        MessageIn::Topology { topology } => {
            assert_eq!(topology.len(), 3);
            assert_eq!(topology.get("n1").unwrap().to_vec(), names(&["n2", "n3"]));
            assert_eq!(topology.get("n2").unwrap().to_vec(), names(&["n1"]));
            assert_eq!(topology.get("n3").unwrap().to_vec(), names(&["n1"]));
        },
        _ => panic!("topology"),
    }
    let line = r#"{"src":"n2","dest":"n1","body":{"type":"gossip","msg_id":4,"messages":[3,1,3]}}"#;
    match decode_request(&parse(line)).unwrap().data() {
        MessageIn::Gossip { messages } => assert_eq!(messages, &values(&[1, 3])),
        _ => panic!("gossip"),
    }
}

#[test]
fn every_reply_kind_is_read() {
    let line = r#"{"src":"n1","dest":"c1","body":{"type":"broadcast_ok","in_reply_to":1,"msg_id":5}}"#;
    let m = decode_reply(&parse(line)).unwrap();
    assert_eq!(m.in_reply_to(), Some(1));
    assert_eq!(m.msg_id(), Some(5));
    assert!(matches!(m.data(), MessageOut::Broadcast {}));
    let line = r#"{"src":"n1","dest":"c1","body":{"type":"read_ok","in_reply_to":2,"messages":[42]}}"#;
    match decode_reply(&parse(line)).unwrap().data() {
        MessageOut::Read { messages } => assert_eq!(messages, &values(&[42])),
        _ => panic!("read_ok"),
    }
    let line = r#"{"src":"n1","dest":"c1","body":{"type":"topology_ok","in_reply_to":2}}"#;
    assert!(matches!(decode_reply(&parse(line)).unwrap().data(), MessageOut::Topology {}));
    let line = r#"{"src":"n2","dest":"n1","body":{"type":"gossip_ok","in_reply_to":9,"messages":[1,2,3]}}"#;
    match decode_reply(&parse(line)).unwrap().data() {
        MessageOut::Gossip { messages } => assert_eq!(messages, &values(&[1, 2, 3])),
        _ => panic!("gossip_ok"),
    }
}

#[test]
fn an_unknown_tag_is_a_malformed_payload() {
    let line = r#"{"src":"c1","dest":"n1","body":{"type":"echo","msg_id":1,"echo":"hi"}}"#;
    assert!(matches!(decode_request(&parse(line)), Err(DecodeError::MalformedPayload)));
    assert!(matches!(decode_reply(&parse(line)), Err(DecodeError::MalformedPayload)));
    assert!(matches!(decode_init(&parse(line)), Err(DecodeError::MalformedPayload)));
    assert!(matches!(decode_line(&parse(line)), Routed::Neither));
}

#[test]
fn a_payload_of_the_wrong_shape_is_malformed() {
    for line in [
        r#"{"src":"c1","dest":"n1","body":{"type":"broadcast","msg_id":1}}"#,
        r#"{"src":"c1","dest":"n1","body":{"type":"broadcast","msg_id":1,"message":-4}}"#,
        r#"{"src":"c1","dest":"n1","body":{"type":"broadcast","msg_id":1,"message":1.5}}"#,
        r#"{"src":"c1","dest":"n1","body":{"type":"broadcast","msg_id":1,"message":"42"}}"#,
        r#"{"src":"c1","dest":"n1","body":{"type":"rebroadcast","message":1}}"#,
        r#"{"src":"c1","dest":"n1","body":{"type":"rebroadcast","message":1,"visited":["n1",2]}}"#,
        r#"{"src":"c1","dest":"n1","body":{"type":"topology","topology":["n1"]}}"#,
        r#"{"src":"c1","dest":"n1","body":{"type":"topology","topology":{"n1":"n2"}}}"#,
        r#"{"src":"c1","dest":"n1","body":{"type":"gossip","messages":[1,"2"]}}"#,
    ] {
        assert!(matches!(decode_request(&parse(line)), Err(DecodeError::MalformedPayload)), "{}", line);
    }
    let line = r#"{"src":"c1","dest":"n1","body":{"type":"read_ok","messages":{}}}"#;
    assert!(matches!(decode_reply(&parse(line)), Err(DecodeError::MalformedPayload)));
}

#[test]
fn a_value_without_frame_is_a_malformed_envelope() {
    for line in [
        r#"[]"#,
        r#"42"#,
        r#"{"dest":"n1","body":{"type":"read"}}"#,
        r#"{"src":"c1","body":{"type":"read"}}"#,
        r#"{"src":"c1","dest":"n1"}"#,
        r#"{"src":1,"dest":"n1","body":{"type":"read"}}"#,
        r#"{"src":"c1","dest":"n1","body":{"msg_id":1}}"#,
        r#"{"src":"c1","dest":"n1","body":{"type":"read","msg_id":"1"}}"#,
        r#"{"src":"c1","dest":"n1","body":{"type":"read","in_reply_to":-1}}"#,
    ] {
        assert!(matches!(decode_request(&parse(line)), Err(DecodeError::MalformedEnvelope)), "{}", line);
        assert!(matches!(decode_reply(&parse(line)), Err(DecodeError::MalformedEnvelope)), "{}", line);
    }
}

#[test]
fn a_line_is_read_as_a_request_first() {
    let request = r#"{"src":"c1","dest":"n1","body":{"type":"read","msg_id":1}}"#;
    assert!(matches!(decode_line(&parse(request)), Routed::Request(m) if m.msg_id() == Some(1)));
    let reply = r#"{"src":"n2","dest":"n1","body":{"type":"read_ok","in_reply_to":1,"messages":[]}}"#;
    assert!(matches!(decode_line(&parse(reply)), Routed::Reply(m) if m.in_reply_to() == Some(1)));
    let neither = r#"{"src":"n2","dest":"n1","body":{"type":"init_ok"}}"#;
    assert!(matches!(decode_line(&parse(neither)), Routed::Neither));
}

#[test]
fn an_answer_is_written_with_both_ids() {
    let reply = Message::from_parts(
        "n1".to_string(),
        "c1".to_string(),
        Some(3),
        Some(1),
        MessageOut::Broadcast {},
    );
    assert_eq!(
        print(&encode_reply(&reply)),
        r#"{"body":{"in_reply_to":1,"msg_id":3,"type":"broadcast_ok"},"dest":"c1","src":"n1"}"#
    );
    let read = Message::from_parts(
        "n1".to_string(),
        "c1".to_string(),
        None,
        Some(2),
        MessageOut::Read { messages: values(&[42]) },
    );
    assert_eq!(
        print(&encode_reply(&read)),
        r#"{"body":{"in_reply_to":2,"messages":[42],"msg_id":null,"type":"read_ok"},"dest":"c1","src":"n1"}"#
    );
}

#[test]
fn a_missing_id_is_written_as_null_and_never_left_out() {
    let sent = Message::new("n1".to_string(), "n2".to_string(), None, MessageIn::Read {});
    let json = encode_request(&sent);
    let top = match &json {
        Json::Object(top) => top,
        _ => panic!("an envelope is an object"),
    };
    assert_eq!(top.len(), 3);
    let body = match member(top, "body") {
        Some(Json::Object(body)) => body,
        _ => panic!("an envelope has a body"),
    };
    assert_eq!(body.len(), 3);
    assert!(matches!(member(body, "msg_id"), Some(Json::Null)));
    assert!(matches!(member(body, "in_reply_to"), Some(Json::Null)));
    assert!(matches!(member(body, "type"), Some(Json::Text(kind)) if kind == "read"));
    assert_eq!(
        print(&json),
        r#"{"body":{"in_reply_to":null,"msg_id":null,"type":"read"},"dest":"n2","src":"n1"}"#
    );

    let zero = Message::new("n1".to_string(), "n2".to_string(), Some(0), MessageIn::Read {});
    assert_eq!(
        print(&encode_request(&zero)),
        r#"{"body":{"in_reply_to":null,"msg_id":0,"type":"read"},"dest":"n2","src":"n1"}"#
    );
    assert_eq!(decode_request(&encode_request(&zero)).unwrap().msg_id(), Some(0));
}

#[test]
fn requests_read_back_as_they_were_written() {
    let mut adjacency = NodeMap::new();
    adjacency.insert("n1".to_string(), NodeSet::from_vec(names(&["n2", "n3"])));
    adjacency.insert("n2".to_string(), NodeSet::new());
    let sent = vec![
        MessageIn::Broadcast { message: u64::MAX },
        MessageIn::Rebroadcast { message: 7, visited: NodeSet::from_vec(names(&["n3", "n1"])) },
        MessageIn::Read {},
        MessageIn::Topology { topology: adjacency },
        MessageIn::Gossip { messages: values(&[5, 6, 7]) },
    ];
    for (turn, data) in sent.into_iter().enumerate() {
        let m = Message::from_parts("n1".to_string(), "n2".to_string(), Some(turn as u64), None, data);
        let line = print(&encode_request(&m));
        let back = decode_request(&parse(&line)).unwrap();
        assert_eq!(back.src(), "n1");
        assert_eq!(back.dst(), "n2");
        assert_eq!(back.msg_id(), Some(turn as u64));
        assert_eq!(back.in_reply_to(), None);
        match (m.data(), back.data()) {
            (MessageIn::Broadcast { message: a }, MessageIn::Broadcast { message: b }) => assert_eq!(a, b),
            (
                MessageIn::Rebroadcast { message: a, visited: v },
                MessageIn::Rebroadcast { message: b, visited: w },
            ) => {
                assert_eq!(a, b);
                assert_eq!(v.to_vec(), w.to_vec());
            },
            (MessageIn::Read {}, MessageIn::Read {}) => {},
            (MessageIn::Topology { topology: a }, MessageIn::Topology { topology: b }) => {
                assert_eq!(b.len(), 2);
                assert_eq!(a.get("n1").unwrap().to_vec(), b.get("n1").unwrap().to_vec());
                assert_eq!(b.get("n2").unwrap().len(), 0);
            },
            (MessageIn::Gossip { messages: a }, MessageIn::Gossip { messages: b }) => assert_eq!(a, b),
            _ => panic!("the kind changed on the way"),
        }
    }
}

#[test]
fn replies_read_back_as_they_were_written() {
    let sent = vec![
        MessageOut::Broadcast {},
        MessageOut::Read { messages: values(&[1, 2]) },
        MessageOut::Topology {},
        MessageOut::Gossip { messages: values(&[]) },
    ];
    for data in sent {
        let m = Message::from_parts("n1".to_string(), "c1".to_string(), Some(8), Some(9), data);
        let back = decode_reply(&parse(&print(&encode_reply(&m)))).unwrap();
        assert_eq!(back.msg_id(), Some(8));
        assert_eq!(back.in_reply_to(), Some(9));
        match (m.data(), back.data()) {
            (MessageOut::Broadcast {}, MessageOut::Broadcast {}) => {},
            (MessageOut::Read { messages: a }, MessageOut::Read { messages: b }) => assert_eq!(a, b),
            (MessageOut::Topology {}, MessageOut::Topology {}) => {},
            (MessageOut::Gossip { messages: a }, MessageOut::Gossip { messages: b }) => assert_eq!(a, b),
            _ => panic!("the kind changed on the way"),
        }
    }
}

#[test]
fn the_first_request_is_read_and_acknowledged() {
    let line = r#"{"src":"c0","dest":"n1","body":{"type":"init","msg_id":1,"node_id":"n1","node_ids":["n1","n2","n3"]}}"#;
    let m = decode_init(&parse(line)).unwrap();
    assert_eq!(m.src(), "c0");
    assert_eq!(m.msg_id(), Some(1));
    match m.data() {
        UninitMessageIn::Init { node_id, node_ids } => {
            assert_eq!(node_id, "n1");
            assert_eq!(node_ids, &names(&["n1", "n2", "n3"]));
        },
    }
    let reply = m.into_reply(Some(0), UninitMessageOut::InitOk {});
    assert_eq!(
        print(&encode_init_ok(&reply)),
        r#"{"body":{"in_reply_to":1,"msg_id":0,"type":"init_ok"},"dest":"c0","src":"n1"}"#
    );
}

#[test]
fn any_other_first_line_is_refused() {
    let line = r#"{"src":"c0","dest":"n1","body":{"type":"read","msg_id":1}}"#;
    assert!(matches!(decode_init(&parse(line)), Err(DecodeError::MalformedPayload)));
    let line = r#"{"src":"c0","dest":"n1","body":{"type":"init","msg_id":1,"node_id":"n1"}}"#;
    assert!(matches!(decode_init(&parse(line)), Err(DecodeError::MalformedPayload)));
    let line = r#"{"src":"c0","dest":"n1","body":{"type":"init","node_id":7,"node_ids":[]}}"#;
    assert!(matches!(decode_init(&parse(line)), Err(DecodeError::MalformedPayload)));
    let line = r#"{"src":"c0","body":{"type":"init","node_id":"n1","node_ids":[]}}"#;
    assert!(matches!(decode_init(&parse(line)), Err(DecodeError::MalformedEnvelope)));
}

#[test]
fn the_first_member_of_a_name_is_the_one_found() {
    let members = vec![
        ("a".to_string(), Json::Number(1)),
        ("b".to_string(), Json::Bool(true)),
        ("a".to_string(), Json::Number(2)),
    ];
    assert!(matches!(member(&members, "a"), Some(Json::Number(1))));
    assert!(matches!(member(&members, "b"), Some(Json::Bool(true))));
    assert!(member(&members, "c").is_none());
}

#[test]
fn lists_are_read_and_written() {
    let items = write_names(&names(&["x", "y"]));
    assert_eq!(read_names(&items), Some(names(&["x", "y"])));
    assert_eq!(read_names(&vec![Json::Text("x".to_string()), Json::Null]), None);
    assert_eq!(read_names(&vec![]), Some(vec![]));
    let items = write_numbers(&values(&[3, 4]));
    assert_eq!(items.len(), 2);
    assert_eq!(read_numbers(&items), Some(values(&[3, 4])));
    assert_eq!(read_numbers(&vec![Json::Number(1), Json::OtherNumber]), None);
    assert_eq!(read_numbers(&vec![Json::Number(1), Json::Number(1)]), Some(values(&[1])));
}
