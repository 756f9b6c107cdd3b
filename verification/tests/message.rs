use maelstrom::message::{InMessage, Message, OutMessage};

#[test]
fn new_message_answers_nothing() {
    let m = Message::new("n1".to_string(), "n2".to_string(), Some(4), "payload");
    assert_eq!(m.src(), "n1");
    assert_eq!(m.dst(), "n2");
    assert_eq!(m.msg_id(), Some(4));
    assert_eq!(m.in_reply_to(), None);
    assert_eq!(*m.data(), "payload");
}

#[test]
fn reply_swaps_sender_and_receiver() {
    let request = Message::new("c1".to_string(), "n1".to_string(), Some(7), 1u64);
    let reply = request.into_reply(Some(3), 2u64);
    assert_eq!(reply.src(), "n1");
    assert_eq!(reply.dst(), "c1");
    assert_eq!(reply.msg_id(), Some(3));
    assert_eq!(reply.in_reply_to(), Some(7));
    assert_eq!(*reply.data(), 2);
}

#[test]
fn reply_to_a_request_without_id_answers_no_id() {
    let request = Message::new("c1".to_string(), "n1".to_string(), None, ());
    let reply = request.into_reply(None, ());
    assert_eq!(reply.msg_id(), None);
    assert_eq!(reply.in_reply_to(), None);
}

#[test]
fn reply_with_computes_the_payload_from_the_request() {
    let request = Message::new("c1".to_string(), "n1".to_string(), Some(1), 20u64);
    let reply = request.into_reply_with(Some(2), |n| n + 1);
    assert_eq!(*reply.data(), 21);
    assert_eq!(reply.src(), "n1");
    assert_eq!(reply.dst(), "c1");
    assert_eq!(reply.in_reply_to(), Some(1));
}

#[test]
fn from_parts_keeps_every_field() {
    let m = Message::from_parts("a".to_string(), "b".to_string(), Some(1), Some(2), 3u8);
    assert_eq!(m.msg_id(), Some(1));
    assert_eq!(m.in_reply_to(), Some(2));
    let (src, dst, id, answered, data) = m.into_parts();
    assert_eq!((src.as_str(), dst.as_str(), id, answered, data), ("a", "b", Some(1), Some(2), 3));
}

#[test]
fn arriving_and_leaving_envelopes_are_messages() {
    let arrived: InMessage<u8> = Message::new("c1".to_string(), "n1".to_string(), Some(1), 5);
    let left: OutMessage<u8> = arrived.into_reply(Some(2), 6);
    assert_eq!(left.src(), "n1");
    assert_eq!(left.in_reply_to(), Some(1));
    assert_eq!(*left.data(), 6);
}
