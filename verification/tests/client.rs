use maelstrom::client::{
    delivered, route, Client, ClientError, ClientImpl, ClientState, Delivery, Routed, RunError,
    UninitMessageIn, UninitMessageOut,
};
use maelstrom::message::Message;

fn init_request() -> Message<UninitMessageIn> {
    Message::new(
        "c0".to_string(),
        "n1".to_string(),
        Some(1),
        UninitMessageIn::Init {
            node_id: "n1".to_string(),
            node_ids: vec!["n1".to_string(), "n2".to_string(), "n3".to_string()],
        },
    )
}

fn ready_client() -> Client {
    let mut client = Client::default();
    assert!(client.init(init_request()).is_ok());
    client
}

#[test]
fn a_new_client_is_not_initialized() {
    let client = Client::default();
    assert!(!client.is_init());
    assert!(matches!(client.state(), ClientState::Uninit));
}

#[test]
fn init_sets_identity_and_acknowledges() {
    let mut client = Client::default();
    let reply = client.init(init_request()).unwrap();
    assert!(matches!(reply.data(), UninitMessageOut::InitOk {}));
    assert_eq!(reply.src(), "n1");
    assert_eq!(reply.dst(), "c0");
    assert_eq!(reply.in_reply_to(), Some(1));
    assert_eq!(reply.msg_id(), Some(0));
    assert!(client.is_init());
    assert_eq!(client.node_id(), "n1");
    assert_eq!(client.node_ids(), &vec!["n1".to_string(), "n2".to_string(), "n3".to_string()]);
}

#[test]
fn init_twice_is_refused() {
    let mut client = ready_client();
    let again = Message::new(
        "c0".to_string(),
        "n1".to_string(),
        Some(2),
        UninitMessageIn::Init { node_id: "n9".to_string(), node_ids: vec![] },
    );
    assert!(matches!(client.init(again), Err(ClientError::AlreadyInitialized)));
    assert_eq!(client.node_id(), "n1");
    assert_eq!(client.next_id(), Some(1));
}

#[test]
fn ids_grow_by_one_from_zero() {
    let mut client = Client::default();
    assert_eq!(client.next_id(), Some(0));
    assert_eq!(client.next_id(), Some(1));
    assert_eq!(client.next_id(), Some(2));
}

#[test]
fn reply_takes_a_fresh_id() {
    let mut client = ready_client();
    let request = Message::new("c1".to_string(), "n1".to_string(), Some(41), ());
    let reply = client.reply(request, "ok");
    assert_eq!(reply.msg_id(), Some(1));
    assert_eq!(reply.in_reply_to(), Some(41));
    assert_eq!(reply.src(), "n1");
    assert_eq!(reply.dst(), "c1");
    assert_eq!(*reply.data(), "ok");
    assert_eq!(client.next_id(), Some(2));
}

#[test]
fn reply_with_takes_a_fresh_id() {
    let mut client = ready_client();
    let request = Message::new("c1".to_string(), "n1".to_string(), Some(5), 10u64);
    let reply = client.reply_with(request, |n| n * 2);
    assert_eq!(*reply.data(), 20);
    assert_eq!(reply.msg_id(), Some(1));
    assert_eq!(reply.in_reply_to(), Some(5));
}

#[test]
fn send_to_uses_the_node_as_sender() {
    let mut client = ready_client();
    let m = client.send_to("n2", 9u8);
    assert_eq!(m.src(), "n1");
    assert_eq!(m.dst(), "n2");
    assert_eq!(m.msg_id(), Some(1));
    assert_eq!(m.in_reply_to(), None);
    assert!(!client.awaits(1));
}

#[test]
fn a_request_awaits_its_answer_until_it_is_settled() {
    let mut client = ready_client();
    let m = client.request("n2", ());
    assert_eq!(m.msg_id(), Some(1));
    assert!(client.awaits(1));
    assert!(!client.awaits(0));
    assert!(!client.awaits(2));
    assert!(client.settle(1));
    assert!(!client.awaits(1));
    assert!(!client.settle(1));
}

#[test]
fn a_request_is_routed_before_a_reply() {
    let request = Message::new("a".to_string(), "b".to_string(), None, 1u8);
    let reply = Message::new("a".to_string(), "b".to_string(), None, 2u16);
    assert!(matches!(route(Some(request), Some(reply)), Routed::Request(m) if *m.data() == 1));
    let reply = Message::new("a".to_string(), "b".to_string(), None, 2u16);
    assert!(matches!(route::<u8, u16>(None, Some(reply)), Routed::Reply(m) if *m.data() == 2));
    assert!(matches!(route::<u8, u16>(None, None), Routed::Neither));
}

#[test]
fn delivered_reports_the_handler_and_its_failure() {
    assert!(matches!(delivered::<&str>(Delivery::Request, Ok(())), Ok(Delivery::Request)));
    assert!(matches!(delivered(Delivery::Reply, Err("lost")), Err(RunError::Handler("lost"))));
}

struct Recorder {
    requests: Vec<u8>,
    replies: Vec<u16>,
    fail: bool,
}

impl ClientImpl<u8, u16> for Recorder {
    type Error = String;

    fn on_msg(&mut self, msg: Message<u8>, _client: &mut Client) -> Result<(), String> {
        if self.fail {
            return Err("refused".to_string());
        }
        self.requests.push(*msg.data());
        Ok(())
    }

    fn on_reply(&mut self, msg: Message<u16>, _client: &mut Client) -> Result<(), String> {
        self.replies.push(*msg.data());
        Ok(())
    }
}

#[test]
fn a_line_needs_an_initialized_client() {
    let mut client = Client::default();
    let mut handler = Recorder { requests: vec![], replies: vec![], fail: false };
    let request = Message::new("a".to_string(), "b".to_string(), None, 1u8);
    let result = client.run(&mut handler, Some(request), None);
    assert!(matches!(result, Err(RunError::NotInitialized)));
    assert!(handler.requests.is_empty());
}

#[test]
fn each_line_goes_to_its_handler() {
    let mut client = ready_client();
    let mut handler = Recorder { requests: vec![], replies: vec![], fail: false };
    let request = Message::new("a".to_string(), "n1".to_string(), None, 1u8);
    assert!(matches!(client.run(&mut handler, Some(request), None), Ok(Delivery::Request)));
    let reply = Message::new("a".to_string(), "n1".to_string(), None, 2u16);
    assert!(matches!(client.run(&mut handler, None, Some(reply)), Ok(Delivery::Reply)));
    let both_request = Message::new("a".to_string(), "n1".to_string(), None, 3u8);
    let both_reply = Message::new("a".to_string(), "n1".to_string(), None, 4u16);
    assert!(matches!(
        client.run(&mut handler, Some(both_request), Some(both_reply)),
        Ok(Delivery::Request)
    ));
    assert_eq!(handler.requests, vec![1, 3]);
    assert_eq!(handler.replies, vec![2]);
}

#[test]
fn a_line_that_is_neither_is_a_protocol_error_and_not_fatal() {
    let mut client = ready_client();
    let mut handler = Recorder { requests: vec![], replies: vec![], fail: false };
    assert!(matches!(client.run(&mut handler, None, None), Ok(Delivery::ProtocolError)));
    let request = Message::new("a".to_string(), "n1".to_string(), None, 1u8);
    assert!(matches!(client.run(&mut handler, Some(request), None), Ok(Delivery::Request)));
    assert_eq!(handler.requests, vec![1]);
}

#[test]
fn a_failing_handler_is_reported() {
    let mut client = ready_client();
    let mut handler = Recorder { requests: vec![], replies: vec![], fail: true };
    let request = Message::new("a".to_string(), "n1".to_string(), None, 1u8);
    let result = client.run(&mut handler, Some(request), None);
    assert!(matches!(result, Err(RunError::Handler(e)) if e == "refused"));
}
