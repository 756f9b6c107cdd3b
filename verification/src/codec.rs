//! The wire codec: envelopes to and from the values that stand on the wire.
//!
//! An envelope is an object with the members `src`, `dest` and `body`. The
//! body holds the payload's tag under `type`, the two correlation ids under
//! `msg_id` and `in_reply_to`, and the payload's own members beside them.

use crate::client::{init_view, InitView, Routed, UninitMessageIn, UninitMessageOut};
use crate::json::{
    lemma_lookup_at, lemma_lookup_skip, lookup, member, names_in, numbers_in, read_names,
    read_numbers, write_names, write_numbers, Json,
};
use crate::message::{Message, MessageView};
use crate::node_map::NodeMap;
use crate::node_set::{lemma_with_names_distinct, names_of, with_names, NodeSet};
use crate::payload::{
    adjacency_of, reply_view, request_view, MessageIn, MessageOut, ReplyView, RequestView,
};
use vstd::prelude::*;

verus! {

broadcast use vstd::std_specs::hash::group_hash_axioms;

/// Why a value of the wire is no envelope of the protocol.
#[derive(Debug, PartialEq, Eq, Clone, Copy, Structural)]
pub enum DecodeError {
    /// It is no object with a sender, a receiver and a body; or the body has
    /// no tag; or a correlation id is neither a whole number nor null.
    MalformedEnvelope,
    /// The tag is unknown, or a member that the payload needs is missing or
    /// of the wrong shape.
    MalformedPayload,
}

/// What an envelope holds beside its payload's own members.
pub ghost struct Frame {
    pub src: Seq<char>,
    pub dst: Seq<char>,
    pub msg_id: Option<u64>,
    pub in_reply_to: Option<u64>,
    /// The payload's tag.
    pub kind: Seq<char>,
    /// The members of the body.
    pub body: Seq<(String, Json)>,
}

/// The correlation id that a member stands for: none where the member is
/// missing or null. The outer `None` says that the member is no id at all.
pub open spec fn optional_id(found: Option<Json>) -> Option<Option<u64>> {
    match found {
        None => Some(None),
        Some(Json::Null) => Some(None),
        Some(Json::Number(id)) => Some(Some(id)),
        Some(_) => None,
    }
}

/// The frame of an envelope, if the value is one.
pub open spec fn frame_of(json: Json) -> Option<Frame> {
    match json {
        Json::Object(top) => match (
            lookup(top@, "src"@),
            lookup(top@, "dest"@),
            lookup(top@, "body"@),
        ) {
            (Some(Json::Text(src)), Some(Json::Text(dst)), Some(Json::Object(body))) => match (
                lookup(body@, "type"@),
                optional_id(lookup(body@, "msg_id"@)),
                optional_id(lookup(body@, "in_reply_to"@)),
            ) {
                (Some(Json::Text(kind)), Some(msg_id), Some(in_reply_to)) => Some(
                    Frame { src: src@, dst: dst@, msg_id, in_reply_to, kind: kind@, body: body@ },
                ),
                _ => None,
            },
            _ => None,
        },
        _ => None,
    }
}

/// The neighbours that the members of a topology give each node: each member
/// is a list of names, of which a name that occurs again is dropped; of two
/// members for one node the later counts.
pub open spec fn links_in(members: Seq<(String, Json)>) -> Option<Map<Seq<char>, Seq<Seq<char>>>>
    decreases members.len(),
{
    if members.len() == 0 {
        Some(Map::empty())
    } else {
        match (links_in(members.drop_last()), members.last().1) {
            (Some(front), Json::Array(items)) => match names_in(items@) {
                Some(names) => Some(
                    front.insert(members.last().0@, with_names(Seq::empty(), names)),
                ),
                None => None,
            },
            _ => None,
        }
    }
}

/// The request that a body with the tag `kind` holds, if it holds one.
pub open spec fn request_payload(kind: Seq<char>, body: Seq<(String, Json)>) -> Option<RequestView> {
    if kind == "broadcast"@ {
        match lookup(body, "message"@) {
            Some(Json::Number(message)) => Some(RequestView::Broadcast { message }),
            _ => None,
        }
    } else if kind == "rebroadcast"@ {
        match (lookup(body, "message"@), lookup(body, "visited"@)) {
            (Some(Json::Number(message)), Some(Json::Array(items))) => match names_in(items@) {
                Some(names) => Some(RequestView::Rebroadcast { message, visited: names.to_set() }),
                None => None,
            },
            _ => None,
        }
    } else if kind == "read"@ {
        Some(RequestView::Read)
    } else if kind == "topology"@ {
        match lookup(body, "topology"@) {
            Some(Json::Object(members)) => match links_in(members@) {
                Some(topology) => Some(RequestView::Topology { topology }),
                None => None,
            },
            _ => None,
        }
    } else if kind == "gossip"@ {
        match lookup(body, "messages"@) {
            Some(Json::Array(items)) => match numbers_in(items@) {
                Some(numbers) => Some(RequestView::Gossip { messages: numbers.to_set() }),
                None => None,
            },
            _ => None,
        }
    } else {
        None
    }
}

/// The answer that a body with the tag `kind` holds, if it holds one.
pub open spec fn reply_payload(kind: Seq<char>, body: Seq<(String, Json)>) -> Option<ReplyView> {
    if kind == "broadcast_ok"@ {
        Some(ReplyView::Broadcast)
    } else if kind == "read_ok"@ {
        match lookup(body, "messages"@) {
            Some(Json::Array(items)) => match numbers_in(items@) {
                Some(numbers) => Some(ReplyView::Read { messages: numbers.to_set() }),
                None => None,
            },
            _ => None,
        }
    } else if kind == "topology_ok"@ {
        Some(ReplyView::Topology)
    } else if kind == "gossip_ok"@ {
        match lookup(body, "messages"@) {
            Some(Json::Array(items)) => match numbers_in(items@) {
                Some(numbers) => Some(ReplyView::Gossip { messages: numbers.to_set() }),
                None => None,
            },
            _ => None,
        }
    } else {
        None
    }
}

/// What a value of the wire is when read as a request.
pub open spec fn decoded_request(json: Json) -> Result<MessageView<RequestView>, DecodeError> {
    match frame_of(json) {
        None => Err(DecodeError::MalformedEnvelope),
        Some(frame) => match request_payload(frame.kind, frame.body) {
            None => Err(DecodeError::MalformedPayload),
            Some(data) => Ok(
                MessageView {
                    src: frame.src,
                    dst: frame.dst,
                    msg_id: frame.msg_id,
                    in_reply_to: frame.in_reply_to,
                    data,
                },
            ),
        },
    }
}

/// What a value of the wire is when read as an answer.
pub open spec fn decoded_reply(json: Json) -> Result<MessageView<ReplyView>, DecodeError> {
    match frame_of(json) {
        None => Err(DecodeError::MalformedEnvelope),
        Some(frame) => match reply_payload(frame.kind, frame.body) {
            None => Err(DecodeError::MalformedPayload),
            Some(data) => Ok(
                MessageView {
                    src: frame.src,
                    dst: frame.dst,
                    msg_id: frame.msg_id,
                    in_reply_to: frame.in_reply_to,
                    data,
                },
            ),
        },
    }
}

/// An envelope's frame as it is read.
struct Parts<'a> {
    src: &'a String,
    dst: &'a String,
    msg_id: Option<u64>,
    in_reply_to: Option<u64>,
    kind: &'a String,
    body: &'a Vec<(String, Json)>,
}

impl<'a> Parts<'a> {
    spec fn frame(self) -> Frame {
        Frame {
            src: self.src@,
            dst: self.dst@,
            msg_id: self.msg_id,
            in_reply_to: self.in_reply_to,
            kind: self.kind@,
            body: self.body@,
        }
    }
}

fn read_optional_id(found: Option<&Json>) -> (id: Option<Option<u64>>)
    ensures
        id == optional_id(
            match found {
                Some(value) => Some(*value),
                None => None,
            },
        ),
{
    match found {
        None => Some(None),
        Some(Json::Null) => Some(None),
        Some(Json::Number(id)) => Some(Some(*id)),
        Some(_) => None,
    }
}

fn read_frame<'a>(json: &'a Json) -> (parts: Option<Parts<'a>>)
    ensures
        match frame_of(*json) {
            Some(frame) => parts is Some && parts->0.frame() == frame,
            None => parts is None,
        },
{
    let top = match json {
        Json::Object(top) => top,
        _ => {
            return None;
        },
    };
    let src = match member(top, "src") {
        Some(Json::Text(src)) => src,
        _ => {
            return None;
        },
    };
    let dst = match member(top, "dest") {
        Some(Json::Text(dst)) => dst,
        _ => {
            return None;
        },
    };
    let body = match member(top, "body") {
        Some(Json::Object(body)) => body,
        _ => {
            return None;
        },
    };
    let kind = match member(body, "type") {
        Some(Json::Text(kind)) => kind,
        _ => {
            return None;
        },
    };
    let msg_id = match read_optional_id(member(body, "msg_id")) {
        Some(id) => id,
        None => {
            return None;
        },
    };
    let in_reply_to = match read_optional_id(member(body, "in_reply_to")) {
        Some(id) => id,
        None => {
            return None;
        },
    };
    Some(Parts { src, dst, msg_id, in_reply_to, kind, body })
}

/// A list of members whose beginning is no topology is no topology.
proof fn lemma_links_prefix(members: Seq<(String, Json)>, upto: int)
    requires
        0 <= upto <= members.len(),
        links_in(members.take(upto)) is None,
    ensures
        links_in(members) is None,
    decreases members.len() - upto,
{
    if upto < members.len() {
        let next = members.take(upto + 1);
        assert(next.drop_last() =~= members.take(upto));
        lemma_links_prefix(members, upto + 1);
    } else {
        assert(members.take(upto) =~= members);
    }
}

/// The neighbours of each node change at one node when that node's are
/// stored.
proof fn lemma_adjacency_insert(
    before: NodeMap<NodeSet>,
    after: NodeMap<NodeSet>,
    key: Seq<char>,
    value: NodeSet,
)
    requires
        after@ == before@.insert(key, value),
    ensures
        adjacency_of(after) == adjacency_of(before).insert(key, value.order()),
{
    assert(adjacency_of(after) =~= adjacency_of(before).insert(key, value.order()));
}

fn read_links(members: &Vec<(String, Json)>) -> (links: Option<NodeMap<NodeSet>>)
    ensures
        match links_in(members@) {
            Some(topology) => links is Some && adjacency_of(links->0) == topology,
            None => links is None,
        },
{
    let mut links: NodeMap<NodeSet> = NodeMap::new();
    let mut i: usize = 0;
    assert(members@.take(0) =~= Seq::empty());
    assert(adjacency_of(links) =~= Map::empty());
    while i < members.len()
        invariant
            i <= members.len(),
            links_in(members@.take(i as int)) == Some(adjacency_of(links)),
        decreases members.len() - i,
    {
        let ghost upto = members@.take(i as int + 1);
        assert(upto.drop_last() =~= members@.take(i as int));
        assert(upto.last() == members@[i as int]);
        let names = match &members[i].1 {
            Json::Array(items) => read_names(items),
            _ => None,
        };
        match names {
            Some(names) => {
                let ghost before = links;
                let neighbors = NodeSet::from_vec(names);
                links.insert(members[i].0.clone(), neighbors);
                proof {
                    lemma_adjacency_insert(before, links, members@[i as int].0@, neighbors);
                }
            },
            None => {
                proof {
                    lemma_links_prefix(members@, i as int + 1);
                }
                return None;
            },
        }
        i += 1;
    }
    assert(members@.take(i as int) =~= members@);
    Some(links)
}

fn read_request(kind: &str, body: &Vec<(String, Json)>) -> (data: Option<MessageIn>)
    ensures
        match request_payload(kind@, body@) {
            Some(view) => data is Some && data->0@ == view,
            None => data is None,
        },
{
    if crate::text::str_eq(kind, "broadcast") {
        match member(body, "message") {
            Some(Json::Number(message)) => Some(MessageIn::Broadcast { message: *message }),
            _ => None,
        }
    } else if crate::text::str_eq(kind, "rebroadcast") {
        let message = match member(body, "message") {
            Some(Json::Number(message)) => *message,
            _ => {
                return None;
            },
        };
        match member(body, "visited") {
            Some(Json::Array(items)) => match read_names(items) {
                Some(names) => {
                    let visited = NodeSet::from_vec(names);
                    proof {
                        crate::node_set::lemma_with_names(Seq::empty(), names_of(names@));
                        assert(Seq::<Seq<char>>::empty().to_set() =~= Set::empty());
                        assert(visited@ =~= names_of(names@).to_set());
                    }
                    Some(MessageIn::Rebroadcast { message, visited })
                },
                None => None,
            },
            _ => None,
        }
    } else if crate::text::str_eq(kind, "read") {
        Some(MessageIn::Read {  })
    } else if crate::text::str_eq(kind, "topology") {
        match member(body, "topology") {
            Some(Json::Object(members)) => match read_links(members) {
                Some(topology) => Some(MessageIn::Topology { topology }),
                None => None,
            },
            _ => None,
        }
    } else if crate::text::str_eq(kind, "gossip") {
        match member(body, "messages") {
            Some(Json::Array(items)) => match read_numbers(items) {
                Some(messages) => Some(MessageIn::Gossip { messages }),
                None => None,
            },
            _ => None,
        }
    } else {
        None
    }
}

fn read_reply(kind: &str, body: &Vec<(String, Json)>) -> (data: Option<MessageOut>)
    ensures
        match reply_payload(kind@, body@) {
            Some(view) => data is Some && data->0@ == view,
            None => data is None,
        },
{
    if crate::text::str_eq(kind, "broadcast_ok") {
        Some(MessageOut::Broadcast {  })
    } else if crate::text::str_eq(kind, "read_ok") {
        match member(body, "messages") {
            Some(Json::Array(items)) => match read_numbers(items) {
                Some(messages) => Some(MessageOut::Read { messages }),
                None => None,
            },
            _ => None,
        }
    } else if crate::text::str_eq(kind, "topology_ok") {
        Some(MessageOut::Topology {  })
    } else if crate::text::str_eq(kind, "gossip_ok") {
        match member(body, "messages") {
            Some(Json::Array(items)) => match read_numbers(items) {
                Some(messages) => Some(MessageOut::Gossip { messages }),
                None => None,
            },
            _ => None,
        }
    } else {
        None
    }
}

/// Reads a value of the wire as a request: [`decoded_request`] says what it
/// is, or why it is none.
pub fn decode_request(json: &Json) -> (decoded: Result<Message<MessageIn>, DecodeError>)
    ensures
        match decoded_request(*json) {
            Ok(view) => decoded is Ok && request_view(decoded->Ok_0) == view,
            Err(e) => decoded is Err && decoded->Err_0 == e,
        },
{
    let parts = match read_frame(json) {
        Some(parts) => parts,
        None => {
            return Err(DecodeError::MalformedEnvelope);
        },
    };
    match read_request(parts.kind.as_str(), parts.body) {
        Some(data) => Ok(
            Message::from_parts(
                parts.src.clone(),
                parts.dst.clone(),
                parts.msg_id,
                parts.in_reply_to,
                data,
            ),
        ),
        None => Err(DecodeError::MalformedPayload),
    }
}

/// Reads a value of the wire as an answer: [`decoded_reply`] says what it is,
/// or why it is none.
pub fn decode_reply(json: &Json) -> (decoded: Result<Message<MessageOut>, DecodeError>)
    ensures
        match decoded_reply(*json) {
            Ok(view) => decoded is Ok && reply_view(decoded->Ok_0) == view,
            Err(e) => decoded is Err && decoded->Err_0 == e,
        },
{
    let parts = match read_frame(json) {
        Some(parts) => parts,
        None => {
            return Err(DecodeError::MalformedEnvelope);
        },
    };
    match read_reply(parts.kind.as_str(), parts.body) {
        Some(data) => Ok(
            Message::from_parts(
                parts.src.clone(),
                parts.dst.clone(),
                parts.msg_id,
                parts.in_reply_to,
                data,
            ),
        ),
        None => Err(DecodeError::MalformedPayload),
    }
}

/// Reads one line's value both ways, as a request first: a value that reads
/// as a request is one; a value that only reads as an answer is an answer; a
/// value that reads as neither is a protocol error.
pub fn decode_line(json: &Json) -> (routed: Routed<MessageIn, MessageOut>)
    ensures
        match (decoded_request(*json), decoded_reply(*json)) {
            (Ok(view), _) => routed matches Routed::Request(m) && request_view(m) == view,
            (Err(_), Ok(view)) => routed matches Routed::Reply(m) && reply_view(m) == view,
            (Err(_), Err(_)) => routed is Neither,
        },
{
    match decode_request(json) {
        Ok(m) => Routed::Request(m),
        Err(_) => match decode_reply(json) {
            Ok(m) => Routed::Reply(m),
            Err(_) => Routed::Neither,
        },
    }
}

/// Whether `key` names a member that every body has: the tag or one of the
/// correlation ids.
pub open spec fn is_frame_key(key: Seq<char>) -> bool {
    key == "type"@ || key == "msg_id"@ || key == "in_reply_to"@
}

/// The names of the members of an envelope differ from each other, and so do
/// the names of the members of a body.
proof fn lemma_member_names()
    ensures
        "src"@ != "dest"@,
        "src"@ != "body"@,
        "dest"@ != "body"@,
        "type"@ != "msg_id"@,
        "type"@ != "in_reply_to"@,
        "msg_id"@ != "in_reply_to"@,
        !is_frame_key("message"@),
        !is_frame_key("visited"@),
        !is_frame_key("messages"@),
        !is_frame_key("topology"@),
        !is_frame_key("node_id"@),
        !is_frame_key("node_ids"@),
        "message"@ != "visited"@,
        "node_id"@ != "node_ids"@,
{
    reveal_strlit("src");
    reveal_strlit("dest");
    reveal_strlit("body");
    reveal_strlit("type");
    reveal_strlit("msg_id");
    reveal_strlit("in_reply_to");
    reveal_strlit("message");
    reveal_strlit("visited");
    reveal_strlit("messages");
    reveal_strlit("topology");
    reveal_strlit("node_id");
    reveal_strlit("node_ids");
    assert("dest"@[0] != "body"@[0]);
    assert("message"@[0] != "visited"@[0]);
    assert("type"@.len() == 4);
    assert("msg_id"@.len() == 6);
    assert("in_reply_to"@.len() == 11);
    assert("message"@.len() == 7);
    assert("visited"@.len() == 7);
    assert("messages"@.len() == 8);
    assert("topology"@.len() == 8);
    assert("node_id"@.len() == 7);
    assert("node_ids"@.len() == 8);
}

/// The tags of the requests differ from each other, and so do the tags of the
/// answers.
proof fn lemma_tags()
    ensures
        "broadcast"@ != "rebroadcast"@,
        "broadcast"@ != "read"@,
        "broadcast"@ != "topology"@,
        "broadcast"@ != "gossip"@,
        "rebroadcast"@ != "read"@,
        "rebroadcast"@ != "topology"@,
        "rebroadcast"@ != "gossip"@,
        "read"@ != "topology"@,
        "read"@ != "gossip"@,
        "topology"@ != "gossip"@,
        "broadcast_ok"@ != "read_ok"@,
        "broadcast_ok"@ != "topology_ok"@,
        "broadcast_ok"@ != "gossip_ok"@,
        "read_ok"@ != "topology_ok"@,
        "read_ok"@ != "gossip_ok"@,
        "topology_ok"@ != "gossip_ok"@,
{
    reveal_strlit("broadcast");
    reveal_strlit("rebroadcast");
    reveal_strlit("read");
    reveal_strlit("topology");
    reveal_strlit("gossip");
    reveal_strlit("broadcast_ok");
    reveal_strlit("read_ok");
    reveal_strlit("topology_ok");
    reveal_strlit("gossip_ok");
    assert("broadcast"@.len() == 9);
    assert("rebroadcast"@.len() == 11);
    assert("read"@.len() == 4);
    assert("topology"@.len() == 8);
    assert("gossip"@.len() == 6);
    assert("broadcast_ok"@.len() == 12);
    assert("read_ok"@.len() == 7);
    assert("topology_ok"@.len() == 11);
    assert("gossip_ok"@.len() == 9);
}

/// No tag of a request is the tag of an answer.
proof fn lemma_tags_apart()
    ensures
        "broadcast"@ != "broadcast_ok"@,
        "broadcast"@ != "read_ok"@,
        "broadcast"@ != "topology_ok"@,
        "broadcast"@ != "gossip_ok"@,
        "rebroadcast"@ != "broadcast_ok"@,
        "rebroadcast"@ != "read_ok"@,
        "rebroadcast"@ != "topology_ok"@,
        "rebroadcast"@ != "gossip_ok"@,
        "read"@ != "broadcast_ok"@,
        "read"@ != "read_ok"@,
        "read"@ != "topology_ok"@,
        "read"@ != "gossip_ok"@,
        "topology"@ != "broadcast_ok"@,
        "topology"@ != "read_ok"@,
        "topology"@ != "topology_ok"@,
        "topology"@ != "gossip_ok"@,
        "gossip"@ != "broadcast_ok"@,
        "gossip"@ != "read_ok"@,
        "gossip"@ != "topology_ok"@,
        "gossip"@ != "gossip_ok"@,
{
    reveal_strlit("broadcast");
    reveal_strlit("rebroadcast");
    reveal_strlit("read");
    reveal_strlit("topology");
    reveal_strlit("gossip");
    reveal_strlit("broadcast_ok");
    reveal_strlit("read_ok");
    reveal_strlit("topology_ok");
    reveal_strlit("gossip_ok");
    assert("broadcast"@.len() == 9);
    assert("rebroadcast"@.len() == 11);
    assert("read"@.len() == 4);
    assert("topology"@.len() == 8);
    assert("gossip"@.len() == 6);
    assert("broadcast_ok"@.len() == 12);
    assert("read_ok"@.len() == 7);
    assert("topology_ok"@.len() == 11);
    assert("gossip_ok"@.len() == 9);
    assert("broadcast"@[0] != "gossip_ok"@[0]);
    assert("rebroadcast"@[0] != "topology_ok"@[0]);
}

/// No value of the wire is both a request and an answer: reading a line as a
/// request first never hides an answer.
pub proof fn lemma_request_or_reply(json: Json)
    ensures
        !(decoded_request(json) is Ok && decoded_reply(json) is Ok),
{
    lemma_tags_apart();
}

fn write_id(id: Option<u64>) -> (json: Json)
    ensures
        optional_id(Some(json)) == Some(id),
{
    match id {
        Some(id) => Json::Number(id),
        None => Json::Null,
    }
}

/// Writes an envelope around the payload's own members. The tag and both
/// correlation ids are always written, an id that is not there as null.
fn write_frame(
    src: &str,
    dst: &str,
    msg_id: Option<u64>,
    in_reply_to: Option<u64>,
    kind: &str,
    fields: Vec<(String, Json)>,
) -> (json: Json)
    requires
        forall|j: int| 0 <= j < fields@.len() ==> !is_frame_key((#[trigger] fields@[j]).0@),
    ensures
        frame_of(json) matches Some(frame) && {
            &&& frame.src == src@
            &&& frame.dst == dst@
            &&& frame.msg_id == msg_id
            &&& frame.in_reply_to == in_reply_to
            &&& frame.kind == kind@
            &&& frame.body.len() == 3 + fields@.len()
            &&& lookup(frame.body, "msg_id"@) is Some
            &&& lookup(frame.body, "in_reply_to"@) is Some
            &&& forall|key: Seq<char>|
                !is_frame_key(key) ==> lookup(frame.body, key) == lookup(fields@, key)
        },
        json matches Json::Object(top) && top@.len() == 3,
{
    let mut fields = fields;
    let mut body: Vec<(String, Json)> = Vec::new();
    body.push(("type".to_owned(), Json::Text(kind.to_owned())));
    body.push(("msg_id".to_owned(), write_id(msg_id)));
    body.push(("in_reply_to".to_owned(), write_id(in_reply_to)));
    let ghost own = fields@;
    body.append(&mut fields);
    let mut top: Vec<(String, Json)> = Vec::new();
    top.push(("src".to_owned(), Json::Text(src.to_owned())));
    top.push(("dest".to_owned(), Json::Text(dst.to_owned())));
    let ghost members = body@;
    top.push(("body".to_owned(), Json::Object(body)));
    proof {
        lemma_member_names();
        lemma_lookup_at(top@, "src"@, 0);
        lemma_lookup_at(top@, "dest"@, 1);
        lemma_lookup_at(top@, "body"@, 2);
        lemma_lookup_at(members, "type"@, 0);
        lemma_lookup_at(members, "msg_id"@, 1);
        lemma_lookup_at(members, "in_reply_to"@, 2);
        assert(members.skip(3) =~= own);
        assert forall|key: Seq<char>| !is_frame_key(key) implies lookup(members, key) == lookup(
            own,
            key,
        ) by {
            lemma_lookup_skip(members, key, 3);
        }
    }
    Json::Object(top)
}

/// The first `upto` nodes of a topology with their neighbours.
spec fn links_upto(topology: NodeMap<NodeSet>, upto: int) -> Map<Seq<char>, Seq<Seq<char>>> {
    Map::new(
        |node: Seq<char>| topology.order().take(upto).contains(node),
        |node: Seq<char>| topology.values()[topology.order().index_of(node)].order(),
    )
}

fn write_links(topology: &NodeMap<NodeSet>) -> (members: Vec<(String, Json)>)
    ensures
        links_in(members@) == Some(adjacency_of(*topology)),
{
    let mut members: Vec<(String, Json)> = Vec::new();
    let count = topology.len();
    let mut i: usize = 0;
    assert(links_upto(*topology, 0) =~= Map::empty());
    while i < count
        invariant
            i <= count,
            count == topology.order().len(),
            count == topology.values().len(),
            topology.order().no_duplicates(),
            links_in(members@) == Some(links_upto(*topology, i as int)),
        decreases count - i,
    {
        let ghost before = members@;
        let neighbors = topology.value_at(i);
        let _ = neighbors.len();
        let items = write_names(&neighbors.to_vec());
        members.push((topology.key_at(i).clone(), Json::Array(items)));
        proof {
            assert(members@.drop_last() =~= before);
            lemma_with_names_distinct(neighbors.order());
            let node = topology.order()[i as int];
            let next = links_upto(*topology, i as int + 1);
            let wanted = links_upto(*topology, i as int).insert(node, neighbors.order());
            assert forall|name: Seq<char>| next.dom().contains(name) <==> wanted.dom().contains(
                name,
            ) by {
                let longer = topology.order().take(i as int + 1);
                let shorter = topology.order().take(i as int);
                if longer.contains(name) {
                    let j = choose|j: int| 0 <= j < longer.len() && longer[j] == name;
                    if j < i {
                        assert(shorter[j] == name);
                    }
                }
                if shorter.contains(name) {
                    let j = choose|j: int| 0 <= j < shorter.len() && shorter[j] == name;
                    assert(longer[j] == name);
                }
                if name == node {
                    assert(longer[i as int] == name);
                }
            }
            assert forall|name: Seq<char>| next.dom().contains(name) implies next[name]
                == wanted[name] by {
                if name == node {
                    assert(topology.order().index_of(name) == i);
                }
            }
            assert(next =~= wanted);
        }
        i += 1;
    }
    proof {
        assert(topology.order().take(i as int) =~= topology.order());
        assert(links_upto(*topology, i as int) =~= adjacency_of(*topology));
    }
    members
}

/// Writes a request as a value of the wire. The value reads back as the same
/// request ([`decoded_request`]). It is an object of three members, and its
/// body holds the tag, both correlation ids (null where there is none) and
/// the payload's own members, and nothing else.
pub fn encode_request(msg: &Message<MessageIn>) -> (json: Json)
    ensures
        decoded_request(json) == Ok::<MessageView<RequestView>, DecodeError>(request_view(*msg)),
        json matches Json::Object(top) && top@.len() == 3,
        frame_of(json) matches Some(frame) && {
            &&& lookup(frame.body, "msg_id"@) is Some
            &&& lookup(frame.body, "in_reply_to"@) is Some
            &&& frame.body.len() == 3 + match msg@.data {
                MessageIn::Broadcast { .. } => 1nat,
                MessageIn::Rebroadcast { .. } => 2nat,
                MessageIn::Read {  } => 0nat,
                MessageIn::Topology { .. } => 1nat,
                MessageIn::Gossip { .. } => 1nat,
            }
        },
{
    let mut fields: Vec<(String, Json)> = Vec::new();
    proof {
        lemma_member_names();
        lemma_tags();
    }
    let kind = match msg.data() {
        MessageIn::Broadcast { message } => {
            fields.push(("message".to_owned(), Json::Number(*message)));
            proof {
                lemma_lookup_at(fields@, "message"@, 0);
            }
            "broadcast"
        },
        MessageIn::Rebroadcast { message, visited } => {
            fields.push(("message".to_owned(), Json::Number(*message)));
            fields.push(("visited".to_owned(), Json::Array(write_names(&visited.to_vec()))));
            proof {
                lemma_lookup_at(fields@, "message"@, 0);
                lemma_lookup_at(fields@, "visited"@, 1);
            }
            "rebroadcast"
        },
        MessageIn::Read {  } => "read",
        MessageIn::Topology { topology } => {
            fields.push(("topology".to_owned(), Json::Object(write_links(topology))));
            proof {
                lemma_lookup_at(fields@, "topology"@, 0);
            }
            "topology"
        },
        MessageIn::Gossip { messages } => {
            fields.push(("messages".to_owned(), Json::Array(write_numbers(messages))));
            proof {
                lemma_lookup_at(fields@, "messages"@, 0);
            }
            "gossip"
        },
    };
    write_frame(
        msg.src().as_str(),
        msg.dst().as_str(),
        msg.msg_id(),
        msg.in_reply_to(),
        kind,
        fields,
    )
}

/// Writes an answer as a value of the wire. The value reads back as the same
/// answer ([`decoded_reply`]). It is an object of three members, and its body
/// holds the tag, both correlation ids (null where there is none) and the
/// payload's own members, and nothing else.
pub fn encode_reply(msg: &Message<MessageOut>) -> (json: Json)
    ensures
        decoded_reply(json) == Ok::<MessageView<ReplyView>, DecodeError>(reply_view(*msg)),
        json matches Json::Object(top) && top@.len() == 3,
        frame_of(json) matches Some(frame) && {
            &&& lookup(frame.body, "msg_id"@) is Some
            &&& lookup(frame.body, "in_reply_to"@) is Some
            &&& frame.body.len() == 3 + match msg@.data {
                MessageOut::Broadcast {  } => 0nat,
                MessageOut::Read { .. } => 1nat,
                MessageOut::Topology {  } => 0nat,
                MessageOut::Gossip { .. } => 1nat,
            }
        },
{
    let mut fields: Vec<(String, Json)> = Vec::new();
    proof {
        lemma_member_names();
        lemma_tags();
    }
    let kind = match msg.data() {
        MessageOut::Broadcast {  } => "broadcast_ok",
        MessageOut::Read { messages } => {
            fields.push(("messages".to_owned(), Json::Array(write_numbers(messages))));
            proof {
                lemma_lookup_at(fields@, "messages"@, 0);
            }
            "read_ok"
        },
        MessageOut::Topology {  } => "topology_ok",
        MessageOut::Gossip { messages } => {
            fields.push(("messages".to_owned(), Json::Array(write_numbers(messages))));
            proof {
                lemma_lookup_at(fields@, "messages"@, 0);
            }
            "gossip_ok"
        },
    };
    write_frame(
        msg.src().as_str(),
        msg.dst().as_str(),
        msg.msg_id(),
        msg.in_reply_to(),
        kind,
        fields,
    )
}

/// What a value of the wire is when read as the request that tells a node
/// who it is.
pub open spec fn decoded_init(json: Json) -> Result<MessageView<InitView>, DecodeError> {
    match frame_of(json) {
        None => Err(DecodeError::MalformedEnvelope),
        Some(frame) => if frame.kind == "init"@ {
            match (lookup(frame.body, "node_id"@), lookup(frame.body, "node_ids"@)) {
                (Some(Json::Text(node_id)), Some(Json::Array(items))) => match names_in(items@) {
                    Some(node_ids) => Ok(
                        MessageView {
                            src: frame.src,
                            dst: frame.dst,
                            msg_id: frame.msg_id,
                            in_reply_to: frame.in_reply_to,
                            data: InitView { node_id: node_id@, node_ids },
                        },
                    ),
                    None => Err(DecodeError::MalformedPayload),
                },
                _ => Err(DecodeError::MalformedPayload),
            }
        } else {
            Err(DecodeError::MalformedPayload)
        },
    }
}

/// Reads a value of the wire as the request that tells a node who it is:
/// [`decoded_init`] says what it is, or why it is none.
pub fn decode_init(json: &Json) -> (decoded: Result<Message<UninitMessageIn>, DecodeError>)
    ensures
        match decoded_init(*json) {
            Ok(view) => decoded is Ok && init_view(decoded->Ok_0) == view,
            Err(e) => decoded is Err && decoded->Err_0 == e,
        },
{
    let parts = match read_frame(json) {
        Some(parts) => parts,
        None => {
            return Err(DecodeError::MalformedEnvelope);
        },
    };
    if !crate::text::str_eq(parts.kind.as_str(), "init") {
        return Err(DecodeError::MalformedPayload);
    }
    let node_id = match member(parts.body, "node_id") {
        Some(Json::Text(node_id)) => node_id.clone(),
        _ => {
            return Err(DecodeError::MalformedPayload);
        },
    };
    let node_ids = match member(parts.body, "node_ids") {
        Some(Json::Array(items)) => match read_names(items) {
            Some(node_ids) => node_ids,
            None => {
                return Err(DecodeError::MalformedPayload);
            },
        },
        _ => {
            return Err(DecodeError::MalformedPayload);
        },
    };
    Ok(
        Message::from_parts(
            parts.src.clone(),
            parts.dst.clone(),
            parts.msg_id,
            parts.in_reply_to,
            UninitMessageIn::Init { node_id, node_ids },
        ),
    )
}

/// Writes the acknowledgement of the first request as a value of the wire:
/// an envelope with the tag `init_ok`, both correlation ids, and no member of
/// its own.
pub fn encode_init_ok(msg: &Message<UninitMessageOut>) -> (json: Json)
    ensures
        json matches Json::Object(top) && top@.len() == 3,
        frame_of(json) matches Some(frame) && {
            &&& frame.src == msg@.src
            &&& frame.dst == msg@.dst
            &&& frame.msg_id == msg@.msg_id
            &&& frame.in_reply_to == msg@.in_reply_to
            &&& frame.kind == "init_ok"@
            &&& frame.body.len() == 3
            &&& lookup(frame.body, "msg_id"@) is Some
            &&& lookup(frame.body, "in_reply_to"@) is Some
        },
{
    write_frame(
        msg.src().as_str(),
        msg.dst().as_str(),
        msg.msg_id(),
        msg.in_reply_to(),
        "init_ok",
        Vec::new(),
    )
}

} // verus!
