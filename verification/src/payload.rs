//! The payloads of the dissemination protocol.

use crate::message::{Message, MessageView};
use crate::node_map::NodeMap;
use crate::node_set::NodeSet;
use std::collections::HashSet;
use vstd::prelude::*;

verus! {

/// What a node is asked.
#[derive(Debug)]
pub enum MessageIn {
    /// A client stores a value.
    Broadcast { message: u64 },
    /// A peer passes a stored value on, with the nodes that the wave has
    /// reached or is about to reach.
    Rebroadcast { message: u64, visited: NodeSet },
    /// A client or a peer asks for the values that the node holds.
    Read {  },
    /// The node is told which nodes are neighbours of which.
    Topology { topology: NodeMap<NodeSet> },
    /// A peer offers all the values that it holds.
    Gossip { messages: HashSet<u64> },
}

/// What a node answers.
#[derive(Debug)]
pub enum MessageOut {
    /// The value was stored.
    Broadcast {  },
    /// The values that the node holds.
    Read { messages: HashSet<u64> },
    /// The topology was taken.
    Topology {  },
    /// The values that the node holds once the offered ones are merged in.
    Gossip { messages: HashSet<u64> },
}

/// The mathematical content of a [`MessageIn`].
pub ghost enum RequestView {
    Broadcast { message: u64 },
    Rebroadcast { message: u64, visited: Set<Seq<char>> },
    Read,
    /// For each node that the topology lists, its neighbours in the order
    /// given.
    Topology { topology: Map<Seq<char>, Seq<Seq<char>>> },
    Gossip { messages: Set<u64> },
}

/// The mathematical content of a [`MessageOut`].
pub ghost enum ReplyView {
    Broadcast,
    Read { messages: Set<u64> },
    Topology,
    Gossip { messages: Set<u64> },
}

/// The neighbours that an adjacency list gives each node.
pub open spec fn adjacency_of(topology: NodeMap<NodeSet>) -> Map<Seq<char>, Seq<Seq<char>>> {
    Map::new(
        |node: Seq<char>| topology@.dom().contains(node),
        |node: Seq<char>| topology@[node].order(),
    )
}

impl View for MessageIn {
    type V = RequestView;

    open spec fn view(&self) -> RequestView {
        match *self {
            MessageIn::Broadcast { message } => RequestView::Broadcast { message },
            MessageIn::Rebroadcast { message, visited } => RequestView::Rebroadcast {
                message,
                visited: visited@,
            },
            MessageIn::Read {  } => RequestView::Read,
            MessageIn::Topology { topology } => RequestView::Topology {
                topology: adjacency_of(topology),
            },
            MessageIn::Gossip { messages } => RequestView::Gossip { messages: messages@ },
        }
    }
}

impl View for MessageOut {
    type V = ReplyView;

    open spec fn view(&self) -> ReplyView {
        match *self {
            MessageOut::Broadcast {  } => ReplyView::Broadcast,
            MessageOut::Read { messages } => ReplyView::Read { messages: messages@ },
            MessageOut::Topology {  } => ReplyView::Topology,
            MessageOut::Gossip { messages } => ReplyView::Gossip { messages: messages@ },
        }
    }
}

/// What a request holds, with its payload as a mathematical value.
pub open spec fn request_view(m: Message<MessageIn>) -> MessageView<RequestView> {
    MessageView {
        src: m@.src,
        dst: m@.dst,
        msg_id: m@.msg_id,
        in_reply_to: m@.in_reply_to,
        data: m@.data@,
    }
}

/// What an answer holds, with its payload as a mathematical value.
pub open spec fn reply_view(m: Message<MessageOut>) -> MessageView<ReplyView> {
    MessageView {
        src: m@.src,
        dst: m@.dst,
        msg_id: m@.msg_id,
        in_reply_to: m@.in_reply_to,
        data: m@.data@,
    }
}

/// What a sequence of requests holds.
pub open spec fn request_views(requests: Seq<Message<MessageIn>>) -> Seq<MessageView<RequestView>> {
    Seq::new(requests.len(), |i: int| request_view(requests[i]))
}

/// What handling one request makes the node send: requests to peers, and at
/// most one answer, which goes out behind them.
#[derive(Debug)]
pub struct Outbox {
    pub requests: Vec<Message<MessageIn>>,
    pub reply: Option<Message<MessageOut>>,
}

/// The mathematical content of an [`Outbox`].
pub ghost struct OutboxView {
    pub requests: Seq<MessageView<RequestView>>,
    pub reply: Option<MessageView<ReplyView>>,
}

impl View for Outbox {
    type V = OutboxView;

    open spec fn view(&self) -> OutboxView {
        OutboxView {
            requests: request_views(self.requests@),
            reply: match self.reply {
                Some(m) => Some(reply_view(m)),
                None => None,
            },
        }
    }
}

} // verus!
