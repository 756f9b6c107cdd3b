//! The dissemination engine as a state machine: what a node holds, and what
//! each request, answer and tick makes of it.

use crate::client::ClientView;
use crate::message::MessageView;
use crate::node_set::without_names;
use crate::payload::{OutboxView, ReplyView, RequestView};
use crate::topology::Health;
use vstd::prelude::*;

verus! {

/// Why a request was not carried out.
#[derive(Debug, PartialEq, Eq, Clone, Copy, Structural)]
pub enum EngineError {
    /// A value arrived before any topology: it is stored, and sent to nobody.
    TopologyNotSet,
    /// The topology that arrived does not list this node.
    NotInTopology,
}

/// What a node holds.
pub ghost struct NodeView {
    pub client: ClientView,
    pub values: Set<u64>,
    pub topology: Option<Health>,
}

/// The neighbours that a flood wave has not reached yet, in order.
pub open spec fn forward_targets(neighbors: Seq<Seq<char>>, visited: Set<Seq<char>>) -> Seq<
    Seq<char>,
> {
    without_names(neighbors, visited)
}

/// The nodes that a flood wave has reached, or is about to reach, once the
/// node `me` has passed it on to its neighbours.
pub open spec fn forward_visited(
    neighbors: Seq<Seq<char>>,
    visited: Set<Seq<char>>,
    me: Seq<char>,
) -> Set<Seq<char>> {
    visited.union(neighbors.to_set()).insert(me)
}

/// One request with payload `data` to each of `targets` in turn, each under
/// the id that is fresh at its turn.
pub open spec fn requests_to(client: ClientView, targets: Seq<Seq<char>>, data: RequestView) -> Seq<
    MessageView<RequestView>,
> {
    Seq::new(
        targets.len(),
        |i: int|
            MessageView {
                src: client.node_id(),
                dst: targets[i],
                msg_id: client.after_allocs(i as nat).fresh_id(),
                in_reply_to: None,
                data,
            },
    )
}

/// The rebroadcasts by which a node passes the value `message` on, given the
/// nodes that the wave has visited before.
pub open spec fn flood(
    client: ClientView,
    neighbors: Seq<Seq<char>>,
    visited: Set<Seq<char>>,
    message: u64,
) -> Seq<MessageView<RequestView>> {
    requests_to(
        client,
        forward_targets(neighbors, visited),
        RequestView::Rebroadcast {
            message,
            visited: forward_visited(neighbors, visited, client.node_id()),
        },
    )
}

/// The answer to `msg` under the id `msg_id`.
pub open spec fn answer(msg: MessageView<RequestView>, msg_id: Option<u64>, data: ReplyView) -> MessageView<
    ReplyView,
> {
    MessageView { src: msg.dst, dst: msg.src, msg_id, in_reply_to: msg.msg_id, data }
}

/// The node after it has answered `msg` with `data` and sent nothing else,
/// and what it sends.
pub open spec fn answered(node: NodeView, msg: MessageView<RequestView>, data: ReplyView) -> (
    NodeView,
    Result<OutboxView, EngineError>,
) {
    (
        NodeView { client: node.client.after_alloc(), ..node },
        Ok(
            OutboxView {
                requests: Seq::empty(),
                reply: Some(answer(msg, node.client.fresh_id(), data)),
            },
        ),
    )
}

/// What the request `msg`, taken at time `now`, makes of a node, and what the
/// node sends or reports.
///
/// - A stored value is added to the node's values. The node passes it on to
///   every neighbour, with the neighbours and itself as the nodes visited,
///   and acknowledges.
/// - A value passed on by a peer is added too. The node passes it on to the
///   neighbours that the wave has not visited, with the nodes visited grown by
///   its neighbours and itself. It sends no answer.
/// - A read is answered with the node's values.
/// - The first topology gives the node its neighbours, each heard of at
///   `now`. A later one is acknowledged and changes nothing. One that does not
///   list the node is an error.
/// - Gossip is merged into the node's values and answered with the result.
///
/// A value that arrives before the topology is stored and reported as an
/// error.
pub open spec fn on_request(node: NodeView, msg: MessageView<RequestView>, now: u64) -> (
    NodeView,
    Result<OutboxView, EngineError>,
) {
    match msg.data {
        RequestView::Broadcast { message } => {
            let stored = NodeView { values: node.values.insert(message), ..node };
            match node.topology {
                None => (stored, Err(EngineError::TopologyNotSet)),
                Some(h) => {
                    let sends = flood(node.client, h.neighbors, Set::empty(), message);
                    let asked = node.client.after_allocs(sends.len());
                    (
                        NodeView { client: asked.after_alloc(), ..stored },
                        Ok(
                            OutboxView {
                                requests: sends,
                                reply: Some(answer(msg, asked.fresh_id(), ReplyView::Broadcast)),
                            },
                        ),
                    )
                },
            }
        },
        RequestView::Rebroadcast { message, visited } => {
            let stored = NodeView { values: node.values.insert(message), ..node };
            match node.topology {
                None => (stored, Err(EngineError::TopologyNotSet)),
                Some(h) => {
                    let sends = flood(node.client, h.neighbors, visited, message);
                    (
                        NodeView { client: node.client.after_allocs(sends.len()), ..stored },
                        Ok(OutboxView { requests: sends, reply: None }),
                    )
                },
            }
        },
        RequestView::Read => answered(node, msg, ReplyView::Read { messages: node.values }),
        RequestView::Topology { topology } => {
            if node.topology is Some {
                answered(node, msg, ReplyView::Topology)
            } else if topology.dom().contains(node.client.node_id()) {
                answered(
                    NodeView {
                        topology: Some(Health::seeded(topology[node.client.node_id()], now)),
                        ..node
                    },
                    msg,
                    ReplyView::Topology,
                )
            } else {
                (node, Err(EngineError::NotInTopology))
            }
        },
        RequestView::Gossip { messages } => {
            let merged = node.values.union(messages);
            answered(
                NodeView { values: merged, ..node },
                msg,
                ReplyView::Gossip { messages: merged },
            )
        },
    }
}

/// Whether the node takes the answer `msg`: it does if the answer names a
/// request of this node that still awaits its answer, and carries values.
pub open spec fn accepts(node: NodeView, msg: MessageView<ReplyView>) -> bool {
    &&& msg.in_reply_to matches Some(id)
    &&& node.client.awaiting.contains(id)
    &&& (msg.data is Read || msg.data is Gossip)
}

/// What the answer `msg`, taken at time `now`, makes of a node.
///
/// An answer that the node takes ([`accepts`]) settles its request, and its
/// values are merged into the node's. The answer to a read also marks its
/// sender, if that is a neighbour, as heard of at `now`. Any other answer
/// changes nothing.
pub open spec fn on_reply(node: NodeView, msg: MessageView<ReplyView>, now: u64) -> NodeView {
    if accepts(node, msg) {
        let client = node.client.after_settle(msg.in_reply_to->0);
        match msg.data {
            ReplyView::Read { messages } => NodeView {
                client,
                values: node.values.union(messages),
                topology: match node.topology {
                    Some(h) => Some(h.touched(msg.src, now)),
                    None => None,
                },
            },
            ReplyView::Gossip { messages } => NodeView {
                client,
                values: node.values.union(messages),
                ..node
            },
            _ => node,
        }
    } else {
        node
    }
}

/// The read requests by which a node probes, at time `now`, the neighbours
/// that have gone quiet. Without a topology there are none.
pub open spec fn repair_probes(client: ClientView, topology: Option<Health>, now: u64) -> Seq<
    MessageView<RequestView>,
> {
    match topology {
        Some(h) => requests_to(client, h.stale(now), RequestView::Read),
        None => Seq::empty(),
    }
}

/// The gossip requests by which a node offers its values to `targets`.
pub open spec fn gossip_offers(client: ClientView, values: Set<u64>, targets: Seq<Seq<char>>) -> Seq<
    MessageView<RequestView>,
> {
    requests_to(client, targets, RequestView::Gossip { messages: values })
}

/// What a node holds after it has taken the request `msg` once for each of
/// `times`, in order.
pub open spec fn replayed(node: NodeView, msg: MessageView<RequestView>, times: Seq<u64>) -> NodeView
    decreases times.len(),
{
    if times.len() == 0 {
        node
    } else {
        on_request(replayed(node, msg, times.drop_last()), msg, times.last()).0
    }
}

/// The values that a request carries.
pub open spec fn request_values(data: RequestView) -> Set<u64> {
    match data {
        RequestView::Broadcast { message } => set![message],
        RequestView::Rebroadcast { message, .. } => set![message],
        RequestView::Gossip { messages } => messages,
        _ => Set::empty(),
    }
}

/// The values that an answer carries.
pub open spec fn reply_values(data: ReplyView) -> Set<u64> {
    match data {
        ReplyView::Read { messages } => messages,
        ReplyView::Gossip { messages } => messages,
        _ => Set::empty(),
    }
}

/// A request merges the values that it carries into the node's values, and
/// does nothing else to them: no value is taken away.
pub proof fn lemma_request_merges(node: NodeView, msg: MessageView<RequestView>, now: u64)
    ensures
        on_request(node, msg, now).0.values == node.values.union(request_values(msg.data)),
        node.values.subset_of(on_request(node, msg, now).0.values),
{
    assert(on_request(node, msg, now).0.values =~= node.values.union(request_values(msg.data)));
}

/// An answer that the node takes merges the values that it carries into the
/// node's values; any other answer leaves them alone. No value is taken away.
pub proof fn lemma_reply_merges(node: NodeView, msg: MessageView<ReplyView>, now: u64)
    ensures
        on_reply(node, msg, now).values == if accepts(node, msg) {
            node.values.union(reply_values(msg.data))
        } else {
            node.values
        },
        node.values.subset_of(on_reply(node, msg, now).values),
{
}

/// A node sends no value that it does not hold: what the rebroadcasts and the
/// answer that a request sets off carry is among the node's values then.
pub proof fn lemma_sends_held_values(node: NodeView, msg: MessageView<RequestView>, now: u64)
    ensures
        on_request(node, msg, now).1 matches Ok(outbox) ==> {
            &&& forall|turn: int|
                0 <= turn < outbox.requests.len() ==> request_values(
                    (#[trigger] outbox.requests[turn]).data,
                ).subset_of(on_request(node, msg, now).0.values)
            &&& outbox.reply matches Some(reply) ==> reply_values(reply.data).subset_of(
                on_request(node, msg, now).0.values,
            )
        },
{
}

/// Merging is idempotent: however often a node takes the same rebroadcast or
/// the same gossip, it holds the values that it held after the first time.
pub proof fn lemma_merge_idempotent(node: NodeView, msg: MessageView<RequestView>, times: Seq<u64>)
    requires
        msg.data is Rebroadcast || msg.data is Gossip,
        times.len() >= 1,
    ensures
        replayed(node, msg, times).values == on_request(node, msg, times[0]).0.values,
    decreases times.len(),
{
    if times.len() == 1 {
        assert(times.drop_last().len() == 0);
        assert(replayed(node, msg, times.drop_last()) == node);
    } else {
        let earlier = times.drop_last();
        lemma_merge_idempotent(node, msg, earlier);
        assert(earlier[0] == times[0]);
        let held = replayed(node, msg, earlier);
        assert(on_request(held, msg, times.last()).0.values =~= held.values);
    }
}

/// An answer is taken once: the same answer taken again changes nothing.
pub proof fn lemma_reply_taken_once(node: NodeView, msg: MessageView<ReplyView>, first: u64, again: u64)
    ensures
        on_reply(on_reply(node, msg, first), msg, again) == on_reply(node, msg, first),
{
}

/// Only an answer to one of the node's own requests is merged: an answer
/// changes what a node holds only if it names, as the request that it
/// answers, an id that the node handed out for a request whose answer it
/// still awaited.
pub proof fn lemma_only_awaited_answers_merge(node: NodeView, msg: MessageView<ReplyView>, now: u64)
    requires
        node.client.wf(),
    ensures
        on_reply(node, msg, now) != node ==> {
            &&& msg.in_reply_to matches Some(id)
            &&& node.client.awaiting.contains(id)
            &&& id < node.client.next_id
        },
        !accepts(node, msg) ==> on_reply(node, msg, now) == node,
        on_reply(node, msg, now).client.wf(),
{
}

/// The ids that a node awaits answers to are the ids of the requests that it
/// sent for an answer: after it has sent `targets.len()` such requests, it
/// awaits the ids that it awaited before and the ids that those requests
/// carry, and no others.
pub proof fn lemma_awaited_ids_are_sent(
    client: ClientView,
    targets: Seq<Seq<char>>,
    data: RequestView,
    id: u64,
)
    ensures
        client.after_requests(targets.len()).awaiting.contains(id) <==> client.awaiting.contains(id)
            || exists|turn: int|
            0 <= turn < targets.len() && (#[trigger] requests_to(client, targets, data)[turn]).msg_id
                == Some(id),
{
    crate::client::lemma_after_requests(client, targets.len());
    let awaited = client.after_requests(targets.len()).awaiting.contains(id);
    let carried = exists|turn: int|
        0 <= turn < targets.len() && (#[trigger] requests_to(client, targets, data)[turn]).msg_id
            == Some(id);
    if client.next_id <= id < crate::client::counter_after(client.next_id, targets.len()) {
        let turn = id - client.next_id;
        crate::client::lemma_after_allocs(client, turn as nat);
        assert(0 <= turn < targets.len());
        assert(requests_to(client, targets, data)[turn].msg_id == Some(id));
        assert(carried);
    }
    if carried {
        let turn = choose|turn: int|
            0 <= turn < targets.len() && (#[trigger] requests_to(client, targets, data)[turn]).msg_id
                == Some(id);
        crate::client::lemma_after_allocs(client, turn as nat);
        assert(client.next_id <= id < crate::client::counter_after(client.next_id, targets.len()));
    }
    assert(awaited <==> client.awaiting.contains(id) || carried);
}

} // verus!
