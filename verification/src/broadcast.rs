//! The dissemination engine at work: the handlers of requests and answers,
//! and the two periodic activities.

use crate::client::{lemma_after_allocs, lemma_after_requests, Client};
use crate::engine::{
    accepts, forward_visited, gossip_offers, on_reply, on_request, repair_probes, requests_to,
    EngineError, NodeView,
};
use crate::message::Message;
use crate::node_map::NodeMap;
use crate::node_set::{lemma_with_name, lemma_with_names, names_of, NodeSet};
use crate::payload::{
    adjacency_of, reply_view, request_view, request_views, MessageIn, MessageOut, Outbox,
};
use crate::topology::Topology;
use crate::values::{copy_values, merge_values};
use std::collections::HashSet;
use vstd::prelude::*;

verus! {

broadcast use vstd::std_specs::hash::group_hash_axioms;

/// A copy of a topology.
fn copy_links(topology: &NodeMap<NodeSet>) -> (copy: NodeMap<NodeSet>)
    ensures
        adjacency_of(copy) == adjacency_of(*topology),
{
    let mut copy: NodeMap<NodeSet> = NodeMap::new();
    let count = topology.len();
    let mut i: usize = 0;
    while i < count
        invariant
            i <= count,
            count == topology.order().len(),
            count == topology.values().len(),
            topology.order().no_duplicates(),
            copy.order() == topology.order().take(i as int),
            copy.values().len() == i,
            forall|j: int|
                0 <= j < i ==> (#[trigger] copy.values()[j]).order() == topology.values()[j].order(),
        decreases count - i,
    {
        let ghost before = copy.order();
        assert(!before.contains(topology.order()[i as int])) by {
            if before.contains(topology.order()[i as int]) {
                let j = choose|j: int| 0 <= j < i && before[j] == topology.order()[i as int];
                assert(topology.order()[j] == topology.order()[i as int]);
            }
        }
        copy.insert(topology.key_at(i).clone(), topology.value_at(i).clone());
        assert(copy.order() =~= topology.order().take(i as int + 1));
        i += 1;
    }
    proof {
        assert(topology.order().take(i as int) =~= topology.order());
        assert forall|node: Seq<char>| topology.order().contains(node) implies copy@[node].order()
            == topology@[node].order() by {
            let at = topology.order().index_of(node);
            assert(0 <= at < count);
        }
        assert(adjacency_of(copy) =~= adjacency_of(*topology));
    }
    copy
}

/// A copy of a payload that is sent to several peers.
fn copy_payload(payload: &MessageIn) -> (copy: MessageIn)
    ensures
        copy@ == payload@,
{
    match payload {
        MessageIn::Broadcast { message } => MessageIn::Broadcast { message: *message },
        MessageIn::Rebroadcast { message, visited } => MessageIn::Rebroadcast {
            message: *message,
            visited: visited.clone(),
        },
        MessageIn::Read {  } => MessageIn::Read {  },
        MessageIn::Gossip { messages } => MessageIn::Gossip { messages: copy_values(messages) },
        MessageIn::Topology { topology } => MessageIn::Topology { topology: copy_links(topology) },
    }
}

/// Sends `payload` to each of `targets` in turn. With `awaited`, the node
/// awaits an answer to each.
fn post_all(client: &mut Client, targets: &Vec<String>, payload: &MessageIn, awaited: bool) -> (sent:
    Vec<Message<MessageIn>>)
    requires
        old(client)@.is_init(),
    ensures
        request_views(sent@) == requests_to(old(client)@, names_of(targets@), payload@),
        final(client)@ == if awaited {
            old(client)@.after_requests(targets@.len())
        } else {
            old(client)@.after_allocs(targets@.len())
        },
        final(client)@.wf(),
{
    let mut sent: Vec<Message<MessageIn>> = Vec::new();
    let mut i: usize = 0;
    let _ = client.is_init();
    while i < targets.len()
        invariant
            i <= targets.len(),
            sent.len() == i,
            client@.wf(),
            old(client)@.is_init(),
            client@ == if awaited {
                old(client)@.after_requests(i as nat)
            } else {
                old(client)@.after_allocs(i as nat)
            },
            forall|j: int|
                0 <= j < i ==> request_view(#[trigger] sent[j]) == requests_to(
                    old(client)@,
                    names_of(targets@),
                    payload@,
                )[j],
        decreases targets.len() - i,
    {
        proof {
            lemma_after_allocs(old(client)@, i as nat);
            lemma_after_requests(old(client)@, i as nat);
        }
        let data = copy_payload(payload);
        let m = if awaited {
            client.request(targets[i].as_str(), data)
        } else {
            client.send_to(targets[i].as_str(), data)
        };
        sent.push(m);
        i += 1;
    }
    assert(request_views(sent@) =~= requests_to(old(client)@, names_of(targets@), payload@));
    sent
}

/// Sends `payload` from this node to each of `targets` in turn, each message
/// under the id that is fresh at its turn. No answer is awaited.
pub fn broadcast_to_all(client: &mut Client, targets: &Vec<String>, payload: &MessageIn) -> (sent:
    Vec<Message<MessageIn>>)
    requires
        old(client)@.is_init(),
    ensures
        request_views(sent@) == requests_to(old(client)@, names_of(targets@), payload@),
        final(client)@ == old(client)@.after_allocs(targets@.len()),
        final(client)@.wf(),
{
    post_all(client, targets, payload, false)
}

/// Handles one request at time `now`: [`on_request`] says what becomes of the
/// node's client, values and topology, and what the node sends or reports.
pub fn process_in_msg(
    msg: Message<MessageIn>,
    client: &mut Client,
    messages: &mut HashSet<u64>,
    topology: &mut Topology,
    now: u64,
) -> (result: Result<Outbox, EngineError>)
    requires
        old(client)@.is_init(),
    ensures
        ({
            let before = NodeView {
                client: old(client)@,
                values: old(messages)@,
                topology: old(topology)@,
            };
            let (after, sent) = on_request(before, request_view(msg), now);
            &&& final(client)@ == after.client
            &&& final(messages)@ == after.values
            &&& final(topology)@ == after.topology
            &&& match sent {
                Ok(outbox) => result is Ok && result->Ok_0@ == outbox,
                Err(e) => result == Err::<Outbox, EngineError>(e),
            }
        }),
        final(client)@.wf(),
{
    let _ = client.is_init();
    let ghost before = NodeView {
        client: old(client)@,
        values: old(messages)@,
        topology: old(topology)@,
    };
    match msg.data() {
        MessageIn::Broadcast { message } => {
            let message = *message;
            messages.insert(message);
            match topology.neighbors() {
                None => Err(EngineError::TopologyNotSet),
                Some(neighbors) => {
                    let mut visited = neighbors.clone();
                    visited.insert(client.node_id().to_owned());
                    let targets = neighbors.to_vec();
                    proof {
                        let h = before.topology->0;
                        lemma_with_name(neighbors.order(), client@.node_id());
                        crate::node_set::lemma_without_nothing(h.neighbors);
                        assert(visited@ =~= forward_visited(
                            h.neighbors,
                            Set::empty(),
                            client@.node_id(),
                        ));
                        lemma_after_allocs(client@, targets@.len());
                    }
                    let payload = MessageIn::Rebroadcast { message, visited };
                    let requests = broadcast_to_all(client, &targets, &payload);
                    let reply = client.reply(msg, MessageOut::Broadcast {  });
                    Ok(Outbox { requests, reply: Some(reply) })
                },
            }
        },
        MessageIn::Rebroadcast { message, visited } => {
            let message = *message;
            messages.insert(message);
            match topology.neighbors() {
                None => Err(EngineError::TopologyNotSet),
                Some(neighbors) => {
                    let targets = neighbors.difference(visited).to_vec();
                    let mut seen = visited.clone();
                    seen.extend(neighbors);
                    seen.insert(client.node_id().to_owned());
                    let _ = visited.len();
                    proof {
                        let h = before.topology->0;
                        lemma_with_names(visited.order(), neighbors.order());
                        lemma_with_name(
                            crate::node_set::with_names(visited.order(), neighbors.order()),
                            client@.node_id(),
                        );
                        assert(seen@ =~= forward_visited(
                            h.neighbors,
                            visited@,
                            client@.node_id(),
                        ));
                    }
                    let payload = MessageIn::Rebroadcast { message, visited: seen };
                    let requests = broadcast_to_all(client, &targets, &payload);
                    Ok(Outbox { requests, reply: None })
                },
            }
        },
        MessageIn::Read {  } => {
            let data = MessageOut::Read { messages: copy_values(messages) };
            let reply = client.reply(msg, data);
            let requests: Vec<Message<MessageIn>> = Vec::new();
            assert(request_views(requests@) =~= Seq::empty());
            Ok(Outbox { requests, reply: Some(reply) })
        },
        MessageIn::Topology { topology: adjacency } => {
            if !topology.is_set() {
                match adjacency.get(client.node_id()) {
                    Some(neighbors) => {
                        topology.seed(neighbors, now);
                    },
                    None => {
                        return Err(EngineError::NotInTopology);
                    },
                }
            }
            let reply = client.reply(msg, MessageOut::Topology {  });
            let requests: Vec<Message<MessageIn>> = Vec::new();
            assert(request_views(requests@) =~= Seq::empty());
            Ok(Outbox { requests, reply: Some(reply) })
        },
        MessageIn::Gossip { messages: offered } => {
            merge_values(messages, offered);
            let data = MessageOut::Gossip { messages: copy_values(messages) };
            let reply = client.reply(msg, data);
            let requests: Vec<Message<MessageIn>> = Vec::new();
            assert(request_views(requests@) =~= Seq::empty());
            Ok(Outbox { requests, reply: Some(reply) })
        },
    }
}

/// Handles one answer at time `now`: [`on_reply`] says what becomes of the
/// node's client, values and topology. Says whether the answer was taken
/// ([`accepts`]): the values of an answer that was not taken are not merged.
pub fn process_out_msg(
    msg: Message<MessageOut>,
    client: &mut Client,
    messages: &mut HashSet<u64>,
    topology: &mut Topology,
    now: u64,
) -> (taken: bool)
    ensures
        ({
            let before = NodeView {
                client: old(client)@,
                values: old(messages)@,
                topology: old(topology)@,
            };
            let after = on_reply(before, reply_view(msg), now);
            &&& taken == accepts(before, reply_view(msg))
            &&& final(client)@ == after.client
            &&& final(messages)@ == after.values
            &&& final(topology)@ == after.topology
        }),
        final(client)@.wf(),
{
    let _ = client.is_init();
    let id = match msg.in_reply_to() {
        Some(id) => id,
        None => {
            return false;
        },
    };
    if !client.awaits(id) {
        return false;
    }
    match msg.data() {
        MessageOut::Read { messages: held } => {
            client.settle(id);
            topology.touch(msg.src().as_str(), now);
            merge_values(messages, held);
            true
        },
        MessageOut::Gossip { messages: held } => {
            client.settle(id);
            merge_values(messages, held);
            true
        },
        _ => false,
    }
}

/// The repair activity's turn at time `now`: a read request to every
/// neighbour that has gone quiet, each awaiting its answer. Without a
/// topology the turn is skipped.
pub fn repair_tick(client: &mut Client, topology: &Topology, now: u64) -> (probes: Vec<
    Message<MessageIn>,
>)
    requires
        old(client)@.is_init(),
    ensures
        request_views(probes@) == repair_probes(old(client)@, topology@, now),
        final(client)@ == old(client)@.after_requests(probes@.len()),
        final(client)@.wf(),
{
    let _ = client.is_init();
    let quiet = topology.stale(now);
    let probes = post_all(client, &quiet, &MessageIn::Read {  }, true);
    proof {
        assert(request_views(probes@).len() == quiet@.len());
        if topology@ is None {
            assert(request_views(probes@) =~= Seq::empty());
        }
    }
    probes
}

/// The gossip activity's turn: the node offers all its values to each of
/// `targets`, and awaits an answer from each.
pub fn gossip_tick(client: &mut Client, messages: &HashSet<u64>, targets: &Vec<String>) -> (offers:
    Vec<Message<MessageIn>>)
    requires
        old(client)@.is_init(),
    ensures
        request_views(offers@) == gossip_offers(old(client)@, messages@, names_of(targets@)),
        final(client)@ == old(client)@.after_requests(targets@.len()),
        final(client)@.wf(),
{
    let payload = MessageIn::Gossip { messages: copy_values(messages) };
    post_all(client, targets, &payload, true)
}

} // verus!
