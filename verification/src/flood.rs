//! How far a flood wave can travel: the wave of rebroadcasts that one stored
//! value sets off across the graph of neighbours.

use crate::engine::{flood, forward_targets, forward_visited, NodeView};
use crate::payload::RequestView;
use crate::node_set::without_names;
use vstd::prelude::*;

verus! {

/// One stop of a wave: the node that a rebroadcast reached, and the nodes
/// visited that the rebroadcast named. The wave's first stop is the node where
/// the value was stored, with no node visited.
pub ghost struct Hop {
    pub node: Seq<char>,
    pub visited: Set<Seq<char>>,
}

/// The neighbours that `graph` gives `node`: none where it does not list the
/// node.
pub open spec fn neighbors_of(graph: Map<Seq<char>, Seq<Seq<char>>>, node: Seq<char>) -> Seq<
    Seq<char>,
> {
    if graph.dom().contains(node) {
        graph[node]
    } else {
        Seq::empty()
    }
}

/// Whether the node at stop `from` passes the wave on to stop `to`: the node
/// of `to` is a neighbour that the wave had not visited, and `to` names the
/// nodes visited as `from` has extended them.
pub open spec fn passes_on(graph: Map<Seq<char>, Seq<Seq<char>>>, from: Hop, to: Hop) -> bool {
    &&& forward_targets(neighbors_of(graph, from.node), from.visited).contains(to.node)
    &&& to.visited == forward_visited(neighbors_of(graph, from.node), from.visited, from.node)
}

/// Whether `hops` is a way that a wave can take through `graph`, each stop
/// passing the wave on to the next.
pub open spec fn is_path(graph: Map<Seq<char>, Seq<Seq<char>>>, hops: Seq<Hop>) -> bool {
    forall|i: int| 0 <= i < hops.len() - 1 ==> passes_on(graph, #[trigger] hops[i], hops[i + 1])
}

/// A name is kept exactly if it is in the sequence and is not left out.
pub proof fn lemma_forward_targets(
    neighbors: Seq<Seq<char>>,
    visited: Set<Seq<char>>,
    name: Seq<char>,
)
    ensures
        forward_targets(neighbors, visited).contains(name) <==> neighbors.contains(name)
            && !visited.contains(name),
        forward_targets(neighbors, visited).len() <= neighbors.len(),
    decreases neighbors.len(),
{
    if neighbors.len() > 0 {
        let front = neighbors.drop_last();
        let last = neighbors.last();
        lemma_forward_targets(front, visited, name);
        let kept = without_names(front, visited);
        let all = without_names(neighbors, visited);
        if all.contains(name) {
            let j = choose|j: int| 0 <= j < all.len() && all[j] == name;
            if j < kept.len() {
                assert(kept[j] == name);
                assert(kept.contains(name));
                let k = choose|k: int| 0 <= k < front.len() && front[k] == name;
                assert(neighbors[k] == name);
            } else {
                assert(neighbors[neighbors.len() - 1] == name);
            }
        }
        if neighbors.contains(name) && !visited.contains(name) {
            let j = choose|j: int| 0 <= j < neighbors.len() && neighbors[j] == name;
            if j < front.len() {
                assert(front[j] == name);
                assert(kept.contains(name));
                let k = choose|k: int| 0 <= k < kept.len() && kept[k] == name;
                assert(all[k] == name);
            } else {
                assert(all[all.len() - 1] == name);
            }
        }
    }
}

/// The wave is passed on only to nodes that it had not visited, and names
/// each of them as visited from then on, with the node that passed it on.
pub proof fn lemma_pass_grows(graph: Map<Seq<char>, Seq<Seq<char>>>, from: Hop, to: Hop)
    requires
        passes_on(graph, from, to),
    ensures
        !from.visited.contains(to.node),
        to.visited.contains(to.node),
        to.visited.contains(from.node),
        from.visited.subset_of(to.visited),
{
    lemma_forward_targets(neighbors_of(graph, from.node), from.visited, to.node);
}

/// Along a way of the wave the nodes visited only grow.
pub proof fn lemma_visited_grows(graph: Map<Seq<char>, Seq<Seq<char>>>, hops: Seq<Hop>, i: int, j: int)
    requires
        is_path(graph, hops),
        0 <= i <= j < hops.len(),
    ensures
        hops[i].visited.subset_of(hops[j].visited),
    decreases j - i,
{
    if i < j {
        lemma_visited_grows(graph, hops, i, j - 1);
        assert(passes_on(graph, hops[j - 1], hops[j]));
        lemma_pass_grows(graph, hops[j - 1], hops[j]);
    }
}

/// On one way of the wave no node is reached twice: the nodes of the stops
/// behind the first are different from each other, and none of them was
/// visited when the way began.
pub proof fn lemma_path_visits_once(
    graph: Map<Seq<char>, Seq<Seq<char>>>,
    hops: Seq<Hop>,
    i: int,
    j: int,
)
    requires
        is_path(graph, hops),
        1 <= i < j < hops.len(),
    ensures
        hops[i].node != hops[j].node,
        !hops[0].visited.contains(hops[i].node),
        !hops[0].visited.contains(hops[j].node),
{
    assert(passes_on(graph, hops[i - 1], hops[i]));
    lemma_pass_grows(graph, hops[i - 1], hops[i]);
    assert(passes_on(graph, hops[j - 1], hops[j]));
    lemma_pass_grows(graph, hops[j - 1], hops[j]);
    lemma_visited_grows(graph, hops, i, j - 1);
    lemma_visited_grows(graph, hops, 0, i - 1);
    lemma_visited_grows(graph, hops, 0, j - 1);
}

/// A wave ends: in a graph whose nodes all belong to the finite set `nodes`,
/// a way of the wave has at most one stop for each node that was not visited
/// when it began, and the stop it began with.
pub proof fn lemma_path_bounded(
    graph: Map<Seq<char>, Seq<Seq<char>>>,
    nodes: Set<Seq<char>>,
    hops: Seq<Hop>,
)
    requires
        nodes.finite(),
        forall|node: Seq<char>, k: int|
            graph.dom().contains(node) && 0 <= k < graph[node].len() ==> nodes.contains(
                #[trigger] graph[node][k],
            ),
        is_path(graph, hops),
        hops.len() >= 1,
    ensures
        hops.len() <= nodes.difference(hops[0].visited).len() + 1,
{
    let reached = Seq::new((hops.len() - 1) as nat, |i: int| hops[i + 1].node);
    assert forall|i: int, j: int| 0 <= i < reached.len() && 0 <= j < reached.len() && i != j implies reached[i]
        != reached[j] by {
        if i < j {
            lemma_path_visits_once(graph, hops, i + 1, j + 1);
        } else {
            lemma_path_visits_once(graph, hops, j + 1, i + 1);
        }
    }
    reached.unique_seq_to_set();
    let fresh = nodes.difference(hops[0].visited);
    assert forall|name: Seq<char>| reached.to_set().contains(name) implies fresh.contains(name) by {
        let i = choose|i: int| 0 <= i < reached.len() && reached[i] == name;
        assert(passes_on(graph, hops[i], hops[i + 1]));
        let from = hops[i];
        lemma_forward_targets(neighbors_of(graph, from.node), from.visited, name);
        let k = choose|k: int|
            0 <= k < neighbors_of(graph, from.node).len() && neighbors_of(graph, from.node)[k]
                == name;
        assert(nodes.contains(graph[from.node][k]));
        lemma_pass_grows(graph, hops[i], hops[i + 1]);
        lemma_visited_grows(graph, hops, 0, i);
    }
    vstd::set_lib::lemma_len_subset(reached.to_set(), fresh);
}

/// Every rebroadcast that a node sends when a value reaches it is a step of
/// the wave: the stop that it leads to is one that the node passes the wave
/// on to. `visited` is what the wave named at the node: nothing where the
/// value was stored by a client.
pub proof fn lemma_flood_follows_wave(
    graph: Map<Seq<char>, Seq<Seq<char>>>,
    node: NodeView,
    visited: Set<Seq<char>>,
    message: u64,
    turn: int,
)
    requires
        node.topology is Some,
        node.topology->0.neighbors == neighbors_of(graph, node.client.node_id()),
        0 <= turn < flood(node.client, node.topology->0.neighbors, visited, message).len(),
    ensures
        ({
            let sent = flood(node.client, node.topology->0.neighbors, visited, message)[turn];
            &&& sent.data matches RequestView::Rebroadcast { message: passed, visited: named }
            &&& passed == message
            &&& passes_on(
                graph,
                Hop { node: node.client.node_id(), visited },
                Hop { node: sent.dst, visited: named },
            )
        }),
{
    let targets = forward_targets(node.topology->0.neighbors, visited);
    assert(targets[turn] == targets[turn]);
    assert(targets.contains(targets[turn]));
}

/// The rebroadcasts that the first `upto` of `nodes` send in a wave that
/// reaches no node twice: `visits` gives, for each node that the wave
/// reaches, the nodes visited that the wave names there (none at the node
/// where the value was stored).
pub open spec fn sends_among(
    graph: Map<Seq<char>, Seq<Seq<char>>>,
    nodes: Seq<Seq<char>>,
    visits: Map<Seq<char>, Set<Seq<char>>>,
    upto: int,
) -> nat
    decreases upto,
{
    if upto <= 0 {
        0
    } else {
        let node = nodes[upto - 1];
        let sent = if visits.dom().contains(node) {
            forward_targets(neighbors_of(graph, node), visits[node]).len()
        } else {
            0
        };
        sends_among(graph, nodes, visits, upto - 1) + sent
    }
}

/// The edges that leave the first `upto` of `nodes`.
pub open spec fn edges_among(graph: Map<Seq<char>, Seq<Seq<char>>>, nodes: Seq<Seq<char>>, upto: int) -> nat
    decreases upto,
{
    if upto <= 0 {
        0
    } else {
        edges_among(graph, nodes, upto - 1) + neighbors_of(graph, nodes[upto - 1]).len()
    }
}

/// A wave that reaches no node twice sends at most as many rebroadcasts as
/// the graph has edges, counted once for each direction.
pub proof fn lemma_wave_sends_bounded(
    graph: Map<Seq<char>, Seq<Seq<char>>>,
    nodes: Seq<Seq<char>>,
    visits: Map<Seq<char>, Set<Seq<char>>>,
    upto: int,
)
    ensures
        sends_among(graph, nodes, visits, upto) <= edges_among(graph, nodes, upto),
    decreases upto,
{
    if upto > 0 {
        lemma_wave_sends_bounded(graph, nodes, visits, upto - 1);
        let node = nodes[upto - 1];
        if visits.dom().contains(node) {
            lemma_forward_targets(neighbors_of(graph, node), visits[node], node);
        }
    }
}

} // verus!
