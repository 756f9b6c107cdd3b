//! Why gossip makes the nodes of a cluster agree: every message that brings
//! a node a value which it lacked brings the cluster closer to the state in
//! which each node holds every value, and that state is reached after
//! finitely many of them.
//!
//! A cluster is given here by the values that each of its nodes holds. What a
//! message does to the node that takes it is a merge ([`received`]) of the
//! values that the message carries, and a node sends only values that it
//! holds (see the engine).

use crate::engine::{
    gossip_offers, lemma_awaited_ids_are_sent, on_reply, on_request, repair_probes, requests_to,
    NodeView,
};
use crate::payload::RequestView;
use vstd::prelude::*;
use vstd::set_lib::{lemma_len_subset, lemma_subset_equality};

verus! {

/// Every value that some node of the cluster holds.
pub open spec fn everything(cluster: Seq<Set<u64>>) -> Set<u64> {
    Set::new(|v: u64| exists|i: int| 0 <= i < cluster.len() && (#[trigger] cluster[i]).contains(v))
}

/// Whether every node holds every value.
pub open spec fn converged(cluster: Seq<Set<u64>>) -> bool {
    forall|i: int| 0 <= i < cluster.len() ==> #[trigger] cluster[i] == everything(cluster)
}

/// The cluster after node `to` has merged `values` into what it holds: a
/// value stored by a client, a value passed on by a rebroadcast, or the
/// values of gossip or of an answer.
pub open spec fn received(cluster: Seq<Set<u64>>, to: int, values: Set<u64>) -> Seq<Set<u64>> {
    cluster.update(to, cluster[to].union(values))
}

/// The cluster after all the values of node `from` have reached node `to`:
/// by gossip, by the answer to gossip, or by the answer to a read.
pub open spec fn pushed(cluster: Seq<Set<u64>>, from: int, to: int) -> Seq<Set<u64>> {
    received(cluster, to, cluster[from])
}

/// The cluster after nodes `a` and `b` have completed one exchange of gossip:
/// both hold what either held.
pub open spec fn exchanged(cluster: Seq<Set<u64>>, a: int, b: int) -> Seq<Set<u64>> {
    pushed(pushed(cluster, a, b), b, a)
}

/// How many values the first `upto` nodes lack of `all`, added up.
pub open spec fn missing(cluster: Seq<Set<u64>>, all: Set<u64>, upto: int) -> nat
    decreases upto,
{
    if upto <= 0 {
        0
    } else {
        missing(cluster, all, upto - 1) + all.difference(cluster[upto - 1]).len()
    }
}

/// How far the cluster is from agreement: the values that its nodes lack,
/// added up.
pub open spec fn distance(cluster: Seq<Set<u64>>) -> nat {
    missing(cluster, everything(cluster), cluster.len() as int)
}

/// Whether each node holds finitely many values.
pub open spec fn finite(cluster: Seq<Set<u64>>) -> bool {
    forall|i: int| 0 <= i < cluster.len() ==> (#[trigger] cluster[i]).finite()
}

/// One exchange of gossip brings both nodes to the union of what they held.
/// Node `a` offers its values to the peer named `peer`; `b`, which is that
/// peer, takes the offer at `arrival` and answers; `a` takes the answer at
/// `back`. The exchange needs an id for the offer: once a node has used up its
/// ids it still takes offers, and makes none that can be answered.
pub proof fn lemma_gossip_round_trip(
    a: NodeView,
    b: NodeView,
    peer: Seq<char>,
    arrival: u64,
    back: u64,
)
    requires
        a.client.fresh_id() is Some,
    ensures
        ({
            let offer = gossip_offers(a.client, a.values, seq![peer])[0];
            let asked = NodeView { client: a.client.after_requests(1), ..a };
            let (b_after, sent) = on_request(b, offer, arrival);
            let a_after = on_reply(asked, sent->Ok_0.reply->0, back);
            &&& sent is Ok
            &&& sent->Ok_0.reply is Some
            &&& sent->Ok_0.requests.len() == 0
            &&& b_after.values == a.values.union(b.values)
            &&& a_after.values == a.values.union(b.values)
        }),
{
    let offer = gossip_offers(a.client, a.values, seq![peer])[0];
    let asked = NodeView { client: a.client.after_requests(1), ..a };
    let (b_after, sent) = on_request(b, offer, arrival);
    let a_after = on_reply(asked, sent->Ok_0.reply->0, back);
    assert(a.client.after_allocs(0) == a.client);
    assert(a.client.after_requests(0) == a.client);
    assert(a.client.after_requests(1) == a.client.after_request());
    assert(offer.msg_id == a.client.fresh_id());
    assert(asked.client.awaiting.contains(a.client.fresh_id()->0));
    assert(b_after.values =~= a.values.union(b.values));
    assert(a_after.values =~= a.values.union(b.values));
}

/// One probe of a quiet neighbour repairs the node that sent it. At time
/// `now` node `a` probes the neighbours that have gone quiet; `b`, which is
/// the one probed at `turn`, takes the read at `arrival` and answers with its
/// values; `a` takes the answer at `back`: it then holds what either held,
/// and has heard of that neighbour at `back`. The probe needs an id: once a
/// node has used up its ids it makes no probe that can be answered.
pub proof fn lemma_repair_round_trip(
    a: NodeView,
    b: NodeView,
    now: u64,
    turn: int,
    arrival: u64,
    back: u64,
)
    requires
        a.topology is Some,
        0 <= turn < a.topology->0.stale(now).len(),
        a.client.after_allocs(turn as nat).fresh_id() is Some,
    ensures
        ({
            let health = a.topology->0;
            let quiet = health.stale(now);
            let probe = repair_probes(a.client, a.topology, now)[turn];
            let asked = NodeView { client: a.client.after_requests(quiet.len()), ..a };
            let (b_after, sent) = on_request(b, probe, arrival);
            let a_after = on_reply(asked, sent->Ok_0.reply->0, back);
            &&& probe.dst == quiet[turn]
            &&& health.neighbors.contains(quiet[turn])
            &&& sent is Ok
            &&& sent->Ok_0.reply is Some
            &&& sent->Ok_0.requests.len() == 0
            &&& b_after.values == b.values
            &&& a_after.values == a.values.union(b.values)
            &&& a_after.topology == Some(health.touched(quiet[turn], back))
        }),
{
    let health = a.topology->0;
    let quiet = health.stale(now);
    let probe = repair_probes(a.client, a.topology, now)[turn];
    let asked = NodeView { client: a.client.after_requests(quiet.len()), ..a };
    let (b_after, sent) = on_request(b, probe, arrival);
    let a_after = on_reply(asked, sent->Ok_0.reply->0, back);
    assert(quiet.contains(quiet[turn]));
    crate::topology::lemma_stale_are_neighbors(
        health,
        health.neighbors.len() as int,
        now,
        quiet[turn],
    );
    let id = probe.msg_id->0;
    assert(requests_to(a.client, quiet, RequestView::Read)[turn].msg_id == Some(id));
    lemma_awaited_ids_are_sent(a.client, quiet, RequestView::Read, id);
    assert(asked.client.awaiting.contains(id));
    assert(a_after.values =~= a.values.union(b.values));
}

/// What a node merges is added to the values of the cluster, and nothing
/// else changes: no value is lost.
pub proof fn lemma_receive_everything(cluster: Seq<Set<u64>>, to: int, values: Set<u64>)
    requires
        0 <= to < cluster.len(),
    ensures
        everything(received(cluster, to, values)) == everything(cluster).union(values),
        finite(cluster) && values.finite() ==> finite(received(cluster, to, values)),
{
    let after = received(cluster, to, values);
    assert forall|v: u64|
        everything(after).contains(v) <==> everything(cluster).union(values).contains(v) by {
        if everything(after).contains(v) {
            let i = choose|i: int| 0 <= i < after.len() && (#[trigger] after[i]).contains(v);
            if i != to {
                assert(cluster[i].contains(v));
            }
        }
        if everything(cluster).contains(v) {
            let i = choose|i: int| 0 <= i < cluster.len() && (#[trigger] cluster[i]).contains(v);
            assert(after[i].contains(v));
        }
        if values.contains(v) {
            assert(after[to].contains(v));
        }
    }
    assert(everything(after) =~= everything(cluster).union(values));
}

/// Values that pass from node to node leave the values of the cluster as
/// they are: none is lost and none appears from nowhere.
pub proof fn lemma_push_keeps_everything(cluster: Seq<Set<u64>>, from: int, to: int)
    requires
        0 <= from < cluster.len(),
        0 <= to < cluster.len(),
    ensures
        everything(pushed(cluster, from, to)) == everything(cluster),
        finite(cluster) ==> finite(pushed(cluster, from, to)),
{
    lemma_receive_everything(cluster, to, cluster[from]);
    assert(cluster[from].subset_of(everything(cluster)));
    assert(everything(cluster).union(cluster[from]) =~= everything(cluster));
}

/// All the values of a cluster of finitely many values each are finitely
/// many.
pub proof fn lemma_everything_finite(cluster: Seq<Set<u64>>)
    requires
        finite(cluster),
    ensures
        everything(cluster).finite(),
    decreases cluster.len(),
{
    if cluster.len() == 0 {
        assert(everything(cluster) =~= Set::empty());
    } else {
        let front = cluster.drop_last();
        lemma_everything_finite(front);
        assert forall|v: u64|
            everything(cluster).contains(v) <==> everything(front).union(cluster.last()).contains(
                v,
            ) by {
            if everything(cluster).contains(v) {
                let i = choose|i: int| 0 <= i < cluster.len() && (#[trigger] cluster[i]).contains(v);
                if i < front.len() {
                    assert(front[i].contains(v));
                }
            }
            if everything(front).contains(v) {
                let i = choose|i: int| 0 <= i < front.len() && (#[trigger] front[i]).contains(v);
                assert(cluster[i].contains(v));
            }
            if cluster.last().contains(v) {
                assert(cluster[cluster.len() - 1].contains(v));
            }
        }
        assert(everything(cluster) =~= everything(front).union(cluster.last()));
    }
}

/// Where each node lacks at most what it lacked before, the nodes together
/// lack at most what they lacked; and less, where one node lacks less.
proof fn lemma_missing_compare(
    before: Seq<Set<u64>>,
    after: Seq<Set<u64>>,
    all: Set<u64>,
    upto: int,
)
    requires
        before.len() == after.len(),
        0 <= upto <= before.len(),
        forall|i: int|
            0 <= i < upto ==> all.difference(#[trigger] after[i]).len() <= all.difference(
                before[i],
            ).len(),
    ensures
        missing(after, all, upto) <= missing(before, all, upto),
        (exists|k: int|
            0 <= k < upto && all.difference(#[trigger] after[k]).len() < all.difference(
                before[k],
            ).len()) ==> missing(after, all, upto) < missing(before, all, upto),
    decreases upto,
{
    if upto > 0 {
        lemma_missing_compare(before, after, all, upto - 1);
        if exists|k: int|
            0 <= k < upto && all.difference(#[trigger] after[k]).len() < all.difference(
                before[k],
            ).len() {
            let k = choose|k: int|
                0 <= k < upto && all.difference(#[trigger] after[k]).len() < all.difference(
                    before[k],
                ).len();
            if k < upto - 1 {
                assert(all.difference(after[k]).len() < all.difference(before[k]).len());
            }
        }
    }
}

/// A node that merges values which the cluster holds never takes the
/// cluster further from agreement, and brings it closer whenever it lacked
/// one of them.
pub proof fn lemma_receive_progress(cluster: Seq<Set<u64>>, to: int, values: Set<u64>)
    requires
        finite(cluster),
        0 <= to < cluster.len(),
        values.subset_of(everything(cluster)),
    ensures
        everything(received(cluster, to, values)) == everything(cluster),
        finite(received(cluster, to, values)),
        distance(received(cluster, to, values)) <= distance(cluster),
        !values.subset_of(cluster[to]) ==> distance(received(cluster, to, values)) < distance(
            cluster,
        ),
{
    let after = received(cluster, to, values);
    let all = everything(cluster);
    lemma_everything_finite(cluster);
    lemma_len_subset(values, all);
    lemma_receive_everything(cluster, to, values);
    assert(all.union(values) =~= all);
    assert forall|i: int| 0 <= i < cluster.len() implies all.difference(#[trigger] after[i]).len()
        <= all.difference(cluster[i]).len() by {
        assert(all.difference(after[i]).subset_of(all.difference(cluster[i])));
        lemma_len_subset(all.difference(after[i]), all.difference(cluster[i]));
    }
    lemma_missing_compare(cluster, after, all, cluster.len() as int);
    if !values.subset_of(cluster[to]) {
        let v = choose|v: u64| values.contains(v) && !cluster[to].contains(v);
        let lacked = all.difference(cluster[to]);
        let lacks = all.difference(after[to]);
        assert(lacks.subset_of(lacked));
        lemma_len_subset(lacks, lacked);
        assert(lacked.contains(v));
        assert(!lacks.contains(v));
        if lacks.len() == lacked.len() {
            lemma_subset_equality(lacks, lacked);
        }
        assert(all.difference(after[to]).len() < all.difference(cluster[to]).len());
    }
}

/// Values that pass from one node to another never take the cluster further
/// from agreement, and bring it closer whenever the receiver lacked one of
/// them.
pub proof fn lemma_push_progress(cluster: Seq<Set<u64>>, from: int, to: int)
    requires
        finite(cluster),
        0 <= from < cluster.len(),
        0 <= to < cluster.len(),
    ensures
        distance(pushed(cluster, from, to)) <= distance(cluster),
        !cluster[from].subset_of(cluster[to]) ==> distance(pushed(cluster, from, to)) < distance(
            cluster,
        ),
{
    assert(cluster[from].subset_of(everything(cluster)));
    lemma_receive_progress(cluster, to, cluster[from]);
}

/// An exchange of gossip never takes the cluster further from agreement, and
/// brings it closer whenever the two nodes held different values.
pub proof fn lemma_exchange_progress(cluster: Seq<Set<u64>>, a: int, b: int)
    requires
        finite(cluster),
        0 <= a < cluster.len(),
        0 <= b < cluster.len(),
    ensures
        everything(exchanged(cluster, a, b)) == everything(cluster),
        finite(exchanged(cluster, a, b)),
        distance(exchanged(cluster, a, b)) <= distance(cluster),
        cluster[a] != cluster[b] ==> distance(exchanged(cluster, a, b)) < distance(cluster),
{
    let half = pushed(cluster, a, b);
    lemma_push_keeps_everything(cluster, a, b);
    lemma_push_progress(cluster, a, b);
    lemma_push_keeps_everything(half, b, a);
    lemma_push_progress(half, b, a);
    if cluster[a] != cluster[b] {
        if cluster[a].subset_of(cluster[b]) {
            assert(!cluster[b].subset_of(cluster[a])) by {
                if cluster[b].subset_of(cluster[a]) {
                    assert(cluster[a] =~= cluster[b]);
                }
            }
            if a != b {
                let v = choose|v: u64| cluster[b].contains(v) && !cluster[a].contains(v);
                assert(half[b].contains(v) && !half[a].contains(v));
            }
        }
    }
}

/// The cluster is at distance zero exactly when its nodes agree.
pub proof fn lemma_distance_zero(cluster: Seq<Set<u64>>)
    requires
        finite(cluster),
    ensures
        distance(cluster) == 0 <==> converged(cluster),
{
    let all = everything(cluster);
    lemma_everything_finite(cluster);
    lemma_missing_zero(cluster, all, cluster.len() as int);
    if distance(cluster) == 0 {
        assert forall|i: int| 0 <= i < cluster.len() implies #[trigger] cluster[i] == all by {
            assert(all.difference(cluster[i]).len() == 0);
            assert(all.difference(cluster[i]) =~= Set::empty());
            assert forall|v: u64| all.contains(v) implies cluster[i].contains(v) by {
                assert(!all.difference(cluster[i]).contains(v));
            }
            assert(cluster[i].subset_of(all));
            assert(cluster[i] =~= all);
        }
    }
    if converged(cluster) {
        assert forall|i: int| 0 <= i < cluster.len() implies all.difference(#[trigger] cluster[i]).len()
            == 0 by {
            assert(all.difference(cluster[i]) =~= Set::empty());
        }
    }
}

/// The nodes together lack nothing exactly if none of them lacks anything.
proof fn lemma_missing_zero(cluster: Seq<Set<u64>>, all: Set<u64>, upto: int)
    requires
        0 <= upto <= cluster.len(),
    ensures
        missing(cluster, all, upto) == 0 <==> forall|i: int|
            0 <= i < upto ==> all.difference(#[trigger] cluster[i]).len() == 0,
    decreases upto,
{
    if upto > 0 {
        lemma_missing_zero(cluster, all, upto - 1);
        if missing(cluster, all, upto) == 0 {
            assert forall|i: int| 0 <= i < upto implies all.difference(#[trigger] cluster[i]).len()
                == 0 by {
                if i < upto - 1 {
                }
            }
        }
    }
}

/// While the nodes do not agree, gossip can still bring them closer: there
/// are two nodes of which one holds a value that the other lacks.
pub proof fn lemma_progress_possible(cluster: Seq<Set<u64>>)
    requires
        !converged(cluster),
    ensures
        exists|from: int, to: int|
            0 <= from < cluster.len() && 0 <= to < cluster.len() && !(#[trigger] cluster[from]).subset_of(
                #[trigger] cluster[to],
            ),
{
    let to = choose|i: int| 0 <= i < cluster.len() && #[trigger] cluster[i] != everything(cluster);
    assert(cluster[to].subset_of(everything(cluster)));
    assert(!everything(cluster).subset_of(cluster[to])) by {
        if everything(cluster).subset_of(cluster[to]) {
            assert(cluster[to] =~= everything(cluster));
        }
    }
    let v = choose|v: u64| everything(cluster).contains(v) && !cluster[to].contains(v);
    let from = choose|i: int| 0 <= i < cluster.len() && (#[trigger] cluster[i]).contains(v);
    assert(!cluster[from].subset_of(cluster[to]));
}

/// Whether each step of `schedule`, from one node to another, is between two
/// nodes of a cluster of `size` nodes.
pub open spec fn within(schedule: Seq<(int, int)>, size: nat) -> bool {
    forall|k: int|
        0 <= k < schedule.len() ==> 0 <= (#[trigger] schedule[k]).0 < size && 0 <= schedule[k].1
            < size
}

/// The cluster after the steps of `schedule`, in order: at each step the
/// values of the first node reach the second. An exchange of gossip is two
/// steps, there and back; an exchange whose answer is lost is one.
pub open spec fn run(cluster: Seq<Set<u64>>, schedule: Seq<(int, int)>) -> Seq<Set<u64>>
    decreases schedule.len(),
{
    if schedule.len() == 0 {
        cluster
    } else {
        pushed(run(cluster, schedule.drop_last()), schedule.last().0, schedule.last().1)
    }
}

/// How many steps of `schedule` bring the receiver a value that it lacked
/// when the step was made.
pub open spec fn productive(cluster: Seq<Set<u64>>, schedule: Seq<(int, int)>) -> nat
    decreases schedule.len(),
{
    if schedule.len() == 0 {
        0
    } else {
        let before = run(cluster, schedule.drop_last());
        let useful: nat = if !before[schedule.last().0].subset_of(before[schedule.last().1]) {
            1
        } else {
            0
        };
        productive(cluster, schedule.drop_last()) + useful
    }
}

/// Gossip converges: whatever steps are made and in whatever order, and
/// whatever is lost on the way, no value that a node holds is lost, and each
/// step that brings a node a value that it lacked brings the cluster one step
/// closer to agreement at least. So a cluster at distance `d` from agreement
/// sees at most `d` such steps; and as long as its nodes do not agree, such a
/// step is there to be made ([`lemma_progress_possible`]).
pub proof fn lemma_gossip_converges(cluster: Seq<Set<u64>>, schedule: Seq<(int, int)>)
    requires
        finite(cluster),
        within(schedule, cluster.len()),
    ensures
        run(cluster, schedule).len() == cluster.len(),
        finite(run(cluster, schedule)),
        everything(run(cluster, schedule)) == everything(cluster),
        distance(run(cluster, schedule)) + productive(cluster, schedule) <= distance(cluster),
        forall|i: int|
            0 <= i < cluster.len() ==> (#[trigger] cluster[i]).subset_of(
                run(cluster, schedule)[i],
            ),
    decreases schedule.len(),
{
    if schedule.len() > 0 {
        let earlier = schedule.drop_last();
        assert forall|k: int| 0 <= k < earlier.len() implies 0 <= (#[trigger] earlier[k]).0
            < cluster.len() && 0 <= earlier[k].1 < cluster.len() by {
            assert(earlier[k] == schedule[k]);
        }
        lemma_gossip_converges(cluster, earlier);
        let before = run(cluster, earlier);
        let last = schedule[schedule.len() - 1];
        lemma_push_keeps_everything(before, last.0, last.1);
        lemma_push_progress(before, last.0, last.1);
    }
}

/// A step made first is a step made from the cluster as it stands.
proof fn lemma_run_first(cluster: Seq<Set<u64>>, first: (int, int), rest: Seq<(int, int)>)
    ensures
        run(cluster, seq![first] + rest) == run(pushed(cluster, first.0, first.1), rest),
    decreases rest.len(),
{
    let all = seq![first] + rest;
    if rest.len() == 0 {
        assert(all.drop_last() =~= Seq::empty());
        assert(run(cluster, all.drop_last()) == cluster);
    } else {
        assert(all.drop_last() =~= seq![first] + rest.drop_last());
        assert(all.last() == rest.last());
        lemma_run_first(cluster, first, rest.drop_last());
    }
}

/// Agreement can be reached: from wherever a cluster stands there is a
/// schedule, of no more steps than the cluster's distance from agreement,
/// after which every node holds every value. The schedule that is returned is
/// one such.
pub proof fn lemma_agreement_reachable(cluster: Seq<Set<u64>>) -> (schedule: Seq<(int, int)>)
    requires
        finite(cluster),
    ensures
        within(schedule, cluster.len()),
        schedule.len() <= distance(cluster),
        converged(run(cluster, schedule)),
    decreases distance(cluster),
{
    if converged(cluster) {
        Seq::empty()
    } else {
        lemma_progress_possible(cluster);
        let (from, to) = choose|from: int, to: int|
            0 <= from < cluster.len() && 0 <= to < cluster.len() && !(#[trigger] cluster[from]).subset_of(
                #[trigger] cluster[to],
            );
        let next = pushed(cluster, from, to);
        lemma_push_keeps_everything(cluster, from, to);
        lemma_push_progress(cluster, from, to);
        let rest = lemma_agreement_reachable(next);
        lemma_run_first(cluster, (from, to), rest);
        let schedule = seq![(from, to)] + rest;
        assert forall|k: int| 0 <= k < schedule.len() implies 0 <= (#[trigger] schedule[k]).0
            < cluster.len() && 0 <= schedule[k].1 < cluster.len() by {
            if k > 0 {
                assert(schedule[k] == rest[k - 1]);
            }
        }
        schedule
    }
}

} // verus!
