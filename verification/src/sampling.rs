//! Which peers a node offers its values to in one turn of gossip.

use crate::client::Client;
use crate::node_set::{names_of, with_names, without_names, NodeSet};
use vstd::prelude::*;

verus! {

/// The gossip activity takes a turn once in this many milliseconds.
pub const GOSSIP_PERIOD_MS: u64 = 200;

/// A turn of gossip reaches at least this many peers, if there are as many.
pub const GOSSIP_MIN_FANOUT: usize = 2;

/// A turn of gossip reaches one peer in this many.
pub const GOSSIP_SHARE: usize = 4;

/// How many of `peers` peers one turn of gossip reaches: one in
/// [`GOSSIP_SHARE`], at least [`GOSSIP_MIN_FANOUT`], and never more than there
/// are.
pub open spec fn fanout(peers: nat) -> nat {
    let share = peers / (GOSSIP_SHARE as nat);
    let wanted = if share < GOSSIP_MIN_FANOUT {
        GOSSIP_MIN_FANOUT as nat
    } else {
        share
    };
    if wanted < peers {
        wanted
    } else {
        peers
    }
}

/// Computes [`fanout`].
pub fn gossip_fanout(peers: usize) -> (count: usize)
    ensures
        count == fanout(peers as nat),
{
    let share = peers / GOSSIP_SHARE;
    let wanted = if share < GOSSIP_MIN_FANOUT {
        GOSSIP_MIN_FANOUT
    } else {
        share
    };
    if wanted < peers {
        wanted
    } else {
        peers
    }
}

/// The number drawn at `turn`: the numbers of `entropy` in order, and zero
/// once they are used up.
pub open spec fn draw(entropy: Seq<u64>, turn: int) -> u64 {
    if 0 <= turn < entropy.len() {
        entropy[turn]
    } else {
        0
    }
}

/// `count` names drawn from `pool` without putting any back, the draw at each
/// turn decided by the number that `entropy` holds for the turn: the name at
/// that number's remainder by the size of what is left of the pool.
pub open spec fn sample(pool: Seq<Seq<char>>, entropy: Seq<u64>, turn: int, count: nat) -> Seq<
    Seq<char>,
>
    decreases count,
{
    if count == 0 || pool.len() == 0 {
        Seq::empty()
    } else {
        let at = draw(entropy, turn) as int % pool.len() as int;
        seq![pool[at]] + sample(pool.remove(at), entropy, turn + 1, (count - 1) as nat)
    }
}

/// A sample holds as many names as were asked for, or all of the pool if that
/// is fewer; each is a name of the pool; and none occurs twice if none does in
/// the pool.
pub proof fn lemma_sample(pool: Seq<Seq<char>>, entropy: Seq<u64>, turn: int, count: nat)
    ensures
        sample(pool, entropy, turn, count).len() == if count < pool.len() {
            count
        } else {
            pool.len()
        },
        forall|name: Seq<char>|
            sample(pool, entropy, turn, count).contains(name) ==> pool.contains(name),
        pool.no_duplicates() ==> sample(pool, entropy, turn, count).no_duplicates(),
    decreases count,
{
    if count == 0 || pool.len() == 0 {
    } else {
        let at = draw(entropy, turn) as int % pool.len() as int;
        let rest = pool.remove(at);
        let tail = sample(rest, entropy, turn + 1, (count - 1) as nat);
        let all = sample(pool, entropy, turn, count);
        lemma_sample(rest, entropy, turn + 1, (count - 1) as nat);
        assert forall|name: Seq<char>| rest.contains(name) implies pool.contains(name) by {
            let j = choose|j: int| 0 <= j < rest.len() && rest[j] == name;
            if j < at {
                assert(pool[j] == name);
            } else {
                assert(pool[j + 1] == name);
            }
        }
        assert forall|name: Seq<char>| all.contains(name) implies pool.contains(name) by {
            let j = choose|j: int| 0 <= j < all.len() && all[j] == name;
            if j == 0 {
                assert(pool[at] == name);
            } else {
                assert(tail[j - 1] == name);
                assert(tail.contains(name));
            }
        }
        if pool.no_duplicates() {
            assert(rest.no_duplicates());
            assert(!rest.contains(pool[at])) by {
                if rest.contains(pool[at]) {
                    let j = choose|j: int| 0 <= j < rest.len() && rest[j] == pool[at];
                    if j < at {
                        assert(pool[j] == pool[at]);
                    } else {
                        assert(pool[j + 1] == pool[at]);
                    }
                }
            }
            assert forall|i: int, j: int| 0 <= i < all.len() && 0 <= j < all.len() && i != j implies all[i]
                != all[j] by {
                if i > 0 {
                    assert(tail[i - 1] == all[i]);
                    assert(tail.contains(all[i]));
                }
                if j > 0 {
                    assert(tail[j - 1] == all[j]);
                    assert(tail.contains(all[j]));
                }
            }
        }
    }
}

/// The peers of a node: the nodes of the cluster but the node itself, each
/// once, in the order in which the cluster was listed.
pub open spec fn peers_of(node_id: Seq<char>, node_ids: Seq<Seq<char>>) -> Seq<Seq<char>> {
    without_names(with_names(Seq::empty(), node_ids), set![node_id])
}

/// A node is no peer of itself; every peer is a node of the cluster; and no
/// peer is listed twice.
pub proof fn lemma_peers(node_id: Seq<char>, node_ids: Seq<Seq<char>>)
    ensures
        !peers_of(node_id, node_ids).contains(node_id),
        forall|name: Seq<char>|
            peers_of(node_id, node_ids).contains(name) ==> node_ids.contains(name),
        peers_of(node_id, node_ids).no_duplicates(),
{
    let listed = with_names(Seq::empty(), node_ids);
    crate::node_set::lemma_with_names(Seq::empty(), node_ids);
    crate::node_set::lemma_without_names(listed, set![node_id]);
    let peers = peers_of(node_id, node_ids);
    assert(!peers.contains(node_id)) by {
        if peers.contains(node_id) {
            assert(peers.to_set().contains(node_id));
        }
    }
    assert forall|name: Seq<char>| peers.contains(name) implies node_ids.contains(name) by {
        assert(peers.to_set().contains(name));
        assert(listed.to_set().contains(name));
        assert(Seq::<Seq<char>>::empty().to_set() =~= Set::empty());
        assert(node_ids.to_set().contains(name));
    }
}

/// The peers that one turn of gossip reaches: a sample ([`sample`]) of the
/// node's peers ([`peers_of`]), as many as [`fanout`] says. The numbers in
/// `entropy` decide which; they are the caller's to choose at random.
pub fn gossip_targets(client: &Client, entropy: &Vec<u64>) -> (targets: Vec<String>)
    requires
        client@.is_init(),
    ensures
        ({
            let peers = peers_of(client@.node_id(), names_of(client@.state->node_ids@));
            names_of(targets@) == sample(peers, entropy@, 0, fanout(peers.len()))
        }),
{
    let all = NodeSet::from_names(client.node_ids());
    let mut own = NodeSet::new();
    own.insert(client.node_id().to_owned());
    proof {
        crate::node_set::lemma_with_name(Seq::empty(), client@.node_id());
        assert(Seq::<Seq<char>>::empty().to_set() =~= Set::empty());
        assert(own@ =~= set![client@.node_id()]);
    }
    let mut pool = all.difference(&own).to_vec();
    let ghost peers = names_of(pool@);
    let count = gossip_fanout(pool.len());
    let mut targets: Vec<String> = Vec::new();
    let mut turn: usize = 0;
    assert(names_of(targets@) =~= Seq::empty());
    while turn < count
        invariant
            turn <= count,
            count <= peers.len(),
            pool@.len() == peers.len() - turn,
            names_of(targets@) + sample(
                names_of(pool@),
                entropy@,
                turn as int,
                (count - turn) as nat,
            ) == sample(peers, entropy@, 0, count as nat),
        decreases count - turn,
    {
        let number: u64 = if turn < entropy.len() {
            entropy[turn]
        } else {
            0
        };
        let at = (number % (pool.len() as u64)) as usize;
        let ghost left = names_of(pool@);
        let ghost chosen = names_of(targets@);
        let name = pool.remove(at);
        targets.push(name);
        proof {
            assert(names_of(pool@) =~= left.remove(at as int));
            assert(names_of(targets@) =~= chosen.push(left[at as int]));
            assert(chosen.push(left[at as int]) + sample(
                left.remove(at as int),
                entropy@,
                turn + 1,
                (count - turn - 1) as nat,
            ) =~= chosen + sample(left, entropy@, turn as int, (count - turn) as nat));
        }
        turn += 1;
    }
    assert(names_of(targets@) + Seq::<Seq<char>>::empty() =~= names_of(targets@));
    targets
}

} // verus!
