//! The neighbours of a node, each with the time of the last answer that came
//! from it.

use crate::node_map::NodeMap;
use crate::node_set::NodeSet;
use vstd::prelude::*;

verus! {

/// After this many milliseconds without an answer a neighbour counts as quiet.
pub const STALE_AFTER_MS: u64 = 1000;

/// The repair activity takes a turn once in this many milliseconds.
pub const REPAIR_PERIOD_MS: u64 = 500;

/// The neighbours in the order in which the topology named them, and for each
/// the time, in milliseconds, of the last answer from it.
pub ghost struct Health {
    pub neighbors: Seq<Seq<char>>,
    pub seen: Seq<u64>,
}

/// Whether a neighbour last heard of at `seen` counts as quiet at `now`.
pub open spec fn is_stale(seen: u64, now: u64) -> bool {
    now - seen > STALE_AFTER_MS
}

impl Health {
    /// Every neighbour heard of at `now`.
    pub open spec fn seeded(neighbors: Seq<Seq<char>>, now: u64) -> Health {
        Health { neighbors, seen: Seq::new(neighbors.len(), |i: int| now) }
    }

    /// The same neighbours, with `node` heard of at `now` if it is one of
    /// them.
    pub open spec fn touched(self, node: Seq<char>, now: u64) -> Health {
        if self.neighbors.contains(node) {
            Health { seen: self.seen.update(self.neighbors.index_of(node), now), ..self }
        } else {
            self
        }
    }

    /// The first `upto` neighbours that count as quiet at `now`, in order.
    pub open spec fn stale_among(self, upto: int, now: u64) -> Seq<Seq<char>>
        decreases upto,
    {
        if upto <= 0 {
            Seq::empty()
        } else if is_stale(self.seen[upto - 1], now) {
            self.stale_among(upto - 1, now).push(self.neighbors[upto - 1])
        } else {
            self.stale_among(upto - 1, now)
        }
    }

    /// The neighbours that count as quiet at `now`, in order.
    pub open spec fn stale(self, now: u64) -> Seq<Seq<char>> {
        self.stale_among(self.neighbors.len() as int, now)
    }
}

/// Every neighbour that counts as quiet is a neighbour.
pub proof fn lemma_stale_are_neighbors(health: Health, upto: int, now: u64, name: Seq<char>)
    requires
        0 <= upto <= health.neighbors.len(),
        health.stale_among(upto, now).contains(name),
    ensures
        health.neighbors.contains(name),
    decreases upto,
{
    if upto > 0 {
        let fewer = health.stale_among(upto - 1, now);
        let all = health.stale_among(upto, now);
        let at = choose|at: int| 0 <= at < all.len() && all[at] == name;
        if is_stale(health.seen[upto - 1], now) && at == fewer.len() {
            assert(health.neighbors[upto - 1] == name);
        } else {
            assert(fewer[at] == name);
            lemma_stale_are_neighbors(health, upto - 1, now, name);
        }
    }
}

/// What a node knows of its neighbours: nothing until a topology arrives.
#[derive(Debug)]
pub struct Topology {
    health: Option<NodeMap<u64>>,
}

impl View for Topology {
    type V = Option<Health>;

    closed spec fn view(&self) -> Option<Health> {
        match self.health {
            Some(map) => Some(Health { neighbors: map.order(), seen: map.values() }),
            None => None,
        }
    }
}

impl Topology {
    /// No topology yet.
    pub fn new() -> (t: Topology)
        ensures
            t@ is None,
    {
        Topology { health: None }
    }

    /// Whether a topology has arrived.
    pub fn is_set(&self) -> (set: bool)
        ensures
            set == self@ is Some,
    {
        self.health.is_some()
    }

    /// The neighbours, once a topology has arrived.
    pub fn neighbors(&self) -> (neighbors: Option<&NodeSet>)
        ensures
            match neighbors {
                Some(set) => self@ is Some && set.order() == self@->0.neighbors,
                None => self@ is None,
            },
            self@ matches Some(h) ==> h.neighbors.no_duplicates() && h.neighbors.len()
                == h.seen.len(),
    {
        match &self.health {
            Some(map) => {
                let _ = map.len();
                Some(map.keys())
            },
            None => None,
        }
    }

    /// When `node` was last heard of, if it is a neighbour.
    pub fn last_contact(&self, node: &str) -> (seen: Option<u64>)
        ensures
            seen == match self@ {
                Some(h) => if h.neighbors.contains(node@) {
                    Some(h.seen[h.neighbors.index_of(node@)])
                } else {
                    None
                },
                None => None,
            },
    {
        match &self.health {
            Some(map) => match map.position(node) {
                Some(i) => Some(*map.value_at(i)),
                None => None,
            },
            None => None,
        }
    }

    /// Takes the first topology: `neighbors` become the node's neighbours,
    /// each heard of at `now`. Once a topology is there, nothing changes.
    /// Says whether the topology was taken.
    pub fn seed(&mut self, neighbors: &NodeSet, now: u64) -> (taken: bool)
        ensures
            taken == old(self)@ is None,
            final(self)@ == match old(self)@ {
                Some(h) => Some(h),
                None => Some(Health::seeded(neighbors.order(), now)),
            },
    {
        if self.health.is_some() {
            return false;
        }
        let mut map: NodeMap<u64> = NodeMap::new();
        let mut i: usize = 0;
        let count = neighbors.len();
        while i < count
            invariant
                i <= count,
                count == neighbors.order().len(),
                neighbors.order().no_duplicates(),
                map.order() == neighbors.order().take(i as int),
                map.values() == Seq::new(i as nat, |j: int| now),
            decreases count - i,
        {
            let ghost before = map.order();
            assert(!before.contains(neighbors.order()[i as int])) by {
                if before.contains(neighbors.order()[i as int]) {
                    let j = choose|j: int| 0 <= j < i && before[j] == neighbors.order()[i as int];
                    assert(neighbors.order()[j] == neighbors.order()[i as int]);
                }
            }
            map.insert(neighbors.get(i).clone(), now);
            assert(map.order() =~= neighbors.order().take(i as int + 1));
            assert(map.values() =~= Seq::new((i + 1) as nat, |j: int| now));
            i += 1;
        }
        assert(neighbors.order().take(i as int) =~= neighbors.order());
        self.health = Some(map);
        true
    }

    /// Takes note that `node` answered at `now`, if it is a neighbour; says
    /// whether it is.
    pub fn touch(&mut self, node: &str, now: u64) -> (known: bool)
        ensures
            known == (old(self)@ matches Some(h) && h.neighbors.contains(node@)),
            final(self)@ == match old(self)@ {
                Some(h) => Some(h.touched(node@, now)),
                None => None,
            },
    {
        let mut taken: Option<NodeMap<u64>> = None;
        core::mem::swap(&mut taken, &mut self.health);
        match taken {
            Some(mut map) => {
                let known = match map.position(node) {
                    Some(i) => {
                        map.set_at(i, now);
                        true
                    },
                    None => false,
                };
                self.health = Some(map);
                known
            },
            None => false,
        }
    }

    /// The neighbours that count as quiet at `now`, in order.
    pub fn stale(&self, now: u64) -> (quiet: Vec<String>)
        ensures
            crate::node_set::names_of(quiet@) == match self@ {
                Some(h) => h.stale(now),
                None => Seq::empty(),
            },
    {
        let mut quiet: Vec<String> = Vec::new();
        match &self.health {
            Some(map) => {
                let count = map.len();
                let ghost h = self@->0;
                let mut i: usize = 0;
                while i < count
                    invariant
                        i <= count,
                        count == map.order().len(),
                        count == map.values().len(),
                        h == (Health { neighbors: map.order(), seen: map.values() }),
                        crate::node_set::names_of(quiet@) == h.stale_among(i as int, now),
                    decreases count - i,
                {
                    let seen = *map.value_at(i);
                    if now > seen && now - seen > STALE_AFTER_MS {
                        quiet.push(map.key_at(i).clone());
                        assert(crate::node_set::names_of(quiet@) =~= h.stale_among(
                            i as int,
                            now,
                        ).push(h.neighbors[i as int]));
                    }
                    i += 1;
                }
            },
            None => {
                assert(crate::node_set::names_of(quiet@) =~= Seq::empty());
            },
        }
        quiet
    }
}

} // verus!
