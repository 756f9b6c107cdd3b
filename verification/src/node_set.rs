//! Sets of node names, kept in the order in which the names arrived.

use crate::text::str_eq;
use vstd::prelude::*;

verus! {

/// The names that a sequence of strings holds, in order.
pub open spec fn names_of(ids: Seq<String>) -> Seq<Seq<char>> {
    Seq::new(ids.len(), |i: int| ids[i]@)
}

/// `order` with `id` added behind it, unless it is there already.
pub open spec fn with_name(order: Seq<Seq<char>>, id: Seq<char>) -> Seq<Seq<char>> {
    if order.contains(id) {
        order
    } else {
        order.push(id)
    }
}

/// `order` with each name of `more` added in turn.
pub open spec fn with_names(order: Seq<Seq<char>>, more: Seq<Seq<char>>) -> Seq<Seq<char>>
    decreases more.len(),
{
    if more.len() == 0 {
        order
    } else {
        with_name(with_names(order, more.drop_last()), more.last())
    }
}

/// The names of `order` that `excluded` does not hold, in order.
pub open spec fn without_names(order: Seq<Seq<char>>, excluded: Set<Seq<char>>) -> Seq<Seq<char>>
    decreases order.len(),
{
    if order.len() == 0 {
        order
    } else if excluded.contains(order.last()) {
        without_names(order.drop_last(), excluded)
    } else {
        without_names(order.drop_last(), excluded).push(order.last())
    }
}

/// Adding a name keeps a sequence free of repeats and adds the name to its set.
pub proof fn lemma_with_name(order: Seq<Seq<char>>, id: Seq<char>)
    requires
        order.no_duplicates(),
    ensures
        with_name(order, id).no_duplicates(),
        with_name(order, id).to_set() == order.to_set().insert(id),
{
    let after = with_name(order, id);
    assert forall|x: Seq<char>| after.to_set().contains(x) <==> order.to_set().insert(id).contains(
        x,
    ) by {
        if order.contains(id) {
        } else {
            if after.contains(x) {
                let j = choose|j: int| 0 <= j < after.len() && after[j] == x;
                if j < order.len() {
                    assert(order[j] == x);
                }
            }
            if x == id {
                assert(after[order.len() as int] == x);
            }
            if order.contains(x) {
                let j = choose|j: int| 0 <= j < order.len() && order[j] == x;
                assert(after[j] == x);
            }
        }
    }
    assert(after.to_set() =~= order.to_set().insert(id));
}

/// Adding names keeps a sequence free of repeats; its set becomes the union.
pub proof fn lemma_with_names(order: Seq<Seq<char>>, more: Seq<Seq<char>>)
    requires
        order.no_duplicates(),
    ensures
        with_names(order, more).no_duplicates(),
        with_names(order, more).to_set() == order.to_set().union(more.to_set()),
    decreases more.len(),
{
    if more.len() == 0 {
        assert(more.to_set() =~= Set::empty());
        assert(order.to_set().union(more.to_set()) =~= order.to_set());
    } else {
        let front = more.drop_last();
        lemma_with_names(order, front);
        lemma_with_name(with_names(order, front), more.last());
        assert forall|x: Seq<char>| more.to_set().contains(x) <==> front.to_set().insert(
            more.last(),
        ).contains(x) by {
            if more.contains(x) {
                let j = choose|j: int| 0 <= j < more.len() && more[j] == x;
                if j < front.len() {
                    assert(front[j] == x);
                }
            }
            if front.contains(x) {
                let j = choose|j: int| 0 <= j < front.len() && front[j] == x;
                assert(more[j] == x);
            }
            if x == more.last() {
                assert(more[more.len() - 1] == x);
            }
        }
        assert(more.to_set() =~= front.to_set().insert(more.last()));
        assert(with_names(order, more).to_set() =~= order.to_set().union(more.to_set()));
    }
}

/// Leaving names out keeps a sequence free of repeats; its set becomes the
/// difference.
pub proof fn lemma_without_names(order: Seq<Seq<char>>, excluded: Set<Seq<char>>)
    requires
        order.no_duplicates(),
    ensures
        without_names(order, excluded).no_duplicates(),
        without_names(order, excluded).to_set() == order.to_set().difference(excluded),
        without_names(order, excluded).len() <= order.len(),
    decreases order.len(),
{
    if order.len() == 0 {
        assert(order.to_set().difference(excluded) =~= order.to_set());
    } else {
        let front = order.drop_last();
        let last = order.last();
        lemma_without_names(front, excluded);
        let kept = without_names(front, excluded);
        let after = without_names(order, excluded);
        assert(!front.contains(last)) by {
            if front.contains(last) {
                let j = choose|j: int| 0 <= j < front.len() && front[j] == last;
                assert(order[j] == order[order.len() - 1]);
            }
        }
        assert(!kept.contains(last)) by {
            if kept.contains(last) {
                assert(kept.to_set().contains(last));
                assert(front.to_set().contains(last));
            }
        }
        assert forall|x: Seq<char>| after.to_set().contains(x) <==> order.to_set().difference(
            excluded,
        ).contains(x) by {
            if after.contains(x) {
                let j = choose|j: int| 0 <= j < after.len() && after[j] == x;
                if j < kept.len() {
                    assert(kept[j] == x);
                    assert(kept.to_set().contains(x));
                    assert(front.contains(x));
                    let k = choose|k: int| 0 <= k < front.len() && front[k] == x;
                    assert(order[k] == x);
                } else {
                    assert(x == last);
                    assert(order[order.len() - 1] == x);
                }
            }
            if order.contains(x) && !excluded.contains(x) {
                let j = choose|j: int| 0 <= j < order.len() && order[j] == x;
                if j < front.len() {
                    assert(front[j] == x);
                    assert(front.to_set().difference(excluded).contains(x));
                    assert(kept.contains(x));
                    let k = choose|k: int| 0 <= k < kept.len() && kept[k] == x;
                    assert(after[k] == x);
                } else {
                    assert(after[after.len() - 1] == x);
                }
            }
        }
        assert(after.to_set() =~= order.to_set().difference(excluded));
    }
}

/// A sequence of names without repeats is what adding its names one by one
/// to nothing gives.
pub proof fn lemma_with_names_distinct(order: Seq<Seq<char>>)
    requires
        order.no_duplicates(),
    ensures
        with_names(Seq::empty(), order) == order,
    decreases order.len(),
{
    if order.len() > 0 {
        let front = order.drop_last();
        lemma_with_names_distinct(front);
        assert(!front.contains(order.last())) by {
            if front.contains(order.last()) {
                let j = choose|j: int| 0 <= j < front.len() && front[j] == order.last();
                assert(order[j] == order[order.len() - 1]);
            }
        }
        assert(front.push(order.last()) =~= order);
    }
}

/// Leaving no name out leaves the sequence as it is.
pub proof fn lemma_without_nothing(order: Seq<Seq<char>>)
    ensures
        without_names(order, Set::empty()) == order,
    decreases order.len(),
{
    if order.len() > 0 {
        lemma_without_nothing(order.drop_last());
        assert(order.drop_last().push(order.last()) =~= order);
    }
}

/// A set of node names.
#[derive(Debug)]
pub struct NodeSet {
    ids: Vec<String>,
}

impl View for NodeSet {
    type V = Set<Seq<char>>;

    open spec fn view(&self) -> Set<Seq<char>> {
        self.order().to_set()
    }
}

impl NodeSet {
    #[verifier::type_invariant]
    closed spec fn distinct(&self) -> bool {
        names_of(self.ids@).no_duplicates()
    }

    /// The names in the order in which they were added.
    pub closed spec fn order(&self) -> Seq<Seq<char>> {
        names_of(self.ids@)
    }

    /// The empty set.
    pub fn new() -> (s: NodeSet)
        ensures
            s.order() == Seq::<Seq<char>>::empty(),
    {
        let s = NodeSet { ids: Vec::new() };
        assert(names_of(s.ids@) =~= Seq::empty());
        s
    }

    /// How many names the set holds.
    pub fn len(&self) -> (n: usize)
        ensures
            n == self.order().len(),
            self.order().no_duplicates(),
    {
        proof {
            use_type_invariant(self);
        }
        self.ids.len()
    }

    /// The name at place `i`.
    pub fn get(&self, i: usize) -> (id: &String)
        requires
            i < self.order().len(),
        ensures
            id@ == self.order()[i as int],
    {
        &self.ids[i]
    }

    /// Whether `id` is in the set.
    pub fn contains(&self, id: &str) -> (found: bool)
        ensures
            found == self@.contains(id@),
    {
        self.position(id).is_some()
    }

    /// The place of `id` in the set, if it is there.
    pub fn position(&self, id: &str) -> (place: Option<usize>)
        ensures
            match place {
                Some(i) => i < self.order().len() && self.order()[i as int] == id@,
                None => !self@.contains(id@),
            },
    {
        let mut i: usize = 0;
        while i < self.ids.len()
            invariant
                i <= self.ids.len(),
                forall|j: int| 0 <= j < i ==> self.order()[j] != id@,
            decreases self.ids.len() - i,
        {
            if str_eq(self.ids[i].as_str(), id) {
                return Some(i);
            }
            i += 1;
        }
        None
    }

    /// Adds `id`; says whether it was new.
    pub fn insert(&mut self, id: String) -> (added: bool)
        ensures
            final(self).order() == with_name(old(self).order(), id@),
            added == !old(self)@.contains(id@),
    {
        proof {
            use_type_invariant(&*self);
            lemma_with_name(self.order(), id@);
        }
        if self.contains(id.as_str()) {
            false
        } else {
            let ghost before = self.order();
            let mut ids: Vec<String> = Vec::new();
            assert(names_of(ids@) =~= Seq::empty());
            core::mem::swap(&mut ids, &mut self.ids);
            ids.push(id);
            assert(names_of(ids@) =~= before.push(id@));
            self.ids = ids;
            true
        }
    }

    /// Adds every name of `other`, in its order.
    pub fn extend(&mut self, other: &NodeSet)
        ensures
            final(self).order() == with_names(old(self).order(), other.order()),
    {
        let mut i: usize = 0;
        while i < other.len()
            invariant
                i <= other.order().len(),
                self.order() == with_names(old(self).order(), other.order().take(i as int)),
            decreases other.order().len() - i,
        {
            let ghost upto = other.order().take(i as int + 1);
            assert(upto.drop_last() =~= other.order().take(i as int));
            assert(upto.last() == other.order()[i as int]);
            self.insert(other.get(i).clone());
            i += 1;
        }
        assert(other.order().take(i as int) =~= other.order());
    }

    /// The names of this set that `excluded` does not hold, in this set's
    /// order.
    pub fn difference(&self, excluded: &NodeSet) -> (rest: NodeSet)
        ensures
            rest.order() == without_names(self.order(), excluded@),
    {
        let mut rest = NodeSet::new();
        let mut i: usize = 0;
        proof {
            use_type_invariant(self);
        }
        while i < self.len()
            invariant
                i <= self.order().len(),
                self.order().no_duplicates(),
                rest.order() == without_names(self.order().take(i as int), excluded@),
            decreases self.order().len() - i,
        {
            let ghost upto = self.order().take(i as int + 1);
            assert(upto.drop_last() =~= self.order().take(i as int));
            assert(upto.last() == self.order()[i as int]);
            if !excluded.contains(self.get(i).as_str()) {
                proof {
                    lemma_without_names(self.order().take(i as int), excluded@);
                    assert(!rest@.contains(self.order()[i as int])) by {
                        if self.order().take(i as int).contains(self.order()[i as int]) {
                            let j = choose|j: int|
                                0 <= j < i && self.order().take(i as int)[j] == self.order()[i as int];
                            assert(self.order()[j] == self.order()[i as int]);
                        }
                    }
                }
                rest.insert(self.get(i).clone());
            }
            i += 1;
        }
        assert(self.order().take(i as int) =~= self.order());
        rest
    }

    /// The set of the names in `ids`; a name that occurs again is dropped.
    pub fn from_vec(ids: Vec<String>) -> (s: NodeSet)
        ensures
            s.order() == with_names(Seq::empty(), names_of(ids@)),
    {
        NodeSet::from_names(&ids)
    }

    /// The set of the names in `ids`; a name that occurs again is dropped.
    pub fn from_names(ids: &Vec<String>) -> (s: NodeSet)
        ensures
            s.order() == with_names(Seq::empty(), names_of(ids@)),
    {
        let mut s = NodeSet::new();
        let mut i: usize = 0;
        while i < ids.len()
            invariant
                i <= ids.len(),
                s.order() == with_names(Seq::empty(), names_of(ids@).take(i as int)),
            decreases ids.len() - i,
        {
            let ghost upto = names_of(ids@).take(i as int + 1);
            assert(upto.drop_last() =~= names_of(ids@).take(i as int));
            assert(upto.last() == ids[i as int]@);
            s.insert(ids[i].clone());
            i += 1;
        }
        assert(names_of(ids@).take(i as int) =~= names_of(ids@));
        s
    }

    /// The names as strings, in order.
    pub fn to_vec(&self) -> (ids: Vec<String>)
        ensures
            names_of(ids@) == self.order(),
    {
        let mut ids: Vec<String> = Vec::new();
        let mut i: usize = 0;
        while i < self.ids.len()
            invariant
                i <= self.ids.len(),
                ids.len() == i,
                forall|j: int| 0 <= j < i ==> ids[j]@ == self.ids[j]@,
            decreases self.ids.len() - i,
        {
            ids.push(self.ids[i].clone());
            i += 1;
        }
        assert(names_of(ids@) =~= self.order());
        ids
    }
}

impl Clone for NodeSet {
    fn clone(&self) -> (s: NodeSet)
        ensures
            s.order() == self.order(),
    {
        proof {
            use_type_invariant(self);
        }
        let ids = self.to_vec();
        NodeSet { ids }
    }
}

} // verus!
