//! Structured values as they stand on the wire, one to a line.

use crate::node_set::names_of;
use crate::text::str_eq;
use std::collections::HashSet;
use vstd::prelude::*;
use vstd::std_specs::hash::spec_hash_keys_iter;
use vstd::std_specs::iter::IteratorSpec;

verus! {

broadcast use vstd::std_specs::hash::group_hash_axioms;

/// A value of the wire format.
#[derive(Debug)]
pub enum Json {
    Null,
    Bool(bool),
    /// A whole number from zero to the greatest that 64 bits hold.
    Number(u64),
    /// Any other number: one below zero, one too great, or one with a
    /// fraction.
    OtherNumber,
    Text(String),
    Array(Vec<Json>),
    /// Named members, in the order in which they stand.
    Object(Vec<(String, Json)>),
}

/// The first member of `members` under the name `key`, if there is one.
pub open spec fn lookup(members: Seq<(String, Json)>, key: Seq<char>) -> Option<Json>
    decreases members.len(),
{
    if members.len() == 0 {
        None
    } else if members[0].0@ == key {
        Some(members[0].1)
    } else {
        lookup(members.drop_first(), key)
    }
}

/// The member at place `at` is the one found under its name if no member
/// before it has that name.
pub proof fn lemma_lookup_at(members: Seq<(String, Json)>, key: Seq<char>, at: int)
    requires
        0 <= at < members.len(),
        members[at].0@ == key,
        forall|j: int| 0 <= j < at ==> (#[trigger] members[j]).0@ != key,
    ensures
        lookup(members, key) == Some(members[at].1),
    decreases at,
{
    if at > 0 {
        let rest = members.drop_first();
        assert(members[0].0@ != key);
        assert forall|j: int| 0 <= j < at - 1 implies (#[trigger] rest[j]).0@ != key by {
            assert(rest[j] == members[j + 1]);
        }
        lemma_lookup_at(rest, key, at - 1);
    }
}

/// Members that do not have the name looked for can be passed over.
pub proof fn lemma_lookup_skip(members: Seq<(String, Json)>, key: Seq<char>, passed: int)
    requires
        0 <= passed <= members.len(),
        forall|j: int| 0 <= j < passed ==> (#[trigger] members[j]).0@ != key,
    ensures
        lookup(members, key) == lookup(members.skip(passed), key),
    decreases passed,
{
    if passed == 0 {
        assert(members.skip(0) =~= members);
    } else {
        let rest = members.drop_first();
        assert(members[0].0@ != key);
        assert forall|j: int| 0 <= j < passed - 1 implies (#[trigger] rest[j]).0@ != key by {
            assert(rest[j] == members[j + 1]);
        }
        lemma_lookup_skip(rest, key, passed - 1);
        assert(rest.skip(passed - 1) =~= members.skip(passed));
    }
}

/// Finds the first member of `members` under the name `key`.
pub fn member<'a>(members: &'a Vec<(String, Json)>, key: &str) -> (found: Option<&'a Json>)
    ensures
        match found {
            Some(value) => lookup(members@, key@) == Some(*value),
            None => lookup(members@, key@) is None,
        },
{
    let mut i: usize = 0;
    assert(members@.skip(0) =~= members@);
    while i < members.len()
        invariant
            i <= members.len(),
            lookup(members@, key@) == lookup(members@.skip(i as int), key@),
        decreases members.len() - i,
    {
        let ghost rest = members@.skip(i as int);
        assert(rest[0] == members@[i as int]);
        assert(rest.drop_first() =~= members@.skip(i as int + 1));
        if str_eq(members[i].0.as_str(), key) {
            return Some(&members[i].1);
        }
        i += 1;
    }
    assert(members@.skip(i as int).len() == 0);
    None
}

/// The names that `items` list, if each item is a text.
pub open spec fn names_in(items: Seq<Json>) -> Option<Seq<Seq<char>>>
    decreases items.len(),
{
    if items.len() == 0 {
        Some(Seq::empty())
    } else {
        match (names_in(items.drop_last()), items.last()) {
            (Some(front), Json::Text(name)) => Some(front.push(name@)),
            _ => None,
        }
    }
}

/// The numbers that `items` list, if each item is a whole number.
pub open spec fn numbers_in(items: Seq<Json>) -> Option<Seq<u64>>
    decreases items.len(),
{
    if items.len() == 0 {
        Some(Seq::empty())
    } else {
        match (numbers_in(items.drop_last()), items.last()) {
            (Some(front), Json::Number(number)) => Some(front.push(number)),
            _ => None,
        }
    }
}

/// Reads a list of names.
pub fn read_names(items: &Vec<Json>) -> (names: Option<Vec<String>>)
    ensures
        match names_in(items@) {
            Some(listed) => names is Some && names_of(names->0@) == listed,
            None => names is None,
        },
{
    let mut names: Vec<String> = Vec::new();
    let mut i: usize = 0;
    assert(items@.take(0) =~= Seq::empty());
    assert(names_of(names@) =~= Seq::empty());
    while i < items.len()
        invariant
            i <= items.len(),
            names_in(items@.take(i as int)) == Some(names_of(names@)),
        decreases items.len() - i,
    {
        let ghost upto = items@.take(i as int + 1);
        assert(upto.drop_last() =~= items@.take(i as int));
        assert(upto.last() == items@[i as int]);
        match &items[i] {
            Json::Text(name) => {
                let ghost before = names_of(names@);
                names.push(name.clone());
                assert(names_of(names@) =~= before.push(name@));
            },
            _ => {
                proof {
                    lemma_names_prefix(items@, i as int + 1);
                }
                return None;
            },
        }
        i += 1;
    }
    assert(items@.take(i as int) =~= items@);
    Some(names)
}

/// A list whose beginning is no list of names is no list of names.
proof fn lemma_names_prefix(items: Seq<Json>, upto: int)
    requires
        0 <= upto <= items.len(),
        names_in(items.take(upto)) is None,
    ensures
        names_in(items) is None,
    decreases items.len() - upto,
{
    if upto < items.len() {
        let next = items.take(upto + 1);
        assert(next.drop_last() =~= items.take(upto));
        lemma_names_prefix(items, upto + 1);
    } else {
        assert(items.take(upto) =~= items);
    }
}

/// A list whose beginning is no list of numbers is no list of numbers.
proof fn lemma_numbers_prefix(items: Seq<Json>, upto: int)
    requires
        0 <= upto <= items.len(),
        numbers_in(items.take(upto)) is None,
    ensures
        numbers_in(items) is None,
    decreases items.len() - upto,
{
    if upto < items.len() {
        let next = items.take(upto + 1);
        assert(next.drop_last() =~= items.take(upto));
        lemma_numbers_prefix(items, upto + 1);
    } else {
        assert(items.take(upto) =~= items);
    }
}

/// Reads a list of numbers as the set of them.
pub fn read_numbers(items: &Vec<Json>) -> (numbers: Option<HashSet<u64>>)
    ensures
        match numbers_in(items@) {
            Some(listed) => numbers is Some && numbers->0@ == listed.to_set(),
            None => numbers is None,
        },
{
    let mut numbers: HashSet<u64> = HashSet::new();
    let mut i: usize = 0;
    assert(items@.take(0) =~= Seq::empty());
    assert(Seq::<u64>::empty().to_set() =~= Set::empty());
    while i < items.len()
        invariant
            i <= items.len(),
            numbers_in(items@.take(i as int)) is Some,
            numbers@ == numbers_in(items@.take(i as int))->0.to_set(),
        decreases items.len() - i,
    {
        let ghost upto = items@.take(i as int + 1);
        let ghost front = numbers_in(items@.take(i as int))->0;
        assert(upto.drop_last() =~= items@.take(i as int));
        assert(upto.last() == items@[i as int]);
        match &items[i] {
            Json::Number(number) => {
                numbers.insert(*number);
                proof {
                    lemma_push_to_set(front, *number);
                }
            },
            _ => {
                proof {
                    lemma_numbers_prefix(items@, i as int + 1);
                }
                return None;
            },
        }
        i += 1;
    }
    assert(items@.take(i as int) =~= items@);
    Some(numbers)
}

/// The set of a sequence with one more item is the set of the sequence with
/// that item.
pub proof fn lemma_push_to_set<A>(items: Seq<A>, item: A)
    ensures
        items.push(item).to_set() == items.to_set().insert(item),
{
    let more = items.push(item);
    assert forall|x: A| more.to_set().contains(x) <==> items.to_set().insert(item).contains(x) by {
        if more.contains(x) {
            let j = choose|j: int| 0 <= j < more.len() && more[j] == x;
            if j < items.len() {
                assert(items[j] == x);
            }
        }
        if items.contains(x) {
            let j = choose|j: int| 0 <= j < items.len() && items[j] == x;
            assert(more[j] == x);
        }
        if x == item {
            assert(more[items.len() as int] == x);
        }
    }
    assert(more.to_set() =~= items.to_set().insert(item));
}

/// Writes a list of names.
pub fn write_names(names: &Vec<String>) -> (items: Vec<Json>)
    ensures
        names_in(items@) == Some(names_of(names@)),
{
    let mut items: Vec<Json> = Vec::new();
    let mut i: usize = 0;
    assert(names_of(names@).take(0) =~= Seq::empty());
    while i < names.len()
        invariant
            i <= names.len(),
            items.len() == i,
            names_in(items@) == Some(names_of(names@).take(i as int)),
        decreases names.len() - i,
    {
        let ghost before = items@;
        items.push(Json::Text(names[i].clone()));
        assert(items@.drop_last() =~= before);
        assert(names_of(names@).take(i as int + 1) =~= names_of(names@).take(i as int).push(
            names[i as int]@,
        ));
        i += 1;
    }
    assert(names_of(names@).take(i as int) =~= names_of(names@));
    items
}

/// Writes a set of numbers as a list, each number once, in no order that
/// could be told beforehand.
pub fn write_numbers(numbers: &HashSet<u64>) -> (items: Vec<Json>)
    ensures
        numbers_in(items@) is Some,
        numbers_in(items@)->0.to_set() == numbers@,
        numbers_in(items@)->0.no_duplicates(),
{
    let mut items: Vec<Json> = Vec::new();
    let ghost order = spec_hash_keys_iter(numbers).remaining().unref();
    assert(order.take(0) =~= Seq::empty());
    for number in it: numbers.iter()
        invariant
            it.seq().unref() == order,
            0 <= it.index() <= order.len(),
            numbers_in(items@) == Some(order.take(it.index())),
    {
        let ghost before = items@;
        assert(order[it.index()] == *number);
        items.push(Json::Number(*number));
        assert(items@.drop_last() =~= before);
        assert(order.take(it.index() + 1) =~= order.take(it.index()).push(*number));
    }
    assert(order.take(order.len() as int) =~= order);
    items
}

} // verus!
