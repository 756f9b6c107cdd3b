use maelstrom::node_map::NodeMap;
use maelstrom::node_set::NodeSet;
use maelstrom::text::str_eq;
use maelstrom::values::{copy_values, merge_values};
use std::collections::HashSet;

fn names(list: &[&str]) -> Vec<String> {
    list.iter().map(|s| s.to_string()).collect()
}

#[test]
fn strings_compare_by_their_characters() {
    assert!(str_eq("n1", "n1"));
    assert!(!str_eq("n1", "n2"));
    assert!(!str_eq("n1", "n10"));
    assert!(str_eq("", ""));
    assert!(str_eq("knoten-ä", "knoten-ä"));
    assert!(!str_eq("knoten-ä", "knoten-a"));
}

#[test]
fn a_node_set_absorbs_repeats_and_keeps_order() {
    let mut set = NodeSet::new();
    assert_eq!(set.len(), 0);
    assert!(set.insert("n2".to_string()));
    assert!(set.insert("n1".to_string()));
    assert!(!set.insert("n2".to_string()));
    assert_eq!(set.len(), 2);
    assert_eq!(set.to_vec(), names(&["n2", "n1"]));
    assert!(set.contains("n1"));
    assert!(!set.contains("n3"));
    assert_eq!(set.position("n1"), Some(1));
    assert_eq!(set.position("n3"), None);
    assert_eq!(set.get(0), "n2");
}

#[test]
fn from_vec_drops_names_that_occur_again() {
    let set = NodeSet::from_vec(names(&["a", "b", "a", "c", "b"]));
    assert_eq!(set.to_vec(), names(&["a", "b", "c"]));
    let same = NodeSet::from_names(&names(&["a", "b", "a", "c", "b"]));
    assert_eq!(same.to_vec(), names(&["a", "b", "c"]));
}

#[test]
fn extend_is_the_union_in_order() {
    let mut set = NodeSet::from_vec(names(&["a", "b"]));
    set.extend(&NodeSet::from_vec(names(&["b", "c", "a", "d"])));
    assert_eq!(set.to_vec(), names(&["a", "b", "c", "d"]));
}

#[test]
fn difference_keeps_what_is_not_excluded() {
    let set = NodeSet::from_vec(names(&["a", "b", "c", "d"]));
    let rest = set.difference(&NodeSet::from_vec(names(&["d", "b", "x"])));
    assert_eq!(rest.to_vec(), names(&["a", "c"]));
    assert_eq!(set.difference(&NodeSet::new()).to_vec(), names(&["a", "b", "c", "d"]));
    assert_eq!(set.difference(&set.clone()).len(), 0);
}

#[test]
fn a_clone_holds_the_same_names() {
    let set = NodeSet::from_vec(names(&["a", "b"]));
    let mut copy = set.clone();
    copy.insert("c".to_string());
    assert_eq!(set.to_vec(), names(&["a", "b"]));
    assert_eq!(copy.to_vec(), names(&["a", "b", "c"]));
}

#[test]
fn a_node_map_replaces_the_value_under_a_known_key() {
    let mut map: NodeMap<u64> = NodeMap::new();
    map.insert("a".to_string(), 1);
    map.insert("b".to_string(), 2);
    map.insert("a".to_string(), 3);
    assert_eq!(map.len(), 2);
    assert_eq!(map.get("a"), Some(&3));
    assert_eq!(map.get("b"), Some(&2));
    assert_eq!(map.get("c"), None);
    assert_eq!(map.key_at(0), "a");
    assert_eq!(*map.value_at(1), 2);
    assert_eq!(map.position("b"), Some(1));
    assert_eq!(map.keys().to_vec(), names(&["a", "b"]));
    map.set_at(1, 9);
    assert_eq!(map.get("b"), Some(&9));
}

#[test]
fn merging_values_is_the_union() {
    let mut held: HashSet<u64> = [1, 2].into_iter().collect();
    let incoming: HashSet<u64> = [2, 3].into_iter().collect();
    merge_values(&mut held, &incoming);
    assert_eq!(held, [1, 2, 3].into_iter().collect());
    merge_values(&mut held, &incoming);
    assert_eq!(held, [1, 2, 3].into_iter().collect());
    assert_eq!(copy_values(&held), held);
}
