use maelstrom::node_set::NodeSet;
use maelstrom::topology::{Topology, STALE_AFTER_MS};

fn names(list: &[&str]) -> Vec<String> {
    list.iter().map(|s| s.to_string()).collect()
}

#[test]
fn no_topology_at_first() {
    let topology = Topology::new();
    assert!(!topology.is_set());
    assert!(topology.neighbors().is_none());
    assert_eq!(topology.last_contact("n2"), None);
    assert!(topology.stale(10_000).is_empty());
}

#[test]
fn the_first_topology_wins() {
    let mut topology = Topology::new();
    assert!(topology.seed(&NodeSet::from_vec(names(&["n2", "n3"])), 100));
    assert!(topology.is_set());
    assert!(!topology.seed(&NodeSet::from_vec(names(&["n4"])), 200));
    assert_eq!(topology.neighbors().unwrap().to_vec(), names(&["n2", "n3"]));
    assert_eq!(topology.last_contact("n2"), Some(100));
    assert_eq!(topology.last_contact("n3"), Some(100));
    assert_eq!(topology.last_contact("n4"), None);
}

#[test]
fn a_neighbour_is_quiet_after_more_than_the_threshold() {
    assert_eq!(STALE_AFTER_MS, 1000);
    let mut topology = Topology::new();
    topology.seed(&NodeSet::from_vec(names(&["n2", "n3"])), 500);
    assert!(topology.stale(500).is_empty());
    assert!(topology.stale(1500).is_empty());
    assert_eq!(topology.stale(1501), names(&["n2", "n3"]));
    assert!(topology.stale(0).is_empty());
}

#[test]
fn touch_marks_one_neighbour_as_heard_of() {
    let mut topology = Topology::new();
    topology.seed(&NodeSet::from_vec(names(&["n2", "n3"])), 0);
    assert!(topology.touch("n3", 1200));
    assert!(!topology.touch("n9", 1200));
    assert_eq!(topology.last_contact("n2"), Some(0));
    assert_eq!(topology.last_contact("n3"), Some(1200));
    assert_eq!(topology.stale(2000), names(&["n2"]));
    assert_eq!(topology.stale(2201), names(&["n2", "n3"]));
}

#[test]
fn touch_without_topology_changes_nothing() {
    let mut topology = Topology::new();
    assert!(!topology.touch("n2", 5));
    assert!(!topology.is_set());
}
