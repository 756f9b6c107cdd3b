use maelstrom::broadcast::gossip_tick;
use maelstrom::client::{Client, UninitMessageIn};
use maelstrom::message::Message;
use maelstrom::payload::MessageIn;
use maelstrom::sampling::{gossip_fanout, gossip_targets, GOSSIP_MIN_FANOUT, GOSSIP_SHARE};
use std::collections::HashSet;

fn names(list: &[&str]) -> Vec<String> {
    list.iter().map(|s| s.to_string()).collect()
}

fn client(id: &str, all: &[&str]) -> Client {
    let mut client = Client::default();
    let init = Message::new(
        "c0".to_string(),
        id.to_string(),
        Some(0),
        UninitMessageIn::Init { node_id: id.to_string(), node_ids: names(all) },
    );
    client.init(init).unwrap();
    client
}

#[test]
fn fanout_is_a_share_of_the_peers_with_a_floor() {
    assert_eq!(GOSSIP_MIN_FANOUT, 2);
    assert_eq!(GOSSIP_SHARE, 4);
    assert_eq!(gossip_fanout(0), 0);
    assert_eq!(gossip_fanout(1), 1);
    assert_eq!(gossip_fanout(2), 2);
    assert_eq!(gossip_fanout(3), 2);
    assert_eq!(gossip_fanout(8), 2);
    assert_eq!(gossip_fanout(11), 2);
    assert_eq!(gossip_fanout(12), 3);
    assert_eq!(gossip_fanout(100), 25);
}

#[test]
fn targets_are_drawn_without_putting_back() {
    let client = client("n1", &["n1", "n2", "n3", "n4", "n5"]);
    // of n2 n3 n4 n5: 5 mod 4 picks n3; of n2 n4 n5: 7 mod 3 picks n4
    assert_eq!(gossip_targets(&client, &vec![5, 7]), names(&["n3", "n4"]));
    assert_eq!(gossip_targets(&client, &vec![0, 0]), names(&["n2", "n3"]));
    assert_eq!(gossip_targets(&client, &vec![3, 2]), names(&["n5", "n4"]));
    // numbers that are missing count as zero, numbers beyond the need are ignored
    assert_eq!(gossip_targets(&client, &vec![]), names(&["n2", "n3"]));
    assert_eq!(gossip_targets(&client, &vec![1]), names(&["n3", "n2"]));
    assert_eq!(gossip_targets(&client, &vec![1, 1, 1, 1]), names(&["n3", "n4"]));
}

#[test]
fn a_node_never_gossips_with_itself() {
    let client = client("n2", &["n1", "n2", "n3", "n2"]);
    for a in 0..4u64 {
        for b in 0..4u64 {
            let targets = gossip_targets(&client, &vec![a, b]);
            assert_eq!(targets.len(), 2);
            assert!(!targets.contains(&"n2".to_string()));
            assert_ne!(targets[0], targets[1]);
        }
    }
}

#[test]
fn a_node_alone_has_nobody_to_gossip_with() {
    let client = client("n1", &["n1"]);
    assert!(gossip_targets(&client, &vec![9, 9]).is_empty());
}

#[test]
fn a_gossip_turn_offers_all_values_to_each_target() {
    let mut client = client("n1", &["n1", "n2", "n3"]);
    let held: HashSet<u64> = [4, 5].into_iter().collect();
    let offers = gossip_tick(&mut client, &held, &names(&["n3", "n2"]));
    assert_eq!(offers.len(), 2);
    assert_eq!(offers[0].dst(), "n3");
    assert_eq!(offers[1].dst(), "n2");
    assert_eq!(offers[0].msg_id(), Some(1));
    assert_eq!(offers[1].msg_id(), Some(2));
    for offer in &offers {
        assert_eq!(offer.src(), "n1");
        match offer.data() {
            MessageIn::Gossip { messages } => assert_eq!(messages, &held),
            _ => panic!("gossip offers values"),
        }
    }
    assert!(client.awaits(1));
    assert!(client.awaits(2));
    assert!(gossip_tick(&mut client, &held, &vec![]).is_empty());
}
