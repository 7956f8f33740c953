use kava::config::ClusterNode;
use kava::gossip::{announcement, find_node, gossip_address, peers_of, sender_of, Membership};

fn node(id: &str, host: &str, port: &str, gossip: &str) -> ClusterNode {
    ClusterNode {
        _id: id.to_string(),
        host: host.to_string(),
        port: port.to_string(),
        gossip_port: gossip.to_string(),
    }
}

fn roster() -> Vec<ClusterNode> {
    vec![
        node("A", "10.0.0.1", "8080", "9090"),
        node("B", "10.0.0.2", "8081", "9091"),
        node("C", "10.0.0.3", "8082", "9092"),
    ]
}

#[test]
fn snapshot_starts_with_the_node_itself() {
    let snapshot = Membership::new("A".to_string(), "10.0.0.1:8080".to_string());
    assert!(snapshot.contains("A"));
    assert_eq!(snapshot.address_of("A"), Some("10.0.0.1:8080".to_string()));
    assert!(!snapshot.contains("B"));
    assert_eq!(snapshot.address_of("B"), None);
}

#[test]
fn listener_enters_the_sender_of_an_announcement() {
    let mut snapshot = Membership::new("A".to_string(), "10.0.0.1:8080".to_string());
    let sender = snapshot.receive("OK:B", "10.0.0.2:51234".to_string());
    assert_eq!(sender, Some("B".to_string()));
    assert_eq!(snapshot.address_of("B"), Some("10.0.0.2:51234".to_string()));
    let again = snapshot.receive("OK:B", "10.0.0.2:60000".to_string());
    assert_eq!(again, Some("B".to_string()));
    assert_eq!(snapshot.address_of("B"), Some("10.0.0.2:60000".to_string()));
    assert_eq!(snapshot.address_of("A"), Some("10.0.0.1:8080".to_string()));
}

#[test]
fn listener_ignores_what_is_no_announcement() {
    let mut snapshot = Membership::new("A".to_string(), "a:1".to_string());
    for payload in ["", "OK", "ok:B", "KO:B", " OK:B", "HELLO B", "O:K:B"] {
        assert_eq!(snapshot.receive(payload, "b:2".to_string()), None, "{:?}", payload);
    }
    assert!(!snapshot.contains("B"));
    assert!(snapshot.contains("A"));
}

#[test]
fn sender_is_what_follows_the_prefix() {
    assert_eq!(sender_of("OK:n1"), Some("n1".to_string()));
    assert_eq!(sender_of("OK:"), Some("".to_string()));
    assert_eq!(sender_of("OK:a:b"), Some("a:b".to_string()));
    assert_eq!(sender_of("OK:n1\n"), Some("n1\n".to_string()));
    assert_eq!(sender_of("OK"), None);
    assert_eq!(sender_of("NO:n1"), None);
}

#[test]
fn announcement_is_read_back() {
    assert_eq!(announcement("n1"), "OK:n1");
    assert_eq!(announcement(""), "OK:");
    assert_eq!(sender_of(&announcement("node-7")), Some("node-7".to_string()));
}

#[test]
fn talker_removes_a_peer_it_cannot_reach() {
    let mut snapshot = Membership::new("A".to_string(), "a:1".to_string());
    snapshot.receive("OK:B", "b:2".to_string());
    snapshot.receive("OK:C", "c:3".to_string());
    snapshot.record_contact("B", true);
    assert!(snapshot.contains("B"));
    snapshot.record_contact("B", false);
    assert!(!snapshot.contains("B"));
    assert!(snapshot.contains("A"));
    assert!(snapshot.contains("C"));
    snapshot.record_contact("B", false);
    assert!(!snapshot.contains("B"));
    snapshot.receive("OK:B", "b:4".to_string());
    assert_eq!(snapshot.address_of("B"), Some("b:4".to_string()));
}

#[test]
fn gossip_eviction_in_a_cluster_of_three() {
    let all = roster();
    let mut at_a = Membership::new("A".to_string(), "10.0.0.1:8080".to_string());
    let mut at_c = Membership::new("C".to_string(), "10.0.0.3:8082".to_string());
    for (id, from) in [("B", "10.0.0.2:40000"), ("C", "10.0.0.3:40001")] {
        at_a.receive(&announcement(id), from.to_string());
    }
    for (id, from) in [("A", "10.0.0.1:40002"), ("B", "10.0.0.2:40003")] {
        at_c.receive(&announcement(id), from.to_string());
    }
    assert!(at_a.contains("B") && at_c.contains("B"));
    // B is down: one pass of each talker.
    for peer in peers_of(&all, "A") {
        at_a.record_contact(&peer._id, peer._id != "B");
    }
    for peer in peers_of(&all, "C") {
        at_c.record_contact(&peer._id, peer._id != "B");
    }
    assert!(!at_a.contains("B") && !at_c.contains("B"));
    assert!(at_a.contains("A") && at_a.contains("C"));
    assert!(at_c.contains("A") && at_c.contains("C"));
}

#[test]
fn gossip_convergence_in_a_cluster_of_three() {
    let all = roster();
    let mut snapshots: Vec<Membership> = all
        .iter()
        .map(|n| Membership::new(n._id.clone(), format!("{}:{}", n.host, n.port)))
        .collect();
    for (i, me) in all.iter().enumerate() {
        for peer in peers_of(&all, &me._id) {
            let at = all.iter().position(|n| n._id == peer._id).unwrap();
            let heard = snapshots[at].receive(&announcement(&me._id), format!("{}:5{}", me.host, i));
            assert_eq!(heard, Some(me._id.clone()));
        }
    }
    for snapshot in &snapshots {
        for n in &all {
            assert!(snapshot.contains(&n._id));
        }
    }
}

#[test]
fn talker_contacts_every_node_but_itself_in_roster_order() {
    let all = roster();
    let ids = |me: &str| -> Vec<String> { peers_of(&all, me).into_iter().map(|n| n._id).collect() };
    assert_eq!(ids("A"), vec!["B", "C"]);
    assert_eq!(ids("B"), vec!["A", "C"]);
    assert_eq!(ids("C"), vec!["A", "B"]);
    assert_eq!(ids("D"), vec!["A", "B", "C"]);
    assert!(peers_of(&vec![], "A").is_empty());
}

#[test]
fn node_is_found_by_identifier() {
    let all = roster();
    assert_eq!(find_node(&all, "B").unwrap().port, "8081");
    assert!(find_node(&all, "D").is_none());
    let twice = vec![node("A", "first", "1", "2"), node("A", "second", "3", "4")];
    assert_eq!(find_node(&twice, "A").unwrap().host, "first");
}

#[test]
fn gossip_address_is_host_and_gossip_port() {
    assert_eq!(gossip_address(&node("A", "10.0.0.1", "8080", "9090")), "10.0.0.1:9090");
    assert_eq!(gossip_address(&node("A", "", "1", "")), ":");
}
