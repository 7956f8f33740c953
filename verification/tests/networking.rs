use kava::commands::Command;
use kava::config::ClusterNode;
use kava::gossip::Membership;
use kava::hashing::HashRing;
use kava::networking::{
    aggregate, dispatch, error_response, failure_response, finish_batch, flatten, forward_address,
    forward_to, handle_request, pair_up, plan_batch, range_response, read_response,
    status_response, Action, Forward, ForwardPhase,
};
use kava::storage::{InMemoryStorage, Storage, StorageBuilder};

fn s(text: &str) -> String {
    text.to_string()
}

fn node(id: &str, host: &str, port: &str) -> ClusterNode {
    ClusterNode { _id: s(id), host: s(host), port: s(port), gossip_port: s("0") }
}

fn two_nodes() -> Vec<ClusterNode> {
    vec![node("A", "10.0.0.1", "8080"), node("B", "10.0.0.2", "8081")]
}

/// A key that `owner` owns on `ring`.
fn key_of(ring: &HashRing, owner: &str, tag: &str) -> String {
    for i in 0..10_000 {
        let key = format!("{}{}", tag, i);
        if ring.primary(&key).unwrap()._id == owner {
            return key;
        }
    }
    panic!("no key found for {}", owner);
}

fn reply(outcome: Result<Action, String>) -> String {
    match outcome {
        Ok(Action::Reply(text)) => text,
        other => panic!("expected a reply, got {:?}", other),
    }
}

fn relay(outcome: Result<Action, String>) -> Forward {
    match outcome {
        Ok(Action::Relay(forward)) => forward,
        other => panic!("expected a relay, got {:?}", other),
    }
}

fn gather(outcome: Result<Action, String>) -> (Vec<Forward>, String) {
    match outcome {
        Ok(Action::Gather { forwards, local }) => (forwards, local),
        other => panic!("expected a batch, got {:?}", other),
    }
}

#[test]
fn local_put_then_read() {
    let ring = HashRing::build(vec![node("A", "127.0.0.1", "8080")], 8);
    let snapshot = Membership::new(s("A"), s("127.0.0.1:8080"));
    let mut storage = StorageBuilder::builder("memory").build();
    assert_eq!(reply(handle_request("PUT x 1", "A", &ring, &snapshot, &mut storage)), "OK\n");
    assert_eq!(reply(handle_request("READ x", "A", &ring, &snapshot, &mut storage)), "1\n");
    assert_eq!(storage.read(&s("x")), Ok(s("1")));
}

#[test]
fn forwarded_read() {
    let ring_a = HashRing::build(two_nodes(), 16);
    let ring_b = HashRing::build(two_nodes(), 16);
    let snapshot_a = Membership::new(s("A"), s("10.0.0.1:8080"));
    let snapshot_b = Membership::new(s("B"), s("10.0.0.2:8081"));
    let mut storage_a = InMemoryStorage::new();
    let mut storage_b = InMemoryStorage::new();
    let x = key_of(&ring_a, "B", "x");

    let put = format!("PUT {} 9", x);
    assert_eq!(reply(handle_request(&put, "B", &ring_b, &snapshot_b, &mut storage_b)), "OK\n");

    let read = format!("READ {}", x);
    let forward = relay(handle_request(&read, "A", &ring_a, &snapshot_a, &mut storage_a));
    assert_eq!(forward.node_id, "B");
    assert_eq!(forward.address, "10.0.0.2:8081");
    assert_eq!(forward.payload, format!("READ {}\n", x));
    assert_eq!(storage_a.read(&x), Err(s("Key not found")));

    let answer = reply(handle_request(&forward.payload, "B", &ring_b, &snapshot_b, &mut storage_b));
    assert_eq!(answer, "9\n");
}

#[test]
fn forwarded_put_is_the_put_itself() {
    let ring = HashRing::build(two_nodes(), 16);
    let snapshot_a = Membership::new(s("A"), s("10.0.0.1:8080"));
    let snapshot_b = Membership::new(s("B"), s("10.0.0.2:8081"));
    let key = key_of(&ring, "B", "k");
    let request = format!("  PUT   {}\tvalue \n", key);

    let mut storage_a = InMemoryStorage::new();
    let mut via_a = InMemoryStorage::new();
    let forward = relay(handle_request(&request, "A", &ring, &snapshot_a, &mut storage_a));
    assert_eq!(forward.payload, format!("PUT {} value\n", key));
    assert_eq!(storage_a.read_key_by_range(&s(""), &s("~")).unwrap(), vec![]);
    assert_eq!(reply(handle_request(&forward.payload, "B", &ring, &snapshot_b, &mut via_a)), "OK\n");

    let mut direct = InMemoryStorage::new();
    assert_eq!(reply(handle_request(&request, "B", &ring, &snapshot_b, &mut direct)), "OK\n");

    assert_eq!(
        via_a.read_key_by_range(&s(""), &s("~")).unwrap(),
        direct.read_key_by_range(&s(""), &s("~")).unwrap()
    );
    assert_eq!(direct.read(&key), Ok(s("value")));
}

#[test]
fn forwarded_delete() {
    let ring = HashRing::build(two_nodes(), 16);
    let snapshot = Membership::new(s("A"), s("10.0.0.1:8080"));
    let mut storage = InMemoryStorage::new();
    let key = key_of(&ring, "B", "k");
    storage.put(key.clone(), s("stays")).unwrap();
    let forward = relay(handle_request(&format!("DELETE {}", key), "A", &ring, &snapshot, &mut storage));
    assert_eq!(forward.node_id, "B");
    assert_eq!(forward.address, "10.0.0.2:8081");
    assert_eq!(forward.payload, format!("DELETE {}\n", key));
    assert_eq!(storage.read(&key), Ok(s("stays")));
}

#[test]
fn range_scan() {
    let ring = HashRing::build(vec![node("A", "127.0.0.1", "8080")], 8);
    let snapshot = Membership::new(s("A"), s("127.0.0.1:8080"));
    let mut storage = InMemoryStorage::new();
    for request in ["PUT a 1", "PUT b 2", "PUT c 3"] {
        assert_eq!(reply(handle_request(request, "A", &ring, &snapshot, &mut storage)), "OK\n");
    }
    let answer = reply(handle_request("READRANGE a b", "A", &ring, &snapshot, &mut storage));
    assert!(answer.ends_with('\n'));
    let mut lines: Vec<&str> = answer.lines().collect();
    lines.sort();
    assert_eq!(lines, vec!["a 1", "b 2"]);
    assert_eq!(reply(handle_request("READRANGE x z", "A", &ring, &snapshot, &mut storage)), "");
}

#[test]
fn range_scan_is_local_whoever_owns_the_keys() {
    let ring = HashRing::build(two_nodes(), 16);
    let snapshot = Membership::new(s("A"), s("10.0.0.1:8080"));
    let mut storage = InMemoryStorage::new();
    let foreign = key_of(&ring, "B", "k");
    storage.put(foreign.clone(), s("v")).unwrap();
    let answer = reply(handle_request("READRANGE k l", "A", &ring, &snapshot, &mut storage));
    assert_eq!(answer, format!("{} v\n", foreign));
}

#[test]
fn batch_put_mixed_owners() {
    let ring = HashRing::build(two_nodes(), 16);
    let mut snapshot_a = Membership::new(s("A"), s("10.0.0.1:8080"));
    snapshot_a.receive("OK:B", s("10.0.0.2:8081"));
    let snapshot_b = Membership::new(s("B"), s("10.0.0.2:8081"));
    let mut storage_a = InMemoryStorage::new();
    let mut storage_b = InMemoryStorage::new();
    let k1 = key_of(&ring, "A", "k");
    let k2 = key_of(&ring, "B", "k");

    let request = format!("BATCHPUT {} v1 {} v2", k1, k2);
    let (forwards, local) = gather(handle_request(&request, "A", &ring, &snapshot_a, &mut storage_a));
    assert_eq!(local, "OK\n");
    assert_eq!(forwards.len(), 1);
    assert_eq!(forwards[0].node_id, "B");
    assert_eq!(forwards[0].address, "10.0.0.2:8081");
    assert_eq!(forwards[0].payload, format!("BATCHPUT {} v2\n", k2));

    let (onward, answer_b) =
        gather(handle_request(&forwards[0].payload, "B", &ring, &snapshot_b, &mut storage_b));
    assert!(onward.is_empty());
    assert_eq!(answer_b, "OK\n");
    assert_eq!(finish_batch(vec![], answer_b.clone()), "OK\n");

    assert_eq!(finish_batch(vec![answer_b], local), "OK\n");
    assert_eq!(reply(handle_request(&format!("READ {}", k1), "A", &ring, &snapshot_a, &mut storage_a)), "v1\n");
    assert_eq!(reply(handle_request(&format!("READ {}", k2), "B", &ring, &snapshot_b, &mut storage_b)), "v2\n");
    assert_eq!(storage_a.read(&k2), Err(s("Key not found")));
    assert_eq!(storage_b.read(&k1), Err(s("Key not found")));
}

#[test]
fn batch_groups_keep_order_and_follow_first_appearance() {
    let roster = vec![node("A", "a", "1"), node("B", "b", "2"), node("C", "c", "3")];
    let ring = HashRing::build(roster, 16);
    let mut snapshot = Membership::new(s("A"), s("a:1"));
    snapshot.receive("OK:B", s("b:2"));
    snapshot.receive("OK:C", s("c:3"));
    let a1 = key_of(&ring, "A", "p");
    let b1 = key_of(&ring, "B", "q");
    let b2 = key_of(&ring, "B", "r");
    let c1 = key_of(&ring, "C", "t");
    let tokens: Vec<String> = [&c1, "1", &b1, "2", &a1, "3", &b2, "4", &c1, "5", "odd"]
        .iter()
        .map(|t| t.to_string())
        .collect();
    let plan = plan_batch(&tokens, "A", &ring, &snapshot);
    assert_eq!(plan.local, vec![(a1.clone(), s("3"))]);
    assert_eq!(plan.forwards.len(), 2);
    assert_eq!(plan.forwards[0].node_id, "C");
    assert_eq!(plan.forwards[0].address, "c:3");
    assert_eq!(plan.forwards[0].payload, format!("BATCHPUT {} 1 {} 5\n", c1, c1));
    assert_eq!(plan.forwards[1].node_id, "B");
    assert_eq!(plan.forwards[1].address, "b:2");
    assert_eq!(plan.forwards[1].payload, format!("BATCHPUT {} 2 {} 4\n", b1, b2));
}

#[test]
fn batch_skips_owners_that_the_snapshot_cannot_reach() {
    let roster = vec![node("A", "a", "1"), node("B", "b", "2"), node("C", "c", "3")];
    let ring = HashRing::build(roster, 16);
    let b1 = key_of(&ring, "B", "q");
    let c1 = key_of(&ring, "C", "t");
    let tokens = vec![b1.clone(), s("1"), c1.clone(), s("2")];

    let alone = Membership::new(s("A"), s("a:1"));
    let plan = plan_batch(&tokens, "A", &ring, &alone);
    assert!(plan.local.is_empty());
    assert!(plan.forwards.is_empty());

    let mut odd = Membership::new(s("A"), s("a:1"));
    odd.receive("OK:B", s("[::1]:2"));
    odd.receive("OK:C", s("no-port"));
    assert!(plan_batch(&tokens, "A", &ring, &odd).forwards.is_empty());

    let mut partly = Membership::new(s("A"), s("a:1"));
    partly.receive("OK:C", s("c:3"));
    let plan = plan_batch(&tokens, "A", &ring, &partly);
    assert_eq!(plan.forwards.len(), 1);
    assert_eq!(plan.forwards[0].node_id, "C");

    let mut storage = InMemoryStorage::new();
    let (forwards, local) = gather(handle_request(
        &format!("BATCHPUT {} 1 {} 2", b1, c1),
        "A",
        &ring,
        &alone,
        &mut storage,
    ));
    assert!(forwards.is_empty());
    assert_eq!(finish_batch(vec![], local), "OK\n");
    assert_eq!(storage.read_key_by_range(&s(""), &s("~")).unwrap(), vec![]);
}

#[test]
fn batch_drops_a_last_token_without_partner() {
    let none: Vec<(String, String)> = vec![];
    assert_eq!(pair_up(&vec![]), none);
    assert_eq!(pair_up(&vec![s("k")]), none);
    assert_eq!(pair_up(&vec![s("k"), s("v")]), vec![(s("k"), s("v"))]);
    assert_eq!(pair_up(&vec![s("k"), s("v"), s("x")]), vec![(s("k"), s("v"))]);
    assert_eq!(
        pair_up(&vec![s("a"), s("1"), s("b"), s("2")]),
        vec![(s("a"), s("1")), (s("b"), s("2"))]
    );
    assert_eq!(flatten(&vec![(s("a"), s("1")), (s("b"), s("2"))]), vec!["a", "1", "b", "2"]);
    assert_eq!(flatten(&vec![]), Vec::<String>::new());

    let ring = HashRing::build(vec![node("A", "a", "1")], 4);
    let snapshot = Membership::new(s("A"), s("a:1"));
    let mut storage = InMemoryStorage::new();
    let (forwards, local) =
        gather(handle_request("BATCHPUT a 1 b 2 c", "A", &ring, &snapshot, &mut storage));
    assert!(forwards.is_empty());
    assert_eq!(local, "OK\n");
    assert_eq!(storage.read(&s("a")), Ok(s("1")));
    assert_eq!(storage.read(&s("b")), Ok(s("2")));
    assert_eq!(storage.read(&s("c")), Err(s("Key not found")));
}

#[test]
fn delete_missing() {
    let ring = HashRing::build(vec![node("A", "127.0.0.1", "8080")], 8);
    let snapshot = Membership::new(s("A"), s("127.0.0.1:8080"));
    let mut storage = InMemoryStorage::new();
    assert_eq!(
        reply(handle_request("DELETE missing", "A", &ring, &snapshot, &mut storage)),
        "Error: Key not found\n"
    );
    assert_eq!(
        reply(handle_request("READ missing", "A", &ring, &snapshot, &mut storage)),
        "Error: Key not found\n"
    );
    assert_eq!(reply(handle_request("PUT k v", "A", &ring, &snapshot, &mut storage)), "OK\n");
    assert_eq!(reply(handle_request("DELETE k", "A", &ring, &snapshot, &mut storage)), "OK\n");
    assert_eq!(
        reply(handle_request("DELETE k", "A", &ring, &snapshot, &mut storage)),
        "Error: Key not found\n"
    );
}

#[test]
fn put_twice_answers_ok_twice() {
    let ring = HashRing::build(vec![node("A", "127.0.0.1", "8080")], 8);
    let snapshot = Membership::new(s("A"), s("127.0.0.1:8080"));
    let mut storage = InMemoryStorage::new();
    assert_eq!(reply(handle_request("PUT k v", "A", &ring, &snapshot, &mut storage)), "OK\n");
    let after_first = storage.read_key_by_range(&s(""), &s("~")).unwrap();
    assert_eq!(reply(handle_request("PUT k v", "A", &ring, &snapshot, &mut storage)), "OK\n");
    assert_eq!(storage.read_key_by_range(&s(""), &s("~")).unwrap(), after_first);
    assert_eq!(after_first, vec![(s("k"), s("v"))]);
}

#[test]
fn malformed_request_is_refused_and_changes_nothing() {
    let ring = HashRing::build(vec![node("A", "127.0.0.1", "8080")], 8);
    let snapshot = Membership::new(s("A"), s("127.0.0.1:8080"));
    let mut storage = InMemoryStorage::new();
    storage.put(s("k"), s("v")).unwrap();
    for request in ["", "HELLO", "PUT k", "DELETE"] {
        match handle_request(request, "A", &ring, &snapshot, &mut storage) {
            Err(reason) => assert_eq!(reason, "Invalid command format"),
            Ok(action) => panic!("{:?} was answered with {:?}", request, action),
        }
    }
    assert_eq!(storage.read_key_by_range(&s(""), &s("~")).unwrap(), vec![(s("k"), s("v"))]);
}

#[test]
fn dispatch_takes_a_parsed_command() {
    let ring = HashRing::build(vec![node("A", "127.0.0.1", "8080")], 8);
    let snapshot = Membership::new(s("A"), s("127.0.0.1:8080"));
    let mut storage = InMemoryStorage::new();
    let put = Command::Put(s("k"), s("v"));
    assert!(matches!(dispatch(&put, "A", &ring, &snapshot, &mut storage), Action::Reply(ref t) if t == "OK\n"));
    let read = Command::Read(s("k"));
    assert!(matches!(dispatch(&read, "A", &ring, &snapshot, &mut storage), Action::Reply(ref t) if t == "v\n"));
}

#[test]
fn the_ring_decides_ownership_not_the_snapshot() {
    let ring = HashRing::build(two_nodes(), 16);
    let mut snapshot = Membership::new(s("A"), s("10.0.0.1:8080"));
    snapshot.receive("OK:B", s("somewhere:else"));
    let mut storage = InMemoryStorage::new();
    let key = key_of(&ring, "B", "k");
    let forward = relay(handle_request(&format!("READ {}", key), "A", &ring, &snapshot, &mut storage));
    assert_eq!(forward.address, "10.0.0.2:8081");
    let own = key_of(&ring, "A", "k");
    snapshot.record_contact("A", false);
    assert_eq!(
        reply(handle_request(&format!("PUT {} v", own), "A", &ring, &snapshot, &mut storage)),
        "OK\n"
    );
}

#[test]
fn aggregate_classifies_by_literal_prefix() {
    let r = |items: &[&str]| -> Vec<String> { items.iter().map(|t| t.to_string()).collect() };
    assert_eq!(aggregate(&r(&[])), "OK\n");
    assert_eq!(aggregate(&r(&["OK\n"])), "OK\n");
    assert_eq!(aggregate(&r(&["OK\n", "OK\n", "OK\n"])), "OK\n");
    assert_eq!(aggregate(&r(&["OK\n", "Error: x\n"])), "Partial OK\n");
    assert_eq!(aggregate(&r(&["Failed to connect to B: refused", "OK\n"])), "Partial OK\n");
    assert_eq!(aggregate(&r(&["OK"])), "Partial OK\n");
    assert_eq!(aggregate(&r(&["OKAY then"])), "Partial OK\n");
    assert_eq!(aggregate(&r(&["Partial OK\n"])), "Error: Partial OK\n\n");
    assert_eq!(aggregate(&r(&["Error: x\n"])), "Error: Error: x\n\n");
    assert_eq!(
        aggregate(&r(&["Failed to connect to B: refused", "Error: disk\n"])),
        "Error: Failed to connect to B: refused; Error: disk\n\n"
    );
    assert_eq!(aggregate(&r(&["", " OK\n"])), "Error: ;  OK\n\n");
}

#[test]
fn finish_batch_puts_the_local_answer_last() {
    assert_eq!(finish_batch(vec![], s("OK\n")), "OK\n");
    assert_eq!(finish_batch(vec![s("OK\n")], s("OK\n")), "OK\n");
    assert_eq!(finish_batch(vec![s("down")], s("OK\n")), "Partial OK\n");
    assert_eq!(finish_batch(vec![s("down"), s("out")], s("Error: full\n")), "Error: down; out; Error: full\n\n");
}

#[test]
fn responses_have_their_exact_text() {
    assert_eq!(status_response(Ok(())), "OK\n");
    assert_eq!(status_response(Err(s("Key not found"))), "Error: Key not found\n");
    assert_eq!(error_response(""), "Error: \n");
    assert_eq!(read_response(Ok(s("value"))), "value\n");
    assert_eq!(read_response(Ok(s(""))), "\n");
    assert_eq!(read_response(Err(s("Key not found"))), "Error: Key not found\n");
    assert_eq!(range_response(Ok(vec![])), "");
    assert_eq!(
        range_response(Ok(vec![(s("b"), s("2")), (s("a"), s("1"))])),
        "b 2\na 1\n"
    );
    assert_eq!(range_response(Err(s("closed"))), "Error: closed\n");
}

#[test]
fn failure_texts() {
    assert_eq!(
        failure_response(ForwardPhase::Connect, "B", "connection refused"),
        "Failed to connect to B: connection refused"
    );
    assert_eq!(
        failure_response(ForwardPhase::Send, "B", "broken pipe"),
        "Failed to send command to B: broken pipe"
    );
    assert_eq!(
        failure_response(ForwardPhase::Shutdown, "B", "not connected"),
        "Failed to shutdown write side: not connected"
    );
    assert_eq!(
        failure_response(ForwardPhase::Read, "B", "reset"),
        "Failed to read response from B: reset"
    );
    assert!(!failure_response(ForwardPhase::Connect, "B", "x").starts_with("Error:"));
}

#[test]
fn forward_names_the_configured_address() {
    let b = node("B", "10.0.0.2", "8081");
    assert_eq!(forward_address(&b), "10.0.0.2:8081");
    let forward = forward_to(&b, &Command::Put(s("k"), s("v")));
    assert_eq!(forward.node_id, "B");
    assert_eq!(forward.address, "10.0.0.2:8081");
    assert_eq!(forward.payload, "PUT k v\n");
}
