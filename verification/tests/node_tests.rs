use fab::error::FabError;
use fab::node::{ack_byte, ack_seen, BroadcastRound, Node, NodeAddr, NodeSet};

fn addr(port: u16) -> NodeAddr {
    NodeAddr { v6: false, ip: 0x7f00_0001, port, flowinfo: 0, scope_id: 0 }
}

fn node(port: u16) -> Node {
    Node::new(addr(port), None)
}

fn ports(s: &NodeSet) -> Vec<u16> {
    (0..s.len()).map(|i| s.get(i).unwrap().address.port).collect()
}

#[test]
fn ack_bytes() {
    assert_eq!(ack_byte(true), 0);
    assert_eq!(ack_byte(false), 1);
    assert!(!ack_seen(0));
    assert!(ack_seen(1));
    assert!(ack_seen(7));
    assert_eq!(ack_seen(ack_byte(true)), false);
    assert_eq!(ack_seen(ack_byte(false)), true);
}

#[test]
fn node_new_keeps_fields() {
    let n = Node::new(addr(8080), Some(()));
    assert_eq!(n.address, addr(8080));
    assert_eq!(n.public_key, Some(()));
    assert_eq!(addr(8080).key(), (false, 0x7f00_0001, 8080, 0, 0));
}

#[test]
fn insert_appends_and_replaces_in_place() {
    let mut s = NodeSet::new();
    assert_eq!(s.len(), 0);
    assert!(s.insert(node(1)).is_none());
    assert!(s.insert(node(2)).is_none());
    assert!(s.insert(node(3)).is_none());
    assert_eq!(ports(&s), vec![1, 2, 3]);
    let replaced = s.insert(Node::new(addr(2), Some(())));
    assert_eq!(replaced, Some(node(2)));
    assert_eq!(ports(&s), vec![1, 2, 3]);
    assert_eq!(s.get(1).unwrap().public_key, Some(()));
    assert!(s.get(3).is_none());
}

#[test]
fn remove_moves_last_into_gap() {
    let mut s = NodeSet::new();
    for p in 1..=4 {
        s.insert(node(p));
    }
    assert_eq!(s.remove(addr(2)), Some(node(2)));
    assert_eq!(ports(&s), vec![1, 4, 3]);
    assert_eq!(s.remove(addr(2)), None);
    assert_eq!(ports(&s), vec![1, 4, 3]);
    assert_eq!(s.remove(addr(3)), Some(node(3)));
    assert_eq!(ports(&s), vec![1, 4]);
}

#[test]
fn addresses_differing_in_any_field_are_distinct() {
    let mut s = NodeSet::new();
    s.insert(Node::new(NodeAddr { v6: false, ip: 1, port: 9, flowinfo: 0, scope_id: 0 }, None));
    s.insert(Node::new(NodeAddr { v6: true, ip: 1, port: 9, flowinfo: 0, scope_id: 0 }, None));
    s.insert(Node::new(NodeAddr { v6: true, ip: 1, port: 9, flowinfo: 0, scope_id: 2 }, None));
    s.insert(Node::new(NodeAddr { v6: true, ip: 1, port: 9, flowinfo: 3, scope_id: 2 }, None));
    assert_eq!(s.len(), 4);
}

#[test]
fn snapshot_is_independent_copy() {
    let mut s = NodeSet::new();
    s.insert(node(1));
    s.insert(node(2));
    let c = s.snapshot();
    s.remove(addr(1));
    assert_eq!(ports(&c), vec![1, 2]);
    assert_eq!(ports(&s), vec![2]);
}

#[test]
fn round_over_no_nodes_is_over() {
    let r = BroadcastRound::new(NodeSet::new());
    assert!(r.next_target().is_none());
    assert_eq!(r.remaining_len(), 0);
}

#[test]
fn round_stops_when_node_has_seen_message() {
    let mut s = NodeSet::new();
    s.insert(node(1));
    s.insert(node(2));
    let mut r = BroadcastRound::new(s);
    let (i, n) = r.next_target().unwrap();
    assert!(i < 2);
    assert_eq!(n.address.port as usize, i + 1);
    assert!(r.record_reply(i, Ok(true)));
    assert_eq!(r.remaining_len(), 2);
}

#[test]
fn round_drops_nodes_that_fail_or_had_not_seen() {
    let mut s = NodeSet::new();
    for p in 1..=3 {
        s.insert(node(p));
    }
    let mut r = BroadcastRound::new(s);
    let mut tried = Vec::new();
    let mut steps = 0;
    while let Some((i, n)) = r.next_target() {
        assert!(!tried.contains(&n.address.port));
        tried.push(n.address.port);
        let reply = if steps == 0 {
            Err(FabError::NotListeningError)
        } else {
            Ok(false)
        };
        assert!(!r.record_reply(i, reply));
        steps += 1;
        assert_eq!(r.remaining_len(), 3 - steps);
    }
    assert_eq!(steps, 3);
    tried.sort();
    assert_eq!(tried, vec![1, 2, 3]);
}

#[test]
fn record_reply_swaps_last_into_place() {
    let mut s = NodeSet::new();
    for p in 1..=3 {
        s.insert(node(p));
    }
    let mut r = BroadcastRound::new(s);
    assert!(!r.record_reply(0, Ok(false)));
    let mut left: Vec<u16> = Vec::new();
    while let Some((i, n)) = r.next_target() {
        left.push(n.address.port);
        r.record_reply(i, Ok(false));
    }
    left.sort();
    assert_eq!(left, vec![2, 3]);
}

#[test]
fn address_constructors_and_well_formedness() {
    let a = NodeAddr::v4(0x7f00_0001, 80);
    assert_eq!(a, NodeAddr { v6: false, ip: 0x7f00_0001, port: 80, flowinfo: 0, scope_id: 0 });
    assert!(a.is_wf());
    let b = NodeAddr::v6(1, 80, 7, 9);
    assert_eq!(b, NodeAddr { v6: true, ip: 1, port: 80, flowinfo: 7, scope_id: 9 });
    assert!(b.is_wf());
    assert!(!NodeAddr { v6: false, ip: 1 << 40, port: 80, flowinfo: 0, scope_id: 0 }.is_wf());
    assert!(!NodeAddr { v6: false, ip: 1, port: 80, flowinfo: 1, scope_id: 0 }.is_wf());
    assert!(!NodeAddr { v6: false, ip: 1, port: 80, flowinfo: 0, scope_id: 1 }.is_wf());
}
