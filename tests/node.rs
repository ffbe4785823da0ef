use std::collections::VecDeque;

use gossipers::address::Address;
use gossipers::neighborhood::Suspicion;
use gossipers::node::{Event, Message, Node, Payload, Trigger};

fn peer(port: u16) -> Address {
    Address::localhost(port)
}

fn sorted(mut v: Vec<Address>) -> Vec<Address> {
    v.sort_by_key(|a| (a.ip, a.port));
    v
}

fn step(node: &mut Node, event: Event, now: u64) -> Vec<Message> {
    assert!(node.has_room(&event));
    node.step(event, now)
}

fn trigger(node: &mut Node, t: Trigger, now: u64) -> Vec<Message> {
    step(node, Event::Trigger(t), now)
}

/// Delivers messages among `nodes` until none is left in flight. Messages to an
/// address no node listens on are dropped.
fn settle(nodes: &mut [Node], first: Vec<Message>, now: u64) {
    let mut flight: VecDeque<Message> = first.into_iter().collect();
    while let Some(m) = flight.pop_front() {
        if let Some(n) = nodes.iter_mut().find(|n| n.addr_of() == m.dst) {
            for out in step(n, Event::Message(m), now) {
                flight.push_back(out);
            }
        }
    }
}

fn known(node: &Node) -> Vec<Address> {
    sorted(node.neighbourhood().get_all_neighbors())
}

fn msg(src: u16, dst: u16, id: u32, reply_to: Option<u32>, payload: Payload) -> Message {
    Message { src: peer(src), dst: peer(dst), id, reply_to, payload }
}

#[test]
fn register_trigger_sends_register() {
    let mut n = Node::new(peer(9002));
    let out = trigger(&mut n, Trigger::Register(peer(9001)), 0);
    assert_eq!(out.len(), 1);
    assert_eq!(out[0].src, peer(9002));
    assert_eq!(out[0].dst, peer(9001));
    assert_eq!(out[0].id, 1);
    assert_eq!(out[0].reply_to, None);
    assert!(matches!(out[0].payload, Payload::Register));
    assert_eq!(n.last_id(), 1);
    assert_eq!(n.awaiting_reply().len(), 1);
    assert_eq!(n.awaiting_reply()[0].id, 1);
    assert_eq!(n.awaiting_reply()[0].dst, peer(9001));
    assert!(n.neighbourhood().is_registered(&peer(9001)));
}

#[test]
fn register_message_answers_with_prior_neighbors() {
    let mut n = Node::new(peer(9001));
    trigger(&mut n, Trigger::Register(peer(9003)), 0);
    let out = step(&mut n, Event::Message(msg(9002, 9001, 7, None, Payload::Register)), 0);
    assert_eq!(out.len(), 1);
    assert_eq!(out[0].dst, peer(9002));
    assert_eq!(out[0].reply_to, Some(7));
    match &out[0].payload {
        Payload::RegisterOk { known } => assert_eq!(known, &vec![peer(9003)]),
        _ => panic!("expected RegisterOk"),
    }
    assert_eq!(known(&n), vec![peer(9002), peer(9003)]);
    // Answers are not awaited.
    assert_eq!(n.awaiting_reply().len(), 1);
}

#[test]
fn bootstrap_pairs_two_nodes() {
    let mut nodes = vec![Node::new(peer(9001)), Node::new(peer(9002))];
    let first = trigger(&mut nodes[1], Trigger::Register(peer(9001)), 0);
    settle(&mut nodes, first, 0);
    assert_eq!(sorted(nodes[0].neighbourhood().select_gossipers()), vec![peer(9002)]);
    assert_eq!(sorted(nodes[1].neighbourhood().select_gossipers()), vec![peer(9001)]);
    assert!(nodes[1].awaiting_reply().is_empty());

    let mut out = trigger(&mut nodes[0], Trigger::GossipRandom, 1000);
    out.extend(trigger(&mut nodes[1], Trigger::GossipRandom, 1000));
    assert_eq!(out.len(), 2);
    assert_eq!(nodes[0].awaiting_reply().len(), 1);
    settle(&mut nodes, out, 1000);
    assert!(nodes[0].awaiting_reply().is_empty());
    assert!(nodes[1].awaiting_reply().is_empty());
}

#[test]
fn transitive_discovery_of_three_nodes() {
    let mut nodes = vec![Node::new(peer(9001)), Node::new(peer(9002)), Node::new(peer(9003))];
    let first = trigger(&mut nodes[1], Trigger::Register(peer(9001)), 0);
    settle(&mut nodes, first, 0);
    let first = trigger(&mut nodes[2], Trigger::Register(peer(9001)), 0);
    settle(&mut nodes, first, 0);
    assert_eq!(known(&nodes[2]), vec![peer(9001), peer(9002)]);
    assert_eq!(known(&nodes[1]), vec![peer(9001), peer(9003)]);
    assert_eq!(known(&nodes[0]), vec![peer(9002), peer(9003)]);
}

#[test]
fn membership_closes_over_a_chain() {
    let ports: Vec<u16> = (9001..=9005).collect();
    let mut nodes: Vec<Node> = ports.iter().map(|p| Node::new(peer(*p))).collect();
    // Each node bootstraps from the one started before it.
    for i in 1..nodes.len() {
        let first = trigger(&mut nodes[i], Trigger::Register(peer(ports[i - 1])), 0);
        settle(&mut nodes, first, 0);
    }
    for (i, n) in nodes.iter().enumerate() {
        let others: Vec<Address> =
            ports.iter().filter(|p| **p != ports[i]).map(|p| peer(*p)).collect();
        assert_eq!(known(n), others);
    }
}

#[test]
fn register_ok_registers_only_newcomers() {
    let mut n = Node::new(peer(9003));
    let out = trigger(&mut n, Trigger::Register(peer(9001)), 0);
    let reply = msg(
        9001,
        9003,
        4,
        Some(out[0].id),
        Payload::RegisterOk { known: vec![peer(9002), peer(9001), peer(9002), peer(9003)] },
    );
    let out = step(&mut n, Event::Message(reply), 0);
    let dsts: Vec<Address> = out.iter().map(|m| m.dst).collect();
    assert_eq!(dsts, vec![peer(9002), peer(9003)]);
    assert!(out.iter().all(|m| matches!(m.payload, Payload::Register) && m.reply_to.is_none()));
    assert_eq!(out[0].id, 2);
    assert_eq!(out[1].id, 3);
    let ids: Vec<u32> = n.awaiting_reply().iter().map(|p| p.id).collect();
    assert_eq!(ids, vec![2, 3]);
}

#[test]
fn strikes_make_a_suspect() {
    let mut n = Node::new(peer(9001));
    step(&mut n, Event::Message(msg(9999, 9001, 1, None, Payload::Register)), 0);
    for _ in 0..2 {
        assert!(trigger(&mut n, Trigger::Strike(peer(9999)), 0).is_empty());
    }
    assert!(n.neighbourhood().get_suspects().is_empty());
    trigger(&mut n, Trigger::Strike(peer(9999)), 0);
    assert_eq!(n.neighbourhood().get_suspects(), vec![peer(9999)]);
}

#[test]
fn gossip_suspects_only_when_suspecting() {
    let mut n = Node::new(peer(9001));
    trigger(&mut n, Trigger::Register(peer(9002)), 0);
    trigger(&mut n, Trigger::Register(peer(9999)), 0);
    assert!(trigger(&mut n, Trigger::GossipSuspects, 0).is_empty());
    for _ in 0..3 {
        trigger(&mut n, Trigger::Strike(peer(9999)), 0);
    }
    let out = trigger(&mut n, Trigger::GossipSuspects, 0);
    assert_eq!(sorted(out.iter().map(|m| m.dst).collect()), vec![peer(9002), peer(9999)]);
    for m in &out {
        match &m.payload {
            Payload::GossipSuspect { suspects } => assert_eq!(suspects, &vec![peer(9999)]),
            _ => panic!("expected GossipSuspect"),
        }
    }
}

#[test]
fn gossip_carries_the_scoop() {
    let mut n = Node::new(peer(9001));
    trigger(&mut n, Trigger::Register(peer(9002)), 0);
    let out = trigger(&mut n, Trigger::GossipRandom, 0);
    assert_eq!(out.len(), 1);
    match &out[0].payload {
        Payload::GossipRandom { message } => {
            assert_eq!(message, "Some spicy scoop from 127.0.0.1:9001")
        }
        _ => panic!("expected GossipRandom"),
    }
    assert_eq!(out[0].id, 2);
}

#[test]
fn gossip_random_is_answered() {
    let mut n = Node::new(peer(9002));
    let m = msg(9001, 9002, 5, None, Payload::GossipRandom { message: "hi".to_string() });
    let out = step(&mut n, Event::Message(m), 0);
    assert_eq!(out.len(), 1);
    assert_eq!(out[0].dst, peer(9001));
    assert_eq!(out[0].reply_to, Some(5));
    assert!(matches!(out[0].payload, Payload::GossipRandomOk));
    assert!(n.awaiting_reply().is_empty());
}

#[test]
fn reply_timeout_charges_the_peer() {
    let mut n = Node::new(peer(9001));
    trigger(&mut n, Trigger::Register(peer(9002)), 0);
    // The Register itself goes unanswered as well.
    let mut now = 0;
    for round in 1..=3u8 {
        trigger(&mut n, Trigger::GossipRandom, now);
        let id = n.last_id();
        assert!(n.awaiting_reply().iter().any(|p| p.id == id));
        // Not yet stale.
        trigger(&mut n, Trigger::CheckReplies, now + 10_000);
        assert!(n.awaiting_reply().iter().any(|p| p.id == id));
        now += 11_000;
        assert!(trigger(&mut n, Trigger::CheckReplies, now).is_empty());
        assert!(n.awaiting_reply().is_empty());
        let s = n.neighbourhood().suspicion(&peer(9002)).unwrap();
        assert_eq!(s.reply, std::cmp::min(round + 1, 3));
    }
    assert_eq!(n.neighbourhood().get_suspects(), vec![peer(9002)]);
}

#[test]
fn answer_clears_reply_charges() {
    let mut n = Node::new(peer(9001));
    trigger(&mut n, Trigger::Register(peer(9002)), 0);
    trigger(&mut n, Trigger::CheckReplies, 20_000);
    assert_eq!(n.neighbourhood().suspicion(&peer(9002)), Some(Suspicion { connection: 0, reply: 1 }));
    let out = trigger(&mut n, Trigger::GossipRandom, 20_000);
    let id = out[0].id;
    step(&mut n, Event::Message(msg(9002, 9001, 1, Some(id), Payload::GossipRandomOk)), 20_001);
    assert_eq!(n.neighbourhood().suspicion(&peer(9002)), Some(Suspicion { connection: 0, reply: 0 }));
    assert!(n.awaiting_reply().is_empty());
}

#[test]
fn misaddressed_reply_is_dropped_without_dismissal() {
    let mut n = Node::new(peer(9001));
    trigger(&mut n, Trigger::Register(peer(9002)), 0);
    trigger(&mut n, Trigger::Register(peer(9003)), 0);
    trigger(&mut n, Trigger::CheckReplies, 20_000);
    let out = trigger(&mut n, Trigger::GossipRandom, 20_000);
    let to_9002 = out.iter().find(|m| m.dst == peer(9002)).unwrap().id;
    // 9003 answers the request that went to 9002.
    step(&mut n, Event::Message(msg(9003, 9001, 1, Some(to_9002), Payload::GossipRandomOk)), 20_001);
    assert!(!n.awaiting_reply().iter().any(|p| p.id == to_9002));
    assert_eq!(n.awaiting_reply().len(), 1);
    assert_eq!(n.neighbourhood().suspicion(&peer(9002)).unwrap().reply, 1);
    assert_eq!(n.neighbourhood().suspicion(&peer(9003)).unwrap().reply, 1);
}

#[test]
fn unexpected_or_bare_reply_changes_nothing() {
    let mut n = Node::new(peer(9001));
    trigger(&mut n, Trigger::Register(peer(9002)), 0);
    step(&mut n, Event::Message(msg(9002, 9001, 1, Some(42), Payload::GossipSuspectOk)), 0);
    step(&mut n, Event::Message(msg(9002, 9001, 2, None, Payload::GossipRandomOk)), 0);
    assert_eq!(n.awaiting_reply().len(), 1);
    assert_eq!(n.last_id(), 1);
}

#[test]
fn any_message_clears_connection_charges() {
    let mut n = Node::new(peer(9001));
    trigger(&mut n, Trigger::Register(peer(9002)), 0);
    for _ in 0..3 {
        trigger(&mut n, Trigger::Strike(peer(9002)), 0);
    }
    assert_eq!(n.neighbourhood().get_suspects(), vec![peer(9002)]);
    step(&mut n, Event::Message(msg(9002, 9001, 9, Some(99), Payload::GossipSuspectOk)), 0);
    assert_eq!(n.neighbourhood().suspicion(&peer(9002)).unwrap().connection, 0);
    assert!(n.neighbourhood().get_suspects().is_empty());
}

#[test]
fn register_twice_leaves_neighborhood_alone() {
    let mut n = Node::new(peer(9002));
    trigger(&mut n, Trigger::Register(peer(9003)), 0);
    step(&mut n, Event::Message(msg(9001, 9002, 1, None, Payload::Register)), 0);
    let first = known(&n);
    let out = step(&mut n, Event::Message(msg(9001, 9002, 2, None, Payload::Register)), 0);
    assert_eq!(known(&n), first);
    assert_eq!(first, vec![peer(9001), peer(9003)]);
    match &out[0].payload {
        Payload::RegisterOk { known } => assert_eq!(sorted(known.clone()), first),
        _ => panic!("expected RegisterOk"),
    }
}

#[test]
fn quorum_eviction_then_recovery() {
    let mut n = Node::new(peer(9001));
    for port in 9002..=9005 {
        trigger(&mut n, Trigger::Register(peer(port)), 0);
    }
    for (i, accuser) in (9002..=9004).enumerate() {
        let m = msg(accuser, 9001, 1, None, Payload::GossipSuspect { suspects: vec![peer(9005)] });
        let out = step(&mut n, Event::Message(m), 0);
        assert_eq!(out.len(), 1);
        assert_eq!(out[0].reply_to, Some(1));
        assert!(matches!(out[0].payload, Payload::GossipSuspectOk));
        let online = n.neighbourhood().select_gossipers().contains(&peer(9005));
        assert_eq!(online, i < 2);
    }
    let out = trigger(&mut n, Trigger::GossipRandom, 0);
    assert_eq!(sorted(out.iter().map(|m| m.dst).collect()), vec![peer(9002), peer(9003), peer(9004)]);

    step(&mut n, Event::Message(msg(9005, 9001, 1, None, Payload::Register)), 0);
    assert!(n.neighbourhood().select_gossipers().contains(&peer(9005)));
    assert_eq!(n.neighbourhood().suspicion(&peer(9005)), Some(Suspicion { connection: 0, reply: 0 }));
    assert!(n.neighbourhood().get_suspects().is_empty());
}

#[test]
fn ids_increase_across_steps() {
    let mut n = Node::new(peer(9001));
    let mut seen: Vec<u32> = Vec::new();
    for port in 9002..=9004 {
        seen.extend(trigger(&mut n, Trigger::Register(peer(port)), 0).iter().map(|m| m.id));
    }
    seen.extend(trigger(&mut n, Trigger::GossipRandom, 0).iter().map(|m| m.id));
    trigger(&mut n, Trigger::Strike(peer(9002)), 0);
    seen.extend(
        step(&mut n, Event::Message(msg(9005, 9001, 3, None, Payload::Register)), 0)
            .iter()
            .map(|m| m.id),
    );
    assert_eq!(seen, (1..=7).collect::<Vec<u32>>());
    assert_eq!(n.last_id(), 7);
    // Requests still awaited: three registers and three gossips.
    let ids: Vec<u32> = n.awaiting_reply().iter().map(|p| p.id).collect();
    assert_eq!(ids, vec![1, 2, 3, 4, 5, 6]);
}

#[test]
fn requires_reply_by_kind() {
    assert!(Payload::Register.requires_reply());
    assert!(Payload::GossipRandom { message: String::new() }.requires_reply());
    assert!(Payload::GossipSuspect { suspects: vec![] }.requires_reply());
    assert!(!Payload::RegisterOk { known: vec![] }.requires_reply());
    assert!(!Payload::GossipRandomOk.requires_reply());
    assert!(!Payload::GossipSuspectOk.requires_reply());
}

#[test]
fn strike_on_unknown_peer_is_ignored() {
    let mut n = Node::new(peer(9001));
    trigger(&mut n, Trigger::Strike(peer(9002)), 0);
    assert!(!n.neighbourhood().is_registered(&peer(9002)));
}
