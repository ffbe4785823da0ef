use gossipers::address::Address;
use gossipers::neighborhood::{Charge, Neighborhood, Suspicion, SUSPICION_THRESHOLD};
use gossipers::neighbourhood::Neighbourhood;

fn peer(port: u16) -> Address {
    Address::localhost(port)
}

fn sorted(mut v: Vec<Address>) -> Vec<Address> {
    v.sort_by_key(|a| (a.ip, a.port));
    v
}

#[test]
fn suspicion_counts_each_charge_apart() {
    let mut s = Suspicion::new();
    s.accuse(Charge::Connection);
    s.accuse(Charge::Connection);
    assert_eq!(s, Suspicion { connection: 2, reply: 0 });
    assert!(!s.is_suspicious());
    s.accuse(Charge::Reply);
    assert_eq!(s, Suspicion { connection: 2, reply: 1 });
    s.accuse(Charge::Connection);
    assert!(s.is_suspicious());
    s.object(Charge::Connection);
    assert_eq!(s, Suspicion { connection: 0, reply: 1 });
    assert!(!s.is_suspicious());
}

#[test]
fn suspicion_stops_at_threshold() {
    let mut s = Suspicion::new();
    for _ in 0..10 {
        s.accuse(Charge::Reply);
    }
    assert_eq!(s.reply, SUSPICION_THRESHOLD);
    assert!(s.is_suspicious());
}

#[test]
fn jury_ruling_sets_both_counters() {
    let mut s = Suspicion::new();
    s.jury_ruling();
    assert_eq!(s, Suspicion { connection: 3, reply: 3 });
}

#[test]
fn register_and_lookup() {
    let mut n = Neighborhood::new();
    assert!(!n.is_registered(&peer(9001)));
    n.register(peer(9001));
    n.register(peer(9002));
    n.register(peer(9001));
    assert!(n.is_registered(&peer(9001)));
    assert!(n.is_registered(&peer(9002)));
    assert!(!n.is_registered(&peer(9003)));
    assert_eq!(n.len(), 2);
    assert_eq!(sorted(n.get_all_neighbors()), vec![peer(9001), peer(9002)]);
    assert_eq!(sorted(n.select_gossipers()), vec![peer(9001), peer(9002)]);
    assert!(n.get_suspects().is_empty());
}

#[test]
fn default_is_empty() {
    let n = Neighborhood::default();
    assert_eq!(n.len(), 0);
    assert!(n.get_all_neighbors().is_empty());
}

#[test]
fn three_strikes_make_a_suspect() {
    let mut n = Neighborhood::new();
    n.register(peer(9999));
    n.register(peer(9002));
    n.accuse(peer(9999), Charge::Connection);
    n.accuse(peer(9999), Charge::Connection);
    assert!(n.get_suspects().is_empty());
    n.accuse(peer(9999), Charge::Connection);
    assert_eq!(n.get_suspects(), vec![peer(9999)]);
    // A suspicious peer is still gossiped with.
    assert_eq!(sorted(n.select_gossipers()), vec![peer(9002), peer(9999)]);
}

#[test]
fn accuse_unknown_is_ignored() {
    let mut n = Neighborhood::new();
    n.register(peer(9001));
    for _ in 0..3 {
        n.accuse(peer(9005), Charge::Connection);
    }
    assert!(!n.is_registered(&peer(9005)));
    assert!(n.get_suspects().is_empty());
    assert_eq!(n.suspicion(&peer(9005)), None);
}

#[test]
fn accuse_then_dismiss_clears_counter() {
    let mut n = Neighborhood::new();
    n.register(peer(9001));
    n.accuse(peer(9001), Charge::Reply);
    n.accuse(peer(9001), Charge::Connection);
    n.dismiss(peer(9001), Charge::Reply);
    assert_eq!(n.suspicion(&peer(9001)), Some(Suspicion { connection: 1, reply: 0 }));
}

#[test]
fn reregister_resets_suspicion() {
    let mut n = Neighborhood::new();
    n.register(peer(9001));
    for _ in 0..3 {
        n.accuse(peer(9001), Charge::Reply);
    }
    assert_eq!(n.get_suspects(), vec![peer(9001)]);
    n.register(peer(9001));
    assert!(n.get_suspects().is_empty());
    assert_eq!(n.suspicion(&peer(9001)), Some(Suspicion { connection: 0, reply: 0 }));
}

fn five_nodes() -> Neighborhood {
    let mut n = Neighborhood::new();
    for port in 9001..=9005 {
        n.register(peer(port));
    }
    n
}

#[test]
fn quorum_eviction_and_recovery() {
    let mut n = five_nodes();
    n.report(vec![peer(9005)], peer(9002));
    n.report(vec![peer(9005)], peer(9003));
    assert_eq!(sorted(n.select_gossipers()).len(), 5);
    n.report(vec![peer(9005)], peer(9004));
    assert_eq!(
        sorted(n.select_gossipers()),
        vec![peer(9001), peer(9002), peer(9003), peer(9004)]
    );
    assert_eq!(n.suspicion(&peer(9005)), Some(Suspicion { connection: 3, reply: 3 }));
    assert_eq!(n.get_suspects(), vec![peer(9005)]);

    // Recovery by a fresh registration.
    n.register(peer(9005));
    assert_eq!(sorted(n.select_gossipers()).len(), 5);
    assert!(n.get_suspects().is_empty());
    assert_eq!(n.suspicion(&peer(9005)), Some(Suspicion { connection: 0, reply: 0 }));
}

#[test]
fn withdrawn_report_brings_peer_back() {
    let mut n = five_nodes();
    for accuser in 9002..=9004 {
        n.report(vec![peer(9005)], peer(accuser));
    }
    assert_eq!(n.select_gossipers().len(), 4);
    // 9004 no longer suspects 9005: two of five is no majority.
    n.report(vec![], peer(9004));
    assert_eq!(n.select_gossipers().len(), 5);
}

#[test]
fn two_nodes_never_evict_each_other() {
    let mut n = Neighborhood::new();
    n.register(peer(9001));
    n.register(peer(9002));
    n.report(vec![peer(9001), peer(9002)], peer(9001));
    n.report(vec![peer(9001), peer(9002)], peer(9002));
    assert_eq!(n.select_gossipers().len(), 2);
}

#[test]
fn report_of_same_accuser_counts_once() {
    let mut n = five_nodes();
    for _ in 0..5 {
        n.report(vec![peer(9005), peer(9005)], peer(9002));
    }
    assert_eq!(n.select_gossipers().len(), 5);
}

#[test]
fn british_spelling_names_the_same_neighborhood() {
    let mut n: Neighbourhood = Neighbourhood::new();
    n.register(peer(9001));
    n.accuse(peer(9001), gossipers::neighbourhood::Charge::Connection);
    assert_eq!(n.get_all_neighbours(), vec![peer(9001)]);
    assert_eq!(n.suspicion(&peer(9001)), Some(Suspicion { connection: 1, reply: 0 }));
}

#[test]
fn address_renders_dotted() {
    assert_eq!(Address::localhost(9001).render(), "127.0.0.1:9001");
    assert_eq!(Address::new(0x0a00_00ff, 0).render(), "10.0.0.255:0");
    assert_eq!(Address::new(0xffff_ffff, 65535).render(), "255.255.255.255:65535");
}
