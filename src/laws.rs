//! Laws of the node's state machine, proved over the outcomes that `Node::step`
//! guarantees.
use vstd::prelude::*;

use crate::address::Address;
use crate::neighborhood::{
    after_accuse, after_dismiss, after_register, after_report, counter, lemma_charges_keep_votes,
    Charge, NeighborView, Suspicion,
};
use crate::node::{
    accuse_each, after_reply, joined, message_outcome, newcomers, stamped, step_outcome,
    timed_out, Event, Message, Node, Payload, Pending, Trigger,
};

verus! {

/// What every step shows of the ids: the batch takes the next ids in order.
pub proof fn lemma_step_batch(before: Node, after: Node, e: Event, now: u64, r: Seq<Message>)
    requires
        step_outcome(before, after, e, now, r),
    ensures
        after.addr() == before.addr(),
        after.next_id() == before.next_id() + r.len(),
        stamped(r, before.next_id(), before.addr()),
{
    match e {
        Event::Trigger(t) => match t {
            Trigger::Register(_) => {},
            Trigger::GossipRandom => {},
            Trigger::GossipSuspects => {},
            Trigger::Strike(_) => {},
            Trigger::CheckReplies => {},
        },
        Event::Message(m) => match m.payload {
            Payload::Register => {},
            Payload::RegisterOk { .. } => {},
            Payload::GossipRandom { .. } => {},
            Payload::GossipSuspect { .. } => {},
            Payload::GossipRandomOk => {},
            Payload::GossipSuspectOk => {},
        },
    }
}

/// Ids never repeat: over two consecutive steps the last id used only grows, and
/// grows with every message sent; within a batch ids increase, and every id of
/// the later batch is above every id of the earlier one.
pub proof fn lemma_ids_never_repeat(
    n0: Node,
    n1: Node,
    n2: Node,
    e1: Event,
    e2: Event,
    t1: u64,
    t2: u64,
    r1: Seq<Message>,
    r2: Seq<Message>,
)
    requires
        step_outcome(n0, n1, e1, t1, r1),
        step_outcome(n1, n2, e2, t2, r2),
    ensures
        n0.next_id() <= n1.next_id() <= n2.next_id(),
        r1.len() > 0 ==> n0.next_id() < n1.next_id(),
        forall|i: int, j: int| 0 <= i < j < r1.len() ==> r1[i].id < r1[j].id,
        forall|i: int, j: int| 0 <= i < j < r2.len() ==> r2[i].id < r2[j].id,
        forall|i: int, j: int| 0 <= i < r1.len() && 0 <= j < r2.len() ==> r1[i].id < r2[j].id,
        forall|i: int| 0 <= i < r1.len() ==> n0.next_id() < #[trigger] r1[i].id <= n1.next_id(),
{
    lemma_step_batch(n0, n1, e1, t1, r1);
    lemma_step_batch(n1, n2, e2, t2, r2);
    assert forall|i: int, j: int| 0 <= i < r1.len() && 0 <= j < r2.len() implies r1[i].id
        < r2[j].id by {
        assert(r1[i].id == n0.next_id() + i + 1);
        assert(r2[j].id == n1.next_id() + j + 1);
    }
    assert forall|i: int, j: int| 0 <= i < j < r1.len() implies r1[i].id < r1[j].id by {
        assert(r1[i].id == n0.next_id() + i + 1);
        assert(r1[j].id == n0.next_id() + j + 1);
    }
    assert forall|i: int, j: int| 0 <= i < j < r2.len() implies r2[i].id < r2[j].id by {
        assert(r2[i].id == n1.next_id() + i + 1);
        assert(r2[j].id == n1.next_id() + j + 1);
    }
}

/// A second `Register` from a peer right after its first leaves the neighborhood
/// as the first left it: the peer stands in it once, freshly registered.
pub proof fn lemma_register_twice(
    n0: Node,
    n1: Node,
    n2: Node,
    m1: Message,
    m2: Message,
    t1: u64,
    t2: u64,
    r1: Seq<Message>,
    r2: Seq<Message>,
)
    requires
        message_outcome(n0, n1, m1, t1, r1),
        message_outcome(n1, n2, m2, t2, r2),
        m1.payload is Register,
        m2.payload is Register,
        m1.src == m2.src,
    ensures
        n2.neighbors() == n1.neighbors(),
        n1.neighbors().contains_key(m1.src),
        n1.neighbors()[m1.src] == NeighborView::fresh(),
{
    let s = m1.src;
    assert(after_register(after_dismiss(n1.neighbors(), s, Charge::Connection), s)
        =~= n1.neighbors());
}

/// Handling a list of known peers registers each peer that was not known, as a
/// fresh neighbor, and changes no neighbor that was. Each newcomer is named once.
pub proof fn lemma_joined(m: Map<Address, NeighborView>, known: Seq<Address>)
    ensures
        forall|a: Address|
            #[trigger] joined(m, known).contains_key(a) <==> (m.contains_key(a) || known.contains(
                a,
            )),
        forall|a: Address| #[trigger] m.contains_key(a) ==> joined(m, known)[a] == m[a],
        forall|a: Address|
            #[trigger] joined(m, known).contains_key(a) && !m.contains_key(a) ==> joined(
                m,
                known,
            )[a] == NeighborView::fresh(),
        newcomers(m, known).no_duplicates(),
        forall|a: Address|
            #[trigger] newcomers(m, known).contains(a) <==> (known.contains(a) && !m.contains_key(
                a,
            )),
    decreases known.len(),
{
    if known.len() > 0 {
        let rest = known.drop_last();
        let x = known.last();
        lemma_joined(m, rest);
        let prev = joined(m, rest);
        let nc = newcomers(m, rest);
        assert forall|a: Address| known.contains(a) <==> (rest.contains(a) || a == x) by {
            if known.contains(a) {
                let k = choose|k: int| 0 <= k < known.len() && known[k] == a;
                if k < known.len() - 1 {
                    assert(rest[k] == a);
                }
            }
            if rest.contains(a) {
                let k = choose|k: int| 0 <= k < rest.len() && rest[k] == a;
                assert(known[k] == a);
            }
            assert(known[known.len() - 1] == x);
        }
        if !prev.contains_key(x) {
            let nc2 = nc.push(x);
            assert forall|a: Address| nc2.contains(a) <==> (nc.contains(a) || a == x) by {
                if nc2.contains(a) {
                    let k = choose|k: int| 0 <= k < nc2.len() && nc2[k] == a;
                    if k < nc.len() {
                        assert(nc[k] == a);
                    }
                }
                if nc.contains(a) {
                    let k = choose|k: int| 0 <= k < nc.len() && nc[k] == a;
                    assert(nc2[k] == a);
                }
                assert(nc2[nc.len() as int] == x);
            }
            assert(!nc.contains(x));
            assert forall|i: int, j: int| 0 <= i < j < nc2.len() implies nc2[i] != nc2[j] by {
                if j == nc.len() {
                    assert(nc.contains(nc2[i]));
                } else {
                    assert(nc2[i] == nc[i] && nc2[j] == nc[j]);
                }
            }
        }
    }
}

/// One hop of discovery: when a node answers a peer's `Register` and the peer
/// handles that answer, the node knows the peer and the peer knows every
/// neighbor the node had.
pub proof fn lemma_join_learns_mesh(
    a0: Node,
    a1: Node,
    b0: Node,
    b1: Node,
    join: Message,
    t1: u64,
    t2: u64,
    r1: Seq<Message>,
    r2: Seq<Message>,
)
    requires
        join.payload is Register,
        message_outcome(a0, a1, join, t1, r1),
        message_outcome(b0, b1, r1[0], t2, r2),
    ensures
        a1.neighbors().contains_key(join.src),
        forall|x: Address| #[trigger] a0.neighbors().contains_key(x) ==> b1.neighbors().contains_key(x),
{
    let answer = r1[0];
    let known = answer.payload->known;
    let nb1 = after_dismiss(b0.neighbors(), answer.src, Charge::Connection);
    let nb2 = after_reply(nb1, b0.awaiting(), answer.reply_to, answer.src);
    lemma_joined(nb2, known@);
    assert forall|x: Address| #[trigger] a0.neighbors().contains_key(x) implies b1.neighbors().contains_key(x) by {
        assert(known@.to_set().contains(x));
    }
}

/// What charges an event brings: strikes feed connection counters, stale
/// requests reply counters, and a report may set both.
pub open spec fn raises(e: Event, charge: Charge) -> bool {
    match e {
        Event::Trigger(Trigger::Strike(_)) => charge == Charge::Connection,
        Event::Trigger(Trigger::CheckReplies) => charge == Charge::Reply,
        Event::Message(m) => m.payload is GossipSuspect,
        _ => false,
    }
}

/// Stale requests only raise reply counters; nothing else of a neighbor changes.
proof fn lemma_accuse_each(m: Map<Address, NeighborView>, ps: Seq<Pending>)
    ensures
        accuse_each(m, ps).dom() == m.dom(),
        forall|a: Address|
            #[trigger] m.contains_key(a) ==> {
                let n = accuse_each(m, ps)[a];
                &&& n.suspicion.connection == m[a].suspicion.connection
                &&& n.suspicion.reply >= m[a].suspicion.reply
                &&& n.online == m[a].online
                &&& n.suspected_by == m[a].suspected_by
            },
    decreases ps.len(),
{
    if ps.len() > 0 {
        lemma_accuse_each(m, ps.drop_last());
        let prev = accuse_each(m, ps.drop_last());
        assert(after_accuse(prev, ps.last().dst, Charge::Reply).dom() =~= prev.dom());
    }
}

/// Between two events a suspicion counter rises only through a charge of its
/// kind or a report, and falls only back to zero.
pub proof fn lemma_counters_rise_only_by_charge(
    before: Node,
    after: Node,
    e: Event,
    now: u64,
    r: Seq<Message>,
    a: Address,
    charge: Charge,
)
    requires
        before.wf(),
        step_outcome(before, after, e, now, r),
        before.neighbors().contains_key(a),
    ensures
        after.neighbors().contains_key(a),
        counter(after.neighbors()[a].suspicion, charge) > counter(
            before.neighbors()[a].suspicion,
            charge,
        ) ==> raises(e, charge),
        counter(after.neighbors()[a].suspicion, charge) < counter(
            before.neighbors()[a].suspicion,
            charge,
        ) ==> counter(after.neighbors()[a].suspicion, charge) == 0,
{
    let nb = before.neighbors();
    before.lemma_bounded();
    match e {
        Event::Trigger(t) => match t {
            Trigger::CheckReplies => {
                lemma_accuse_each(nb, timed_out(before.awaiting(), now));
                assert(counter(after.neighbors()[a].suspicion, charge) >= counter(
                    nb[a].suspicion,
                    charge,
                ));
            },
            Trigger::Strike(_) => {
                assert(counter(after.neighbors()[a].suspicion, charge) >= counter(
                    nb[a].suspicion,
                    charge,
                ));
            },
            Trigger::Register(p) => {
                if p == a {
                    assert(after.neighbors()[a].suspicion == Suspicion::clear());
                    assert(counter(after.neighbors()[a].suspicion, charge) == 0);
                }
            },
            Trigger::GossipRandom => {},
            Trigger::GossipSuspects => {},
        },
        Event::Message(m) => {
            let nb1 = after_dismiss(nb, m.src, Charge::Connection);
            lemma_charges_keep_votes(nb, m.src, Charge::Connection);
            assert(nb1.contains_key(a));
            assert(counter(nb1[a].suspicion, charge) == counter(nb[a].suspicion, charge) || counter(
                nb1[a].suspicion,
                charge,
            ) == 0);
            match m.payload {
                Payload::Register => {},
                Payload::RegisterOk { known } => {
                    let nb2 = after_reply(nb1, before.awaiting(), m.reply_to, m.src);
                    lemma_charges_keep_votes(nb1, m.src, Charge::Reply);
                    assert(nb2.contains_key(a));
                    assert(counter(nb2[a].suspicion, charge) == counter(nb[a].suspicion, charge)
                        || counter(nb2[a].suspicion, charge) == 0);
                    lemma_joined(nb2, known@);
                    assert(after.neighbors()[a] == nb2[a]);
                },
                Payload::GossipRandom { .. } => {},
                Payload::GossipSuspect { suspects } => {
                    assert(after.neighbors() == after_report(nb1, suspects@.to_set(), m.src));
                    assert(after.neighbors().contains_key(a));
                },
                Payload::GossipRandomOk | Payload::GossipSuspectOk => {
                    lemma_charges_keep_votes(nb1, m.src, Charge::Reply);
                },
            }
        },
    }
}

/// Whatever a peer sends, its connection charges are void once the message is
/// handled, unless it was a report by which a majority takes that peer offline.
pub proof fn lemma_message_clears_connection(
    before: Node,
    after: Node,
    m: Message,
    now: u64,
    r: Seq<Message>,
)
    requires
        message_outcome(before, after, m, now, r),
        after.neighbors().contains_key(m.src),
        !(m.payload is GossipSuspect && !after.neighbors()[m.src].online),
    ensures
        after.neighbors()[m.src].suspicion.connection == 0,
{
    let nb1 = after_dismiss(before.neighbors(), m.src, Charge::Connection);
    match m.payload {
        Payload::RegisterOk { known } => {
            let nb2 = after_reply(nb1, before.awaiting(), m.reply_to, m.src);
            lemma_joined(nb2, known@);
        },
        _ => {},
    }
}

} // verus!
