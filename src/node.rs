//! The event-driven state machine of one gossip node.
use vstd::prelude::*;
use vstd::string::*;

use crate::address::{address_text, Address};
use crate::neighborhood::{
    after_accuse, after_dismiss, after_register, after_report, Charge, NeighborView, Neighborhood,
};

verus! {

/// A request that has not been answered for longer than this many milliseconds is stale.
pub const STALE_TIMEOUT_MS: u64 = 10_000;

/// What a message carries.
#[derive(Debug)]
pub enum Payload {
    Register,
    RegisterOk { known: Vec<Address> },
    GossipRandom { message: String },
    GossipRandomOk,
    GossipSuspect { suspects: Vec<Address> },
    GossipSuspectOk,
}

impl Payload {
    /// Requests wait for an answer; answers do not.
    pub open spec fn needs_reply(&self) -> bool {
        ||| self is Register
        ||| self is GossipRandom
        ||| self is GossipSuspect
    }

    pub fn requires_reply(&self) -> (r: bool)
        ensures
            r == self.needs_reply(),
    {
        match self {
            Payload::Register | Payload::GossipRandom { .. } | Payload::GossipSuspect { .. } => true,
            Payload::RegisterOk { .. } | Payload::GossipRandomOk | Payload::GossipSuspectOk => false,
        }
    }
}

/// The envelope that travels between nodes.
#[derive(Debug)]
pub struct Message {
    pub src: Address,
    pub dst: Address,
    pub id: u32,
    /// The id of the request that this message answers.
    pub reply_to: Option<u32>,
    pub payload: Payload,
}

/// Work that a node is asked to do by its own scheduler or transport.
#[derive(Clone, Copy, Debug, PartialEq, Eq, Structural)]
pub enum Trigger {
    Register(Address),
    GossipRandom,
    GossipSuspects,
    Strike(Address),
    CheckReplies,
}

#[derive(Debug)]
pub enum Event {
    Message(Message),
    Trigger(Trigger),
}

/// A request sent and not yet answered: its id, its destination and when it left,
/// in milliseconds of a monotonic clock.
#[derive(Clone, Copy, Debug, PartialEq, Eq, Structural)]
pub struct Pending {
    pub id: u32,
    pub dst: Address,
    pub sent_at: u64,
}

pub open spec fn is_stale(p: Pending, now: u64) -> bool {
    now > p.sent_at && now - p.sent_at > STALE_TIMEOUT_MS
}

/// The requests of `aw` that are not stale at `now`, in order.
pub open spec fn still_waiting(aw: Seq<Pending>, now: u64) -> Seq<Pending>
    decreases aw.len(),
{
    if aw.len() == 0 {
        aw
    } else {
        let rest = still_waiting(aw.drop_last(), now);
        if is_stale(aw.last(), now) {
            rest
        } else {
            rest.push(aw.last())
        }
    }
}

/// The requests of `aw` that are stale at `now`, in order.
pub open spec fn timed_out(aw: Seq<Pending>, now: u64) -> Seq<Pending>
    decreases aw.len(),
{
    if aw.len() == 0 {
        aw
    } else {
        let rest = timed_out(aw.drop_last(), now);
        if is_stale(aw.last(), now) {
            rest.push(aw.last())
        } else {
            rest
        }
    }
}

/// One reply charge against the destination of each request of `ps`.
pub open spec fn accuse_each(m: Map<Address, NeighborView>, ps: Seq<Pending>) -> Map<
    Address,
    NeighborView,
>
    decreases ps.len(),
{
    if ps.len() == 0 {
        m
    } else {
        after_accuse(accuse_each(m, ps.drop_last()), ps.last().dst, Charge::Reply)
    }
}

pub open spec fn has_pending(aw: Seq<Pending>, id: u32) -> bool {
    exists|k: int| 0 <= k < aw.len() && aw[k].id == id
}

pub open spec fn pending_index(aw: Seq<Pending>, id: u32) -> int {
    choose|k: int| 0 <= k < aw.len() && aw[k].id == id
}

/// The outstanding requests once an answer to `reply_to` arrived.
pub open spec fn after_answer(aw: Seq<Pending>, reply_to: Option<u32>) -> Seq<Pending> {
    match reply_to {
        Some(id) => if has_pending(aw, id) {
            aw.remove(pending_index(aw, id))
        } else {
            aw
        },
        None => aw,
    }
}

/// Whether an answer to `reply_to` from `src` is one that this node waits for, from
/// the peer it asked.
pub open spec fn answer_accepted(aw: Seq<Pending>, reply_to: Option<u32>, src: Address) -> bool {
    match reply_to {
        Some(id) => has_pending(aw, id) && aw[pending_index(aw, id)].dst == src,
        None => false,
    }
}

/// The neighborhood once an answer to `reply_to` arrived from `src`.
pub open spec fn after_reply(
    m: Map<Address, NeighborView>,
    aw: Seq<Pending>,
    reply_to: Option<u32>,
    src: Address,
) -> Map<Address, NeighborView> {
    if answer_accepted(aw, reply_to, src) {
        after_dismiss(m, src, Charge::Reply)
    } else {
        m
    }
}

/// The neighborhood once each address of `known` that it lacks was registered, in order.
pub open spec fn joined(m: Map<Address, NeighborView>, known: Seq<Address>) -> Map<
    Address,
    NeighborView,
>
    decreases known.len(),
{
    if known.len() == 0 {
        m
    } else {
        let prev = joined(m, known.drop_last());
        if prev.contains_key(known.last()) {
            prev
        } else {
            after_register(prev, known.last())
        }
    }
}

/// The addresses of `known` that `joined` registers, in order.
pub open spec fn newcomers(m: Map<Address, NeighborView>, known: Seq<Address>) -> Seq<Address>
    decreases known.len(),
{
    if known.len() == 0 {
        Seq::empty()
    } else {
        let prev = newcomers(m, known.drop_last());
        if joined(m, known.drop_last()).contains_key(known.last()) {
            prev
        } else {
            prev.push(known.last())
        }
    }
}

/// The entries recorded for the requests among `ms`, sent at `now`.
pub open spec fn issued(ms: Seq<Message>, now: u64) -> Seq<Pending>
    decreases ms.len(),
{
    if ms.len() == 0 {
        Seq::empty()
    } else {
        let prev = issued(ms.drop_last(), now);
        let m = ms.last();
        if m.payload.needs_reply() {
            prev.push(Pending { id: m.id, dst: m.dst, sent_at: now })
        } else {
            prev
        }
    }
}

pub open spec fn destinations(ms: Seq<Message>) -> Seq<Address> {
    ms.map_values(|m: Message| m.dst)
}

/// The batch `ms` carries the ids after `start`, one by one, and comes from `src`.
pub open spec fn stamped(ms: Seq<Message>, start: u32, src: Address) -> bool {
    forall|k: int|
        0 <= k < ms.len() ==> (#[trigger] ms[k]).id == start + k + 1 && ms[k].src == src
}

/// Whether this node holds any neighbor suspicious.
pub open spec fn suspects_any(m: Map<Address, NeighborView>) -> bool {
    exists|a: Address| #[trigger] m.contains_key(a) && m[a].suspicion.suspicious()
}

/// `list` names, each once, the neighbors of `m` held suspicious.
pub open spec fn lists_suspects(list: Seq<Address>, m: Map<Address, NeighborView>) -> bool {
    &&& list.no_duplicates()
    &&& forall|a: Address| list.contains(a) <==> (m.contains_key(a) && m[a].suspicion.suspicious())
}

fn copy_addresses(v: &Vec<Address>) -> (r: Vec<Address>)
    ensures
        r@ == v@,
{
    let mut r: Vec<Address> = Vec::new();
    let mut i: usize = 0;
    while i < v.len()
        invariant
            i <= v@.len(),
            r@ == v@.subrange(0, i as int),
        decreases v@.len() - i,
    {
        r.push(v[i]);
        i = i + 1;
        assert(r@ =~= v@.subrange(0, i as int));
    }
    assert(v@.subrange(0, v@.len() as int) =~= v@);
    r
}

proof fn lemma_issued_none(ms: Seq<Message>, now: u64)
    requires
        ms.len() == 0,
    ensures
        issued(ms, now) == Seq::<Pending>::empty(),
        destinations(ms) == Seq::<Address>::empty(),
{
    assert(destinations(ms) =~= Seq::<Address>::empty());
}

proof fn lemma_issued_one(ms: Seq<Message>, now: u64)
    requires
        ms.len() == 1,
    ensures
        issued(ms, now) == if ms[0].payload.needs_reply() {
            seq![Pending { id: ms[0].id, dst: ms[0].dst, sent_at: now }]
        } else {
            Seq::<Pending>::empty()
        },
{
    assert(ms.drop_last() =~= Seq::<Message>::empty());
    assert(issued(ms.drop_last(), now) == Seq::<Pending>::empty());
    assert(ms.last() == ms[0]);
    assert(Seq::<Pending>::empty().push(Pending { id: ms[0].id, dst: ms[0].dst, sent_at: now })
        =~= seq![Pending { id: ms[0].id, dst: ms[0].dst, sent_at: now }]);
}

/// What a step leaves to every event alike: the node keeps its address, the batch
/// uses the next ids in order, and the outstanding requests are `kept` followed by
/// the requests of the batch.
pub open spec fn batch(before: Node, after: Node, r: Seq<Message>, now: u64, kept: Seq<Pending>) -> bool {
    &&& after.addr() == before.addr()
    &&& after.next_id() == before.next_id() + r.len()
    &&& stamped(r, before.next_id(), before.addr())
    &&& after.awaiting() == kept + issued(r, now)
}

/// The batch is a single answer to `to`, for the request with id `id`.
pub open spec fn answers(r: Seq<Message>, to: Address, id: u32) -> bool {
    &&& r.len() == 1
    &&& r[0].dst == to
    &&& r[0].reply_to == Some(id)
}

/// The outcome of a step on a trigger.
pub open spec fn trigger_outcome(before: Node, after: Node, t: Trigger, now: u64, r: Seq<Message>) -> bool {
    let nb = before.neighbors();
    match t {
        Trigger::Register(a) => {
            &&& batch(before, after, r, now, before.awaiting())
            &&& after.neighbors() == after_register(nb, a)
            &&& r.len() == 1
            &&& r[0].dst == a
            &&& r[0].reply_to is None
            &&& r[0].payload is Register
        },
        Trigger::GossipRandom => {
            &&& batch(before, after, r, now, before.awaiting())
            &&& after.neighbors() == nb
            &&& destinations(r).no_duplicates()
            &&& forall|a: Address|
                destinations(r).contains(a) <==> (nb.contains_key(a) && nb[a].online)
            &&& forall|k: int|
                0 <= k < r.len() ==> {
                    &&& (#[trigger] r[k]).reply_to is None
                    &&& r[k].payload is GossipRandom
                    &&& r[k].payload->message@ == scoop_text(before.addr())
                }
        },
        Trigger::GossipSuspects => {
            &&& batch(before, after, r, now, before.awaiting())
            &&& after.neighbors() == nb
            &&& destinations(r).no_duplicates()
            &&& forall|a: Address|
                destinations(r).contains(a) <==> (nb.contains_key(a) && nb[a].online
                    && suspects_any(nb))
            &&& forall|k: int|
                0 <= k < r.len() ==> {
                    &&& (#[trigger] r[k]).reply_to is None
                    &&& r[k].payload is GossipSuspect
                    &&& lists_suspects(r[k].payload->suspects@, nb)
                }
        },
        Trigger::Strike(a) => {
            &&& batch(before, after, r, now, before.awaiting())
            &&& r.len() == 0
            &&& after.neighbors() == after_accuse(nb, a, Charge::Connection)
        },
        Trigger::CheckReplies => {
            &&& batch(before, after, r, now, still_waiting(before.awaiting(), now))
            &&& r.len() == 0
            &&& after.neighbors() == accuse_each(nb, timed_out(before.awaiting(), now))
        },
    }
}

/// The outcome of a step on a message `m` that arrived.
pub open spec fn message_outcome(before: Node, after: Node, m: Message, now: u64, r: Seq<Message>) -> bool {
    let aw = before.awaiting();
    let nb = after_dismiss(before.neighbors(), m.src, Charge::Connection);
    match m.payload {
        Payload::Register => {
            &&& batch(before, after, r, now, aw)
            &&& after.neighbors() == after_register(nb, m.src)
            &&& answers(r, m.src, m.id)
            &&& r[0].payload is RegisterOk
            &&& r[0].payload->known@.no_duplicates()
            &&& r[0].payload->known@.to_set() == before.neighbors().dom()
        },
        Payload::RegisterOk { known } => {
            let nb2 = after_reply(nb, aw, m.reply_to, m.src);
            &&& batch(before, after, r, now, after_answer(aw, m.reply_to))
            &&& after.neighbors() == joined(nb2, known@)
            &&& destinations(r) == newcomers(nb2, known@)
            &&& forall|k: int|
                0 <= k < r.len() ==> {
                    &&& (#[trigger] r[k]).reply_to is None
                    &&& r[k].payload is Register
                }
        },
        Payload::GossipRandom { message: _ } => {
            &&& batch(before, after, r, now, aw)
            &&& after.neighbors() == nb
            &&& answers(r, m.src, m.id)
            &&& r[0].payload is GossipRandomOk
        },
        Payload::GossipSuspect { suspects } => {
            &&& batch(before, after, r, now, aw)
            &&& after.neighbors() == after_report(nb, suspects@.to_set(), m.src)
            &&& answers(r, m.src, m.id)
            &&& r[0].payload is GossipSuspectOk
        },
        Payload::GossipRandomOk | Payload::GossipSuspectOk => {
            &&& batch(before, after, r, now, after_answer(aw, m.reply_to))
            &&& r.len() == 0
            &&& after.neighbors() == after_reply(nb, aw, m.reply_to, m.src)
        },
    }
}

/// The outcome of a step on `e`.
pub open spec fn step_outcome(before: Node, after: Node, e: Event, now: u64, r: Seq<Message>) -> bool {
    match e {
        Event::Trigger(t) => trigger_outcome(before, after, t, now, r),
        Event::Message(m) => message_outcome(before, after, m, now, r),
    }
}

/// The chatter that a node at `a` gossips.
pub open spec fn scoop_text(a: Address) -> Seq<char> {
    "Some spicy scoop from "@ + address_text(a)
}

/// One node: its address, the last id it used, what it knows of its neighbors,
/// and the requests it waits answers for.
pub struct Node {
    src: Address,
    cnt: u32,
    neighbourhood: Neighborhood,
    awaiting_reply: Vec<Pending>,
}

impl Node {
    pub closed spec fn addr(&self) -> Address {
        self.src
    }

    pub closed spec fn next_id(&self) -> u32 {
        self.cnt
    }

    pub closed spec fn neighbors(&self) -> Map<Address, NeighborView> {
        self.neighbourhood@
    }

    pub closed spec fn awaiting(&self) -> Seq<Pending> {
        self.awaiting_reply@
    }

    /// The outstanding requests, in the order they were sent, carry increasing
    /// ids, none above the last id used.
    pub closed spec fn wf(&self) -> bool {
        &&& self.neighbourhood.wf()
        &&& ids_increasing(self.awaiting_reply@)
        &&& forall|k: int|
            0 <= k < self.awaiting_reply@.len() ==> #[trigger] self.awaiting_reply@[k].id
                <= self.cnt
    }

    /// No counter of a neighbor goes past the threshold.
    pub proof fn lemma_bounded(&self)
        requires
            self.wf(),
        ensures
            forall|a: Address|
                #[trigger] self.neighbors().contains_key(a) ==> self.neighbors()[a].suspicion.bounded(),
    {
        self.neighbourhood.lemma_bounded();
    }

    pub fn new(addr: Address) -> (r: Node)
        ensures
            r.wf(),
            r.addr() == addr,
            r.next_id() == 0,
            r.neighbors() == Map::<Address, NeighborView>::empty(),
            r.awaiting() == Seq::<Pending>::empty(),
    {
        Node { src: addr, cnt: 0, neighbourhood: Neighborhood::new(), awaiting_reply: Vec::new() }
    }

    pub fn addr_of(&self) -> (r: Address)
        ensures
            r == self.addr(),
    {
        self.src
    }

    pub fn last_id(&self) -> (r: u32)
        ensures
            r == self.next_id(),
    {
        self.cnt
    }

    pub fn neighbourhood(&self) -> (r: &Neighborhood)
        ensures
            r@ == self.neighbors(),
            self.wf() ==> r.wf(),
    {
        &self.neighbourhood
    }

    pub fn awaiting_reply(&self) -> (r: &Vec<Pending>)
        ensures
            r@ == self.awaiting(),
    {
        &self.awaiting_reply
    }

    /// How many ids a step on `event` may use up.
    pub open spec fn demand(&self, event: Event) -> nat {
        match event {
            Event::Message(m) => match m.payload {
                Payload::RegisterOk { known } => known@.len(),
                Payload::GossipRandomOk | Payload::GossipSuspectOk => 0,
                _ => 1,
            },
            Event::Trigger(t) => match t {
                Trigger::Register(_) => 1,
                Trigger::GossipRandom | Trigger::GossipSuspects => self.neighbors().dom().len(),
                _ => 0,
            },
        }
    }

    /// Whether the ids left suffice for a step on `event`.
    pub fn has_room(&self, event: &Event) -> (r: bool)
        requires
            self.wf(),
        ensures
            r == (self.next_id() + self.demand(*event) <= u32::MAX),
    {
        let need: usize = match event {
            Event::Message(m) => match &m.payload {
                Payload::RegisterOk { known } => known.len(),
                Payload::GossipRandomOk | Payload::GossipSuspectOk => 0,
                _ => 1,
            },
            Event::Trigger(t) => match t {
                Trigger::Register(_) => 1,
                Trigger::GossipRandom | Trigger::GossipSuspects => self.neighbourhood.len(),
                _ => 0,
            },
        };
        need as u64 <= (u32::MAX - self.cnt) as u64
    }

    /// Folds one event into the node's state and returns the messages to send,
    /// in order. `now` is the time in milliseconds of a monotonic clock.
    pub fn step(&mut self, event: Event, now: u64) -> (r: Vec<Message>)
        requires
            old(self).wf(),
            old(self).next_id() + old(self).demand(event) <= u32::MAX,
        ensures
            final(self).wf(),
            step_outcome(*old(self), *final(self), event, now, r@),
    {
        match event {
            Event::Trigger(trigger) => self.handle_trigger(trigger, now),
            Event::Message(msg) => self.handle_message(msg, now),
        }
    }

    fn handle_trigger(&mut self, trigger: Trigger, now: u64) -> (r: Vec<Message>)
        requires
            old(self).wf(),
            old(self).next_id() + old(self).demand(Event::Trigger(trigger)) <= u32::MAX,
        ensures
            final(self).wf(),
            trigger_outcome(*old(self), *final(self), trigger, now, r@),
    {
        match trigger {
            Trigger::Register(dst) => {
                self.neighbourhood.register(dst);
                let m = self.message(dst, None, Payload::Register, now);
                let r = vec![m];
                proof {
                    lemma_issued_one(r@, now);
                    assert(self.awaiting_reply@ =~= old(self).awaiting_reply@ + issued(r@, now));
                }
                r
            },
            Trigger::GossipRandom => self.gossip(now),
            Trigger::GossipSuspects => self.gossip_suspects(now),
            Trigger::Strike(addr) => {
                self.neighbourhood.accuse(addr, Charge::Connection);
                let r: Vec<Message> = Vec::new();
                proof { lemma_issued_none(r@, now); }
                r
            },
            Trigger::CheckReplies => {
                self.check_replies(now);
                let r: Vec<Message> = Vec::new();
                proof { lemma_issued_none(r@, now); }
                r
            },
        }
    }

    fn handle_message(&mut self, msg: Message, now: u64) -> (r: Vec<Message>)
        requires
            old(self).wf(),
            old(self).next_id() + old(self).demand(Event::Message(msg)) <= u32::MAX,
        ensures
            final(self).wf(),
            message_outcome(*old(self), *final(self), msg, now, r@),
    {
        let Message { src, dst: _, id, reply_to, payload } = msg;
        self.neighbourhood.dismiss(src, Charge::Connection);
        proof {
            assert(self.neighbourhood@.dom() =~= old(self).neighbourhood@.dom());
        }
        match payload {
            Payload::Register => {
                let neighbours = self.neighbourhood.get_all_neighbors();
                self.neighbourhood.register(src);
                let m = self.message(src, Some(id), Payload::RegisterOk { known: neighbours }, now);
                let r = vec![m];
                proof { lemma_issued_one(r@, now); }
                r
            },
            Payload::RegisterOk { known } => {
                self.handle_reply(reply_to, src);
                let ghost nb2 = self.neighbourhood@;
                let ghost c1 = self.cnt;
                let ghost aw1 = self.awaiting_reply@;
                let mut r: Vec<Message> = Vec::new();
                let mut i: usize = 0;
                proof {
                    assert(known@.subrange(0, 0) =~= Seq::<Address>::empty());
                    assert(aw1 + issued(r@, now) =~= aw1);
                    assert(destinations(r@) =~= Seq::<Address>::empty());
                }
                while i < known.len()
                    invariant
                        self.wf(),
                        self.src == old(self).src,
                        c1 == old(self).cnt,
                        c1 + known@.len() <= u32::MAX,
                        i <= known@.len(),
                        r@.len() <= i,
                        self.cnt == c1 + r@.len(),
                        self.neighbourhood@ == joined(nb2, known@.subrange(0, i as int)),
                        destinations(r@) == newcomers(nb2, known@.subrange(0, i as int)),
                        stamped(r@, c1, self.src),
                        forall|k: int|
                            0 <= k < r@.len() ==> {
                                &&& (#[trigger] r@[k]).reply_to is None
                                &&& r@[k].payload is Register
                            },
                        self.awaiting_reply@ == aw1 + issued(r@, now),
                    decreases known@.len() - i,
                {
                    let addr = known[i];
                    let ghost sub = known@.subrange(0, i + 1);
                    proof {
                        assert(sub.drop_last() =~= known@.subrange(0, i as int));
                        assert(sub.last() == addr);
                    }
                    if !self.neighbourhood.is_registered(&addr) {
                        self.neighbourhood.register(addr);
                        let m = self.message(addr, None, Payload::Register, now);
                        let ghost r0 = r@;
                        r.push(m);
                        proof {
                            assert(r@.drop_last() =~= r0);
                            assert(r@.last() == m);
                            assert(self.awaiting_reply@ =~= aw1 + issued(r@, now));
                            assert(destinations(r@) =~= destinations(r0).push(addr));
                        }
                    }
                    i = i + 1;
                }
                proof {
                    assert(known@.subrange(0, known@.len() as int) =~= known@);
                }
                r
            },
            Payload::GossipRandom { message: _ } => {
                let m = self.message(src, Some(id), Payload::GossipRandomOk, now);
                let r = vec![m];
                proof { lemma_issued_one(r@, now); }
                r
            },
            Payload::GossipSuspect { suspects } => {
                self.neighbourhood.report(suspects, src);
                let m = self.message(src, Some(id), Payload::GossipSuspectOk, now);
                let r = vec![m];
                proof { lemma_issued_one(r@, now); }
                r
            },
            Payload::GossipRandomOk | Payload::GossipSuspectOk => {
                self.handle_reply(reply_to, src);
                let r: Vec<Message> = Vec::new();
                proof { lemma_issued_none(r@, now); }
                r
            },
        }
    }

    /// Removes and returns the outstanding request with id `id`, if any.
    fn take_pending(&mut self, id: u32) -> (r: Option<Pending>)
        requires
            old(self).wf(),
        ensures
            final(self).wf(),
            final(self).src == old(self).src,
            final(self).cnt == old(self).cnt,
            final(self).neighbourhood@ == old(self).neighbourhood@,
            final(self).awaiting_reply@ == after_answer(old(self).awaiting_reply@, Some(id)),
            r == if has_pending(old(self).awaiting_reply@, id) {
                Some(
                    old(self).awaiting_reply@[pending_index(old(self).awaiting_reply@, id)],
                )
            } else {
                None::<Pending>
            },
    {
        let ghost aw = self.awaiting_reply@;
        let mut k: usize = 0;
        while k < self.awaiting_reply.len()
            invariant
                self.awaiting_reply@ == aw,
                aw == old(self).awaiting_reply@,
                self.wf(),
                self.src == old(self).src,
                self.cnt == old(self).cnt,
                self.neighbourhood@ == old(self).neighbourhood@,
                k <= aw.len(),
                forall|j: int| 0 <= j < k ==> aw[j].id != id,
            decreases aw.len() - k,
        {
            if self.awaiting_reply[k].id == id {
                proof {
                    let c = pending_index(aw, id);
                    assert(aw[k as int].id == id);
                    assert(c == k as int) by {
                        if c < k {
                        } else if c > k {
                            assert(aw[k as int].id < aw[c].id);
                        }
                    }
                }
                let p = self.awaiting_reply.remove(k);
                proof {
                    let a1 = self.awaiting_reply@;
                    assert forall|x: int, y: int| 0 <= x < y < a1.len() implies a1[x].id < a1[y].id by {
                        let x0 = if x < k { x } else { x + 1 };
                        let y0 = if y < k { y } else { y + 1 };
                        assert(a1[x] == aw[x0] && a1[y] == aw[y0]);
                    }
                    assert forall|x: int| 0 <= x < a1.len() implies #[trigger] a1[x].id <= self.cnt by {
                        let x0 = if x < k { x } else { x + 1 };
                        assert(a1[x] == aw[x0]);
                    }
                }
                return Some(p);
            }
            k = k + 1;
        }
        None
    }

    /// Takes note of an answer to `reply_id` from `src`: the request leaves the
    /// outstanding ones, and when `src` is the peer it went to, its reply charges
    /// are dropped.
    fn handle_reply(&mut self, reply_id: Option<u32>, src: Address)
        requires
            old(self).wf(),
        ensures
            final(self).wf(),
            final(self).src == old(self).src,
            final(self).cnt == old(self).cnt,
            final(self).neighbourhood@ == after_reply(
                old(self).neighbourhood@,
                old(self).awaiting_reply@,
                reply_id,
                src,
            ),
            final(self).awaiting_reply@ == after_answer(old(self).awaiting_reply@, reply_id),
    {
        match reply_id {
            Some(id) => match self.take_pending(id) {
                Some(p) => {
                    if p.dst == src {
                        self.neighbourhood.dismiss(src, Charge::Reply);
                    }
                },
                None => {},
            },
            None => {},
        }
    }

    /// Drops every stale request and charges its destination with a missing reply.
    fn check_replies(&mut self, now: u64)
        requires
            old(self).wf(),
        ensures
            final(self).wf(),
            final(self).src == old(self).src,
            final(self).cnt == old(self).cnt,
            final(self).neighbourhood@ == accuse_each(
                old(self).neighbourhood@,
                timed_out(old(self).awaiting_reply@, now),
            ),
            final(self).awaiting_reply@ == still_waiting(old(self).awaiting_reply@, now),
    {
        let ghost aw = self.awaiting_reply@;
        let ghost m0 = self.neighbourhood@;
        let mut kept: Vec<Pending> = Vec::new();
        let mut i: usize = 0;
        while i < self.awaiting_reply.len()
            invariant
                self.awaiting_reply@ == aw,
                self.src == old(self).src,
                self.cnt == old(self).cnt,
                self.neighbourhood.wf(),
                m0 == old(self).neighbourhood@,
                aw == old(self).awaiting_reply@,
                i <= aw.len(),
                kept@ == still_waiting(aw.subrange(0, i as int), now),
                self.neighbourhood@ == accuse_each(m0, timed_out(aw.subrange(0, i as int), now)),
            decreases aw.len() - i,
        {
            let p = self.awaiting_reply[i];
            proof {
                let sub = aw.subrange(0, i + 1);
                assert(sub.drop_last() =~= aw.subrange(0, i as int));
                assert(sub.last() == p);
                let t = timed_out(aw.subrange(0, i as int), now);
                assert(t.push(p).drop_last() =~= t);
            }
            if now > p.sent_at && now - p.sent_at > STALE_TIMEOUT_MS {
                self.neighbourhood.accuse(p.dst, Charge::Reply);
            } else {
                kept.push(p);
            }
            i = i + 1;
        }
        proof {
            assert(aw.subrange(0, aw.len() as int) =~= aw);
            lemma_still_waiting_sub(aw, now);
        }
        self.awaiting_reply = kept;
    }

    fn scoop(&self) -> (r: String)
        ensures
            r@ == scoop_text(self.src),
    {
        let mut s = String::from_str("Some spicy scoop from ");
        let at = self.src.render();
        s.append(at.as_str());
        s
    }

    /// One `GossipRandom` to every online neighbor.
    fn gossip(&mut self, now: u64) -> (r: Vec<Message>)
        requires
            old(self).wf(),
            old(self).cnt + old(self).neighbourhood@.dom().len() <= u32::MAX,
        ensures
            final(self).wf(),
            final(self).src == old(self).src,
            final(self).cnt == old(self).cnt + r@.len(),
            final(self).neighbourhood@ == old(self).neighbourhood@,
            final(self).awaiting_reply@ == old(self).awaiting_reply@ + issued(r@, now),
            stamped(r@, old(self).cnt, old(self).src),
            destinations(r@).no_duplicates(),
            forall|a: Address|
                destinations(r@).contains(a) <==> (old(self).neighbourhood@.contains_key(a)
                    && old(self).neighbourhood@[a].online),
            forall|k: int|
                0 <= k < r@.len() ==> {
                    &&& (#[trigger] r@[k]).reply_to is None
                    &&& r@[k].payload is GossipRandom
                    &&& r@[k].payload->message@ == scoop_text(old(self).src)
                },
    {
        let gossipers = self.neighbourhood.select_gossipers();
        proof { self.neighbourhood.lemma_keys_fit(gossipers@); }
        let ghost c0 = self.cnt;
        let ghost aw0 = self.awaiting_reply@;
        let mut r: Vec<Message> = Vec::new();
        let mut i: usize = 0;
        while i < gossipers.len()
            invariant
                self.wf(),
                self.src == old(self).src,
                self.neighbourhood@ == old(self).neighbourhood@,
                c0 == old(self).cnt,
                aw0 == old(self).awaiting_reply@,
                c0 + gossipers@.len() <= u32::MAX,
                i <= gossipers@.len(),
                r@.len() == i,
                self.cnt == c0 + i,
                stamped(r@, c0, self.src),
                forall|k: int|
                    0 <= k < i ==> {
                        &&& (#[trigger] r@[k]).dst == gossipers@[k]
                        &&& r@[k].reply_to is None
                        &&& r@[k].payload is GossipRandom
                        &&& r@[k].payload->message@ == scoop_text(self.src)
                    },
                self.awaiting_reply@ == aw0 + issued(r@, now),
            decreases gossipers@.len() - i,
        {
            let text = self.scoop();
            let m = self.message(gossipers[i], None, Payload::GossipRandom { message: text }, now);
            let ghost r0 = r@;
            r.push(m);
            proof {
                assert(r@.drop_last() =~= r0);
                assert(r@.last() == m);
                assert(self.awaiting_reply@ =~= aw0 + issued(r@, now));
            }
            i = i + 1;
        }
        assert(destinations(r@) =~= gossipers@);
        r
    }

    /// When this node suspects anyone, the list of its suspects to every online neighbor.
    fn gossip_suspects(&mut self, now: u64) -> (r: Vec<Message>)
        requires
            old(self).wf(),
            old(self).cnt + old(self).neighbourhood@.dom().len() <= u32::MAX,
        ensures
            final(self).wf(),
            final(self).src == old(self).src,
            final(self).cnt == old(self).cnt + r@.len(),
            final(self).neighbourhood@ == old(self).neighbourhood@,
            final(self).awaiting_reply@ == old(self).awaiting_reply@ + issued(r@, now),
            stamped(r@, old(self).cnt, old(self).src),
            destinations(r@).no_duplicates(),
            forall|a: Address|
                destinations(r@).contains(a) <==> (old(self).neighbourhood@.contains_key(a)
                    && old(self).neighbourhood@[a].online && suspects_any(
                    old(self).neighbourhood@,
                )),
            forall|k: int|
                0 <= k < r@.len() ==> {
                    &&& (#[trigger] r@[k]).reply_to is None
                    &&& r@[k].payload is GossipSuspect
                    &&& lists_suspects(r@[k].payload->suspects@, old(self).neighbourhood@)
                },
    {
        let suspects = self.neighbourhood.get_suspects();
        if suspects.len() == 0 {
            proof {
                if suspects_any(self.neighbourhood@) {
                    let a = choose|a: Address| #[trigger] self.neighbourhood@.contains_key(a)
                        && self.neighbourhood@[a].suspicion.suspicious();
                    assert(suspects@.contains(a));
                }
                assert(destinations(Seq::<Message>::empty()) =~= Seq::<Address>::empty());
            }
            return Vec::new();
        }
        proof {
            assert(suspects@.contains(suspects@[0]));
        }
        let gossipers = self.neighbourhood.select_gossipers();
        proof { self.neighbourhood.lemma_keys_fit(gossipers@); }
        let ghost c0 = self.cnt;
        let ghost aw0 = self.awaiting_reply@;
        let mut r: Vec<Message> = Vec::new();
        let mut i: usize = 0;
        while i < gossipers.len()
            invariant
                self.wf(),
                self.src == old(self).src,
                self.neighbourhood@ == old(self).neighbourhood@,
                c0 == old(self).cnt,
                aw0 == old(self).awaiting_reply@,
                c0 + gossipers@.len() <= u32::MAX,
                lists_suspects(suspects@, self.neighbourhood@),
                i <= gossipers@.len(),
                r@.len() == i,
                self.cnt == c0 + i,
                stamped(r@, c0, self.src),
                forall|k: int|
                    0 <= k < i ==> {
                        &&& (#[trigger] r@[k]).dst == gossipers@[k]
                        &&& r@[k].reply_to is None
                        &&& r@[k].payload is GossipSuspect
                        &&& lists_suspects(r@[k].payload->suspects@, self.neighbourhood@)
                    },
                self.awaiting_reply@ == aw0 + issued(r@, now),
            decreases gossipers@.len() - i,
        {
            let list = copy_addresses(&suspects);
            let m = self.message(gossipers[i], None, Payload::GossipSuspect { suspects: list }, now);
            let ghost r0 = r@;
            r.push(m);
            proof {
                assert(r@.drop_last() =~= r0);
                assert(r@.last() == m);
                assert(self.awaiting_reply@ =~= aw0 + issued(r@, now));
            }
            i = i + 1;
        }
        assert(destinations(r@) =~= gossipers@);
        r
    }

    /// Stamps a new message from this node with the next id, and records it as
    /// outstanding when it is a request.
    fn message(&mut self, dst: Address, reply_to: Option<u32>, payload: Payload, now: u64) -> (m:
        Message)
        requires
            old(self).wf(),
            old(self).cnt < u32::MAX,
        ensures
            final(self).wf(),
            final(self).src == old(self).src,
            final(self).cnt == old(self).cnt + 1,
            final(self).neighbourhood@ == old(self).neighbourhood@,
            m == (Message { src: old(self).src, dst, id: final(self).cnt, reply_to, payload }),
            final(self).awaiting_reply@ == if payload.needs_reply() {
                old(self).awaiting_reply@.push(Pending { id: final(self).cnt, dst, sent_at: now })
            } else {
                old(self).awaiting_reply@
            },
    {
        self.cnt = self.cnt + 1;
        if payload.requires_reply() {
            self.awaiting_reply.push(Pending { id: self.cnt, dst, sent_at: now });
        }
        Message { src: self.src, dst, id: self.cnt, reply_to, payload }
    }
}

/// What `still_waiting` keeps comes from `aw`, in order.
proof fn lemma_still_waiting_sub(aw: Seq<Pending>, now: u64)
    requires
        ids_increasing(aw),
    ensures
        ids_increasing(still_waiting(aw, now)),
        forall|k: int| 0 <= k < still_waiting(aw, now).len() ==> exists|j: int|
            0 <= j < aw.len() && #[trigger] still_waiting(aw, now)[k] == aw[j],
    decreases aw.len(),
{
    if aw.len() > 0 {
        let rest = aw.drop_last();
        lemma_still_waiting_sub(rest, now);
        let sw = still_waiting(rest, now);
        assert forall|k: int| 0 <= k < sw.len() implies exists|j: int|
            0 <= j < aw.len() && #[trigger] sw[k] == aw[j] by {
            let j = choose|j: int| 0 <= j < rest.len() && #[trigger] sw[k] == rest[j];
            assert(aw[j] == rest[j]);
        }
        if !is_stale(aw.last(), now) {
            let s2 = sw.push(aw.last());
            assert forall|k: int| 0 <= k < sw.len() implies #[trigger] s2[k].id < aw.last().id by {
                let j = choose|j: int| 0 <= j < aw.len() && #[trigger] sw[k] == aw[j];
                assert(j < aw.len() - 1) by {
                    let j2 = choose|j2: int| 0 <= j2 < rest.len() && #[trigger] sw[k] == rest[j2];
                    assert(aw[j2] == rest[j2]);
                    assert(aw[j2] == aw[j]);
                    if j == aw.len() - 1 {
                        assert(aw[j2].id < aw[j].id);
                    }
                }
            }
            assert forall|k: int| 0 <= k < s2.len() implies exists|j: int|
                0 <= j < aw.len() && #[trigger] s2[k] == aw[j] by {
                if k < sw.len() {
                    let j = choose|j: int| 0 <= j < aw.len() && #[trigger] sw[k] == aw[j];
                    assert(s2[k] == aw[j]);
                } else {
                    assert(s2[k] == aw[aw.len() - 1]);
                }
            }
        }
    }
}

pub open spec fn ids_increasing(aw: Seq<Pending>) -> bool {
    forall|i: int, j: int| 0 <= i < j < aw.len() ==> aw[i].id < aw[j].id
}

} // verus!
