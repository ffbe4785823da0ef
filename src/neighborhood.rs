//! Per-peer membership and suspicion state of one node.
use vstd::prelude::*;

use crate::address::Address;

verus! {

/// A peer is suspicious once either of its counters reaches this value.
pub const SUSPICION_THRESHOLD: u8 = 3;

/// The axis along which suspicion against a peer accumulates.
#[derive(Clone, Copy, Debug, PartialEq, Eq, Structural)]
pub enum Charge {
    /// The peer could not be dialed.
    Connection,
    /// The peer did not answer a request in time.
    Reply,
}

/// Two independent counters of accusations against one peer.
#[derive(Clone, Copy, Debug, PartialEq, Eq, Structural)]
pub struct Suspicion {
    pub connection: u8,
    pub reply: u8,
}

/// One more accusation; the counter stops at the threshold, which is all that
/// the suspicion predicate looks at.
pub open spec fn bumped(x: u8) -> u8 {
    if x < SUSPICION_THRESHOLD {
        (x + 1) as u8
    } else {
        x
    }
}

impl Suspicion {
    pub open spec fn clear() -> Suspicion {
        Suspicion { connection: 0, reply: 0 }
    }

    pub open spec fn accused(self, charge: Charge) -> Suspicion {
        match charge {
            Charge::Connection => Suspicion { connection: bumped(self.connection), ..self },
            Charge::Reply => Suspicion { reply: bumped(self.reply), ..self },
        }
    }

    pub open spec fn objected(self, charge: Charge) -> Suspicion {
        match charge {
            Charge::Connection => Suspicion { connection: 0, ..self },
            Charge::Reply => Suspicion { reply: 0, ..self },
        }
    }

    pub open spec fn ruled() -> Suspicion {
        Suspicion { connection: SUSPICION_THRESHOLD, reply: SUSPICION_THRESHOLD }
    }

    /// Neither counter goes past the threshold.
    pub open spec fn bounded(self) -> bool {
        self.connection <= SUSPICION_THRESHOLD && self.reply <= SUSPICION_THRESHOLD
    }

    pub open spec fn suspicious(self) -> bool {
        self.reply >= SUSPICION_THRESHOLD || self.connection >= SUSPICION_THRESHOLD
    }

    pub fn new() -> (r: Suspicion)
        ensures
            r == Suspicion::clear(),
    {
        Suspicion { connection: 0, reply: 0 }
    }

    /// Counts one more charge against the peer.
    pub fn accuse(&mut self, charge: Charge)
        ensures
            *final(self) == old(self).accused(charge),
    {
        match charge {
            Charge::Connection => {
                if self.connection < SUSPICION_THRESHOLD {
                    self.connection = self.connection + 1;
                }
            },
            Charge::Reply => {
                if self.reply < SUSPICION_THRESHOLD {
                    self.reply = self.reply + 1;
                }
            },
        }
    }

    /// Drops every charge of one kind.
    pub fn object(&mut self, charge: Charge)
        ensures
            *final(self) == old(self).objected(charge),
    {
        match charge {
            Charge::Connection => self.connection = 0,
            Charge::Reply => self.reply = 0,
        }
    }

    /// The verdict of a majority of the neighborhood: suspicious on both axes.
    pub fn jury_ruling(&mut self)
        ensures
            *final(self) == Suspicion::ruled(),
    {
        self.connection = SUSPICION_THRESHOLD;
        self.reply = SUSPICION_THRESHOLD;
    }

    pub fn is_suspicious(&self) -> (r: bool)
        ensures
            r == self.suspicious(),
    {
        self.reply >= SUSPICION_THRESHOLD || self.connection >= SUSPICION_THRESHOLD
    }
}

/// What a node knows of one neighbor.
pub struct NeighborView {
    pub suspicion: Suspicion,
    /// The peers whose latest report named this neighbor.
    pub suspected_by: Set<Address>,
    /// The verdict of the latest vote.
    pub online: bool,
}

impl NeighborView {
    pub open spec fn fresh() -> NeighborView {
        NeighborView { suspicion: Suspicion::clear(), suspected_by: Set::empty(), online: true }
    }
}

fn contains(v: &Vec<Address>, a: &Address) -> (r: bool)
    ensures
        r == v@.contains(*a),
{
    let mut i: usize = 0;
    while i < v.len()
        invariant
            i <= v@.len(),
            forall|j: int| 0 <= j < i ==> v@[j] != *a,
        decreases v@.len() - i,
    {
        if v[i] == *a {
            return true;
        }
        i = i + 1;
    }
    false
}

/// Which neighbors a query picks.
#[derive(Clone, Copy)]
enum Selector {
    All,
    Suspicious,
    Online,
}

spec fn selects(sel: Selector, n: NeighborView) -> bool {
    match sel {
        Selector::All => true,
        Selector::Suspicious => n.suspicion.suspicious(),
        Selector::Online => n.online,
    }
}

struct Neighbor {
    suspicion: Suspicion,
    suspected_by: Vec<Address>,
    online: bool,
}

impl Neighbor {
    spec fn wf(&self) -> bool {
        &&& self.suspected_by@.no_duplicates()
        &&& self.suspicion.bounded()
    }

    spec fn view(&self) -> NeighborView {
        NeighborView {
            suspicion: self.suspicion,
            suspected_by: self.suspected_by@.to_set(),
            online: self.online,
        }
    }

    fn fresh() -> (r: Neighbor)
        ensures
            r.wf(),
            r.view() == NeighborView::fresh(),
    {
        let r = Neighbor { suspicion: Suspicion::new(), suspected_by: Vec::new(), online: true };
        assert(r.suspected_by@.to_set() =~= Set::empty());
        r
    }

    fn picked(&self, sel: Selector) -> (r: bool)
        ensures
            r == selects(sel, self.view()),
    {
        match sel {
            Selector::All => true,
            Selector::Suspicious => self.suspicion.is_suspicious(),
            Selector::Online => self.online,
        }
    }

    proof fn lemma_len(&self)
        requires
            self.wf(),
        ensures
            self.suspected_by@.len() == self.view().suspected_by.len(),
    {
        self.suspected_by@.unique_seq_to_set();
    }

    /// Records that `accuser` suspects this neighbor.
    fn add_accuser(&mut self, accuser: Address)
        requires
            old(self).wf(),
        ensures
            final(self).wf(),
            final(self).view() == (NeighborView {
                suspected_by: old(self).view().suspected_by.insert(accuser),
                ..old(self).view()
            }),
    {
        if !contains(&self.suspected_by, &accuser) {
            let ghost s0 = self.suspected_by@;
            self.suspected_by.push(accuser);
            assert forall|k: int| 0 <= k < s0.len() implies self.suspected_by@[k] == s0[k] by {}
            assert(self.suspected_by@.to_set() =~= s0.to_set().insert(accuser)) by {
                assert(self.suspected_by@[s0.len() as int] == accuser);
                assert forall|b: Address| #[trigger] s0.contains(b) implies self.suspected_by@.contains(b) by {
                    let k = choose|k: int| 0 <= k < s0.len() && s0[k] == b;
                    assert(self.suspected_by@[k] == b);
                }
            }
        } else {
            assert(self.suspected_by@.to_set() =~= self.suspected_by@.to_set().insert(accuser));
        }
    }

    /// Records that `accuser` no longer suspects this neighbor.
    fn drop_accuser(&mut self, accuser: Address)
        requires
            old(self).wf(),
        ensures
            final(self).wf(),
            final(self).view() == (NeighborView {
                suspected_by: old(self).view().suspected_by.remove(accuser),
                ..old(self).view()
            }),
    {
        let ghost s0 = self.suspected_by@;
        let mut k: usize = 0;
        while k < self.suspected_by.len()
            invariant
                self.suspected_by@ == s0,
                s0 == old(self).suspected_by@,
                self.suspicion == old(self).suspicion,
                self.suspicion.bounded(),
                self.online == old(self).online,
                s0.no_duplicates(),
                k <= s0.len(),
                forall|j: int| 0 <= j < k ==> s0[j] != accuser,
            decreases s0.len() - k,
        {
            if self.suspected_by[k] == accuser {
                self.suspected_by.remove(k);
                let ghost s1 = self.suspected_by@;
                assert(s1 =~= s0.subrange(0, k as int) + s0.subrange(k as int + 1, s0.len() as int));
                assert forall|b: Address| s1.contains(b) <==> (s0.contains(b) && b != accuser) by {
                    if s1.contains(b) {
                        let j = choose|j: int| 0 <= j < s1.len() && s1[j] == b;
                        if j < k {
                            assert(s0[j] == b);
                        } else {
                            assert(s0[j + 1] == b);
                        }
                    }
                    if s0.contains(b) && b != accuser {
                        let j = choose|j: int| 0 <= j < s0.len() && s0[j] == b;
                        if j < k {
                            assert(s1[j] == b);
                        } else {
                            assert(j != k);
                            assert(s1[j - 1] == b);
                        }
                    }
                }
                assert(s1.to_set() =~= s0.to_set().remove(accuser));
                assert(s1.no_duplicates()) by {
                    assert forall|x: int, y: int| 0 <= x < y < s1.len() implies s1[x] != s1[y] by {
                        let x0 = if x < k { x } else { x + 1 };
                        let y0 = if y < k { y } else { y + 1 };
                        assert(s1[x] == s0[x0] && s1[y] == s0[y0]);
                    }
                }
                return;
            }
            k = k + 1;
        }
        assert(s0.to_set() =~= s0.to_set().remove(accuser));
    }
}

/// The neighborhood after `register(addr)`: a fresh entry replaces any earlier one.
pub open spec fn after_register(m: Map<Address, NeighborView>, addr: Address) -> Map<
    Address,
    NeighborView,
> {
    m.insert(addr, NeighborView::fresh())
}

/// The neighborhood after `accuse(addr, charge)`.
pub open spec fn after_accuse(m: Map<Address, NeighborView>, addr: Address, charge: Charge) -> Map<
    Address,
    NeighborView,
> {
    if m.contains_key(addr) {
        m.insert(addr, NeighborView { suspicion: m[addr].suspicion.accused(charge), ..m[addr] })
    } else {
        m
    }
}

/// The neighborhood after `dismiss(addr, charge)`.
pub open spec fn after_dismiss(m: Map<Address, NeighborView>, addr: Address, charge: Charge) -> Map<
    Address,
    NeighborView,
> {
    if m.contains_key(addr) {
        m.insert(addr, NeighborView { suspicion: m[addr].suspicion.objected(charge), ..m[addr] })
    } else {
        m
    }
}

/// Whether `count` reporters form a majority of a neighborhood of `size` peers,
/// which takes at least three peers.
pub open spec fn is_quorum(count: nat, size: nat) -> bool {
    size >= 3 && count > size / 2
}

/// One neighbor after `accuser` reported the set `suspects`, in a neighborhood of `size`.
pub open spec fn reported_neighbor(
    n: NeighborView,
    addr: Address,
    suspects: Set<Address>,
    accuser: Address,
    size: nat,
) -> NeighborView {
    let by = if suspects.contains(addr) {
        n.suspected_by.insert(accuser)
    } else {
        n.suspected_by.remove(accuser)
    };
    if is_quorum(by.len(), size) {
        NeighborView { suspicion: Suspicion::ruled(), suspected_by: by, online: false }
    } else {
        NeighborView { suspicion: n.suspicion, suspected_by: by, online: true }
    }
}

/// The neighborhood after `report(suspects, accuser)`.
pub open spec fn after_report(
    m: Map<Address, NeighborView>,
    suspects: Set<Address>,
    accuser: Address,
) -> Map<Address, NeighborView> {
    Map::new(
        |a: Address| m.contains_key(a),
        |a: Address| reported_neighbor(m[a], a, suspects, accuser, m.dom().len()),
    )
}

/// The counter that `charge` feeds.
pub open spec fn counter(s: Suspicion, charge: Charge) -> u8 {
    match charge {
        Charge::Connection => s.connection,
        Charge::Reply => s.reply,
    }
}

/// Accusing a known neighbor and then dismissing the same charge brings that
/// counter back to zero and leaves the other one as it was.
pub proof fn lemma_accuse_then_dismiss(
    m: Map<Address, NeighborView>,
    p: Address,
    charge: Charge,
    other: Charge,
)
    requires
        m.contains_key(p),
        other != charge,
    ensures
        after_dismiss(after_accuse(m, p, charge), p, charge).contains_key(p),
        counter(after_dismiss(after_accuse(m, p, charge), p, charge)[p].suspicion, charge) == 0,
        counter(after_dismiss(after_accuse(m, p, charge), p, charge)[p].suspicion, other)
            == counter(m[p].suspicion, other),
{
}

/// A report takes a neighbor offline exactly when a majority of a neighborhood of
/// at least three suspects it, counting the report itself.
pub proof fn lemma_offline_only_by_quorum(
    m: Map<Address, NeighborView>,
    suspects: Set<Address>,
    accuser: Address,
)
    ensures
        after_report(m, suspects, accuser).dom() == m.dom(),
        forall|a: Address|
            #[trigger] after_report(m, suspects, accuser).contains_key(a) ==> {
                let n = after_report(m, suspects, accuser)[a];
                &&& !n.online <==> (m.dom().len() >= 3 && n.suspected_by.len() > m.dom().len()
                    / 2)
                &&& !n.online ==> n.suspicion == Suspicion::ruled()
            },
{
    assert(after_report(m, suspects, accuser).dom() =~= m.dom());
}

/// Charges and their dismissal leave every neighbor's vote as it was: only a
/// report or a new registration changes who suspects a neighbor and whether it
/// is online.
pub proof fn lemma_charges_keep_votes(m: Map<Address, NeighborView>, p: Address, charge: Charge)
    ensures
        after_accuse(m, p, charge).dom() == m.dom(),
        after_dismiss(m, p, charge).dom() == m.dom(),
        forall|a: Address|
            #[trigger] m.contains_key(a) ==> {
                &&& after_accuse(m, p, charge)[a].online == m[a].online
                &&& after_accuse(m, p, charge)[a].suspected_by == m[a].suspected_by
                &&& after_dismiss(m, p, charge)[a].online == m[a].online
                &&& after_dismiss(m, p, charge)[a].suspected_by == m[a].suspected_by
            },
{
    assert(after_accuse(m, p, charge).dom() =~= m.dom());
    assert(after_dismiss(m, p, charge).dom() =~= m.dom());
}

/// The state a node keeps of each peer it knows, keyed by the peer's address.
pub struct Neighborhood {
    entries: Vec<(Address, Neighbor)>,
    model: Ghost<Map<Address, NeighborView>>,
}

impl View for Neighborhood {
    type V = Map<Address, NeighborView>;

    closed spec fn view(&self) -> Map<Address, NeighborView> {
        self.model@
    }
}

impl Neighborhood {
    /// Keys are unique, each entry is well formed, and the model is the map of the entries.
    pub closed spec fn wf(&self) -> bool {
        &&& self.model@.dom().finite()
        &&& self.model@.dom().len() == self.entries@.len()
        &&& forall|i: int, j: int|
            0 <= i < j < self.entries@.len() ==> self.entries@[i].0 != self.entries@[j].0
        &&& forall|i: int|
            0 <= i < self.entries@.len() ==> {
                &&& (#[trigger] self.entries@[i]).1.wf()
                &&& self.model@.contains_key(self.entries@[i].0)
                &&& self.model@[self.entries@[i].0] == self.entries@[i].1.view()
            }
        &&& forall|a: Address|
            #[trigger] self.model@.contains_key(a) ==> exists|i: int|
                0 <= i < self.entries@.len() && self.entries@[i].0 == a
    }

    pub fn new() -> (r: Neighborhood)
        ensures
            r.wf(),
            r@ == Map::<Address, NeighborView>::empty(),
    {
        Neighborhood { entries: Vec::new(), model: Ghost(Map::empty()) }
    }

    fn find(&self, addr: &Address) -> (r: Option<usize>)
        requires
            self.wf(),
        ensures
            match r {
                Some(i) => i < self.entries@.len() && self.entries@[i as int].0 == *addr,
                None => !self@.contains_key(*addr),
            },
    {
        let mut i: usize = 0;
        while i < self.entries.len()
            invariant
                self.wf(),
                i <= self.entries@.len(),
                forall|j: int| 0 <= j < i ==> self.entries@[j].0 != *addr,
            decreases self.entries@.len() - i,
        {
            if self.entries[i].0 == *addr {
                return Some(i);
            }
            i = i + 1;
        }
        None
    }

    /// Adds a fresh neighbor, replacing any earlier entry of the same address.
    pub fn register(&mut self, neighbor: Address)
        requires
            old(self).wf(),
        ensures
            final(self).wf(),
            final(self)@ == after_register(old(self)@, neighbor),
    {
        let ghost m0 = self.model@;
        match self.find(&neighbor) {
            Some(i) => {
                self.entries.set(i, (neighbor, Neighbor::fresh()));
                self.model = Ghost(after_register(m0, neighbor));
                assert(self.model@.dom() =~= m0.dom());
                assert forall|a: Address| #[trigger] self.model@.contains_key(a) implies exists|
                    k: int,
                | 0 <= k < self.entries@.len() && self.entries@[k].0 == a by {
                    if a != neighbor {
                        let k = choose|k: int| 0 <= k < self.entries@.len() && old(self).entries@[k].0 == a;
                        assert(self.entries@[k].0 == a);
                    } else {
                        assert(self.entries@[i as int].0 == a);
                    }
                }
            },
            None => {
                self.entries.push((neighbor, Neighbor::fresh()));
                self.model = Ghost(after_register(m0, neighbor));
                assert(self.model@.dom() =~= m0.dom().insert(neighbor));
                assert forall|a: Address| #[trigger] self.model@.contains_key(a) implies exists|
                    k: int,
                | 0 <= k < self.entries@.len() && self.entries@[k].0 == a by {
                    if a != neighbor {
                        let k = choose|k: int| 0 <= k < old(self).entries@.len() && old(self).entries@[k].0 == a;
                        assert(self.entries@[k].0 == a);
                    } else {
                        assert(self.entries@[self.entries@.len() - 1].0 == a);
                    }
                }
            },
        }
    }

    /// Accuses a known neighbor of `charge`; an unknown address is ignored.
    pub fn accuse(&mut self, neighbor: Address, charge: Charge)
        requires
            old(self).wf(),
        ensures
            final(self).wf(),
            final(self)@ == after_accuse(old(self)@, neighbor, charge),
    {
        match self.find(&neighbor) {
            Some(i) => {
                let ghost m0 = self.model@;
                let entry = &mut self.entries[i];
                entry.1.suspicion.accuse(charge);
                self.model = Ghost(after_accuse(m0, neighbor, charge));
                proof { self.lemma_wf_after_update(*old(self), i as int); }
            },
            None => {},
        }
    }

    /// Releases every charge of one kind against a known neighbor.
    pub fn dismiss(&mut self, neighbor: Address, charge: Charge)
        requires
            old(self).wf(),
        ensures
            final(self).wf(),
            final(self)@ == after_dismiss(old(self)@, neighbor, charge),
    {
        match self.find(&neighbor) {
            Some(i) => {
                let ghost m0 = self.model@;
                let entry = &mut self.entries[i];
                entry.1.suspicion.object(charge);
                self.model = Ghost(after_dismiss(m0, neighbor, charge));
                proof { self.lemma_wf_after_update(*old(self), i as int); }
            },
            None => {},
        }
    }

    /// After entry `i` of a well-formed neighborhood changed in place, keeping its
    /// address and well-formedness, and the model was updated at that address alone.
    proof fn lemma_wf_after_update(&self, prev: Neighborhood, i: int)
        requires
            prev.wf(),
            0 <= i < prev.entries@.len(),
            self.entries@ == prev.entries@.update(i, (prev.entries@[i].0, self.entries@[i].1)),
            self.entries@[i].1.wf(),
            self.model@ == prev.model@.insert(prev.entries@[i].0, self.entries@[i].1.view()),
        ensures
            self.wf(),
    {
        let a = prev.entries@[i].0;
        assert(self.model@.dom() =~= prev.model@.dom());
        assert forall|b: Address| #[trigger] self.model@.contains_key(b) implies exists|k: int|
            0 <= k < self.entries@.len() && self.entries@[k].0 == b by {
            let k = choose|k: int| 0 <= k < prev.entries@.len() && prev.entries@[k].0 == b;
            assert(self.entries@[k].0 == b);
        }
        assert forall|j: int| 0 <= j < self.entries@.len() implies {
            &&& (#[trigger] self.entries@[j]).1.wf()
            &&& self.model@.contains_key(self.entries@[j].0)
            &&& self.model@[self.entries@[j].0] == self.entries@[j].1.view()
        } by {
            if j != i {
                assert(prev.entries@[j].0 != a);
            }
        }
    }


    /// `accuser` reports the set `suspects`. Each neighbor records whether `accuser`
    /// suspects it; one that a majority of the neighborhood suspects is taken
    /// offline and held suspicious on both axes, any other is online.
    pub fn report(&mut self, suspects: Vec<Address>, accuser: Address)
        requires
            old(self).wf(),
        ensures
            final(self).wf(),
            final(self)@ == after_report(old(self)@, suspects@.to_set(), accuser),
    {
        let size = self.entries.len();
        let ghost m0 = self.model@;
        let ghost e0 = self.entries@;
        let ghost set = suspects@.to_set();
        let mut i: usize = 0;
        while i < self.entries.len()
            invariant
                self.model@ == m0,
                set == suspects@.to_set(),
                self.entries@.len() == e0.len() == size == m0.dom().len(),
                m0.dom().finite(),
                forall|j: int, k: int| 0 <= j < k < e0.len() ==> e0[j].0 != e0[k].0,
                forall|j: int| 0 <= j < e0.len() ==> {
                    &&& (#[trigger] e0[j]).1.wf()
                    &&& m0.contains_key(e0[j].0)
                    &&& m0[e0[j].0] == e0[j].1.view()
                },
                forall|a: Address| #[trigger] m0.contains_key(a) ==> exists|j: int|
                    0 <= j < e0.len() && e0[j].0 == a,
                i <= size,
                forall|j: int| 0 <= j < size ==> {
                    &&& (#[trigger] self.entries@[j]).0 == e0[j].0
                    &&& self.entries@[j].1.wf()
                },
                forall|j: int| 0 <= j < i ==> (#[trigger] self.entries@[j]).1.view()
                    == reported_neighbor(m0[e0[j].0], e0[j].0, set, accuser, size as nat),
                forall|j: int| i <= j < size ==> (#[trigger] self.entries@[j]).1 == e0[j].1,
            decreases size - i,
        {
            let key = self.entries[i].0;
            let named = contains(&suspects, &key);
            let ghost before = self.entries@[i as int].1.view();
            let entry = &mut self.entries[i];
            if named {
                entry.1.add_accuser(accuser);
            } else {
                entry.1.drop_accuser(accuser);
            }
            proof { entry.1.lemma_len(); }
            if size >= 3 && entry.1.suspected_by.len() > size / 2 {
                entry.1.suspicion.jury_ruling();
                entry.1.online = false;
            } else {
                entry.1.online = true;
            }
            assert(self.entries@[i as int].1.view() == reported_neighbor(
                before,
                e0[i as int].0,
                set,
                accuser,
                size as nat,
            ));
            i = i + 1;
        }
        self.model = Ghost(after_report(m0, set, accuser));
        assert(self.model@.dom() =~= m0.dom());
        assert forall|a: Address| #[trigger] self.model@.contains_key(a) implies exists|k: int|
            0 <= k < self.entries@.len() && self.entries@[k].0 == a by {
            let k = choose|k: int| 0 <= k < e0.len() && e0[k].0 == a;
            assert(self.entries@[k].0 == a);
        }
    }

    /// Every neighbor that `sel` picks, each once.
    fn keys_where(&self, sel: Selector) -> (r: Vec<Address>)
        requires
            self.wf(),
        ensures
            r@.no_duplicates(),
            forall|a: Address|
                #![trigger r@.contains(a)]
                r@.contains(a) <==> (self@.contains_key(a) && selects(sel, self@[a])),
    {
        let mut r: Vec<Address> = Vec::new();
        let mut i: usize = 0;
        while i < self.entries.len()
            invariant
                self.wf(),
                i <= self.entries@.len(),
                r@.no_duplicates(),
                forall|a: Address|
                    #![trigger r@.contains(a)]
                    r@.contains(a) <==> exists|j: int|
                        0 <= j < i && self.entries@[j].0 == a && selects(
                            sel,
                            #[trigger] self.entries@[j].1.view(),
                        ),
            decreases self.entries@.len() - i,
        {
            let x = self.entries[i].0;
            if self.entries[i].1.picked(sel) {
                let ghost r0 = r@;
                assert(!r0.contains(x)) by {
                    if r0.contains(x) {
                        let j = choose|j: int|
                            0 <= j < i && self.entries@[j].0 == x && selects(
                                sel,
                                #[trigger] self.entries@[j].1.view(),
                            );
                    }
                }
                r.push(x);
                assert forall|a: Address| #![trigger r@.contains(a)] r@.contains(a) <==> (r0.contains(a) || a == x) by {
                    if r@.contains(a) {
                        let k = choose|k: int| 0 <= k < r@.len() && r@[k] == a;
                        if k < r0.len() {
                            assert(r0[k] == a);
                        }
                    }
                    if r0.contains(a) {
                        let k = choose|k: int| 0 <= k < r0.len() && r0[k] == a;
                        assert(r@[k] == a);
                    }
                    assert(r@[r0.len() as int] == x);
                }
            }
            assert forall|a: Address| #![trigger r@.contains(a)] r@.contains(a) <==> exists|j: int|
                0 <= j < i + 1 && self.entries@[j].0 == a && selects(
                    sel,
                    #[trigger] self.entries@[j].1.view(),
                ) by {
                if a == x && selects(sel, self.entries@[i as int].1.view()) {
                    assert(self.entries@[i as int].0 == a);
                }
                if exists|j: int|
                    0 <= j < i + 1 && self.entries@[j].0 == a && selects(
                        sel,
                        #[trigger] self.entries@[j].1.view(),
                    ) {
                    let j = choose|j: int|
                        0 <= j < i + 1 && self.entries@[j].0 == a && selects(
                            sel,
                            #[trigger] self.entries@[j].1.view(),
                        );
                    if j < i {
                        assert(r@.contains(a));
                    }
                }
            }
            i = i + 1;
        }
        assert forall|a: Address| #![trigger r@.contains(a)] r@.contains(a) <==> (self@.contains_key(a) && selects(sel, self@[a])) by {
            if self@.contains_key(a) {
                let j = choose|j: int| 0 <= j < self.entries@.len() && self.entries@[j].0 == a;
                assert(self@[a] == self.entries@[j].1.view());
            }
        }
        r
    }

    /// The neighbors that this node itself holds suspicious, each once.
    pub fn get_suspects(&self) -> (r: Vec<Address>)
        requires
            self.wf(),
        ensures
            r@.no_duplicates(),
            forall|a: Address|
                r@.contains(a) <==> (self@.contains_key(a) && self@[a].suspicion.suspicious()),
    {
        self.keys_where(Selector::Suspicious)
    }

    /// The neighbors to gossip with: those that the latest vote left online, each once.
    pub fn select_gossipers(&self) -> (r: Vec<Address>)
        requires
            self.wf(),
        ensures
            r@.no_duplicates(),
            forall|a: Address| r@.contains(a) <==> (self@.contains_key(a) && self@[a].online),
    {
        self.keys_where(Selector::Online)
    }

    /// Every known neighbor, each once.
    pub fn get_all_neighbors(&self) -> (r: Vec<Address>)
        requires
            self.wf(),
        ensures
            r@.no_duplicates(),
            r@.to_set() == self@.dom(),
    {
        let r = self.keys_where(Selector::All);
        assert(r@.to_set() =~= self@.dom());
        r
    }

    /// The number of known neighbors.
    pub fn len(&self) -> (r: usize)
        requires
            self.wf(),
        ensures
            r == self@.dom().len(),
    {
        self.entries.len()
    }

    /// A list of distinct neighbors is no longer than the neighborhood.
    pub proof fn lemma_keys_fit(&self, keys: Seq<Address>)
        requires
            self.wf(),
            keys.no_duplicates(),
            forall|a: Address| keys.contains(a) ==> self@.contains_key(a),
        ensures
            keys.len() <= self@.dom().len(),
    {
        keys.unique_seq_to_set();
        vstd::set_lib::lemma_len_subset(keys.to_set(), self@.dom());
    }

    /// The suspicion counters of a known neighbor.
    pub fn suspicion(&self, neighbor: &Address) -> (r: Option<Suspicion>)
        requires
            self.wf(),
        ensures
            r == if self@.contains_key(*neighbor) {
                Some(self@[*neighbor].suspicion)
            } else {
                None::<Suspicion>
            },
    {
        match self.find(neighbor) {
            Some(i) => Some(self.entries[i].1.suspicion),
            None => None,
        }
    }

    /// No counter of a neighbor goes past the threshold.
    pub proof fn lemma_bounded(&self)
        requires
            self.wf(),
        ensures
            forall|a: Address| #[trigger] self@.contains_key(a) ==> self@[a].suspicion.bounded(),
    {
        assert forall|a: Address| #[trigger] self@.contains_key(a) implies self@[a].suspicion.bounded() by {
            let j = choose|j: int| 0 <= j < self.entries@.len() && self.entries@[j].0 == a;
            assert(self.entries@[j].1.wf());
        }
    }

    pub fn is_registered(&self, neighbor: &Address) -> (r: bool)
        requires
            self.wf(),
        ensures
            r == self@.contains_key(*neighbor),
    {
        match self.find(neighbor) {
            Some(_) => true,
            None => false,
        }
    }
}

impl Default for Neighborhood {
    fn default() -> (r: Neighborhood)
        ensures
            r.wf(),
            r@ == Map::<Address, NeighborView>::empty(),
    {
        Neighborhood::new()
    }
}

} // verus!
