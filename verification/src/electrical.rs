//! The discrete half of the electrical solver: which ports are wired
//! together into nets, whether a net shorts the supply, which nets the
//! supply holds at a fixed level, and which loads join which nets.
use vstd::prelude::*;
use crate::graph::{
    Nets, compute_nets, connected, is_walk, lemma_connected_symmetric, lemma_connected_transitive,
    linked, proper_net, reached,
};
use crate::ports::{
    ComponentPort, PORT_COUNT, catalog_port, lemma_index_of_port_at, lemma_port_at_index, on_panel,
    port_at, port_index,
};
use crate::simulation::{ContactPosition, MinivacSimulation};

verus! {

/// The kind of load that joins two ports.
#[derive(Debug, Clone, Copy, PartialEq, Eq, Structural)]
pub enum LoadType {
    /// Output light `i`, between its terminals A and B.
    Light(usize),
    /// The indicator light of relay `i`, between coil terminals C and E.
    RelayLight(usize),
    /// The coil of relay `i`, between coil terminals E and F.
    RelayCoil(usize),
    /// The dial motor, between terminals 17 and 18.
    Motor,
}

/// A load of fixed resistance (in ohms) between two ports.
#[derive(Debug, Clone, Copy)]
pub struct LoadEdge {
    pub node_a: u128,
    pub node_b: u128,
    pub resistance: u32,
    pub load_type: LoadType,
}

/// How the supply holds a net.
#[derive(Debug, Clone, Copy, PartialEq, Eq, Structural)]
pub enum NetSupply {
    /// The net holds a positive power terminal: it sits at 12 V.
    Positive,
    /// The net holds a negative power terminal (and no positive one): 0 V.
    Negative,
    /// The supply does not hold the net; its level follows its loads.
    Floating,
}

/// A load seen from one of its nets: the net at its other end, and its
/// resistance in ohms.
#[derive(Debug, Clone, Copy)]
pub struct NetLoad {
    pub target_net: usize,
    pub resistance: u32,
}

/// What the voltage solver needs to know of the wired machine.
pub struct Circuit {
    /// The nets: ports (and patch-cord ends) that are wired together.
    pub nets: Nets,
    /// How the supply holds each net.
    pub supply: Vec<NetSupply>,
    /// The loads, in a fixed order.
    pub loads: Vec<LoadEdge>,
    /// The nets of the two ends of each load.
    pub load_nets: Vec<(usize, usize)>,
    /// For each net, the loads that join it to another net.
    pub net_loads: Vec<Vec<NetLoad>>,
    /// Motor terminals 18 and 19 are wired together (the motor's brake).
    pub stop_shorted: bool,
}

/// `ids[i]` is the last entry of `ids` that equals `x`: identifier `x`
/// names the port at catalogue position `i`.
pub open spec fn owns(ids: Seq<u128>, x: u128, i: int) -> bool {
    &&& 0 <= i < ids.len()
    &&& ids[i] == x
    &&& forall|j: int| i < j < ids.len() ==> ids[j] != x
}

/// Identifier `x` names a positive power terminal.
pub open spec fn is_plus_id(ids: Seq<u128>, x: u128) -> bool {
    exists|i: int| #[trigger] owns(ids, x, i) && port_at(i) is PowerPlus
}

/// Identifier `x` names a negative power terminal.
pub open spec fn is_minus_id(ids: Seq<u128>, x: u128) -> bool {
    exists|i: int| #[trigger] owns(ids, x, i) && port_at(i) is PowerMinus
}

/// The net with the members `net` holds a positive power terminal.
pub open spec fn holds_plus(ids: Seq<u128>, net: Seq<u128>) -> bool {
    exists|m: int| 0 <= m < net.len() && #[trigger] is_plus_id(ids, net[m])
}

/// The net with the members `net` holds a negative power terminal.
pub open spec fn holds_minus(ids: Seq<u128>, net: Seq<u128>) -> bool {
    exists|m: int| 0 <= m < net.len() && #[trigger] is_minus_id(ids, net[m])
}

/// How the supply holds a net with the members `net`.
pub open spec fn supply_of(ids: Seq<u128>, net: Seq<u128>) -> NetSupply {
    if holds_plus(ids, net) {
        NetSupply::Positive
    } else if holds_minus(ids, net) {
        NetSupply::Negative
    } else {
        NetSupply::Floating
    }
}

/// The loads of the machine, in order: the six output lights, then for
/// each relay its indicator light and its coil, then the motor.
pub open spec fn load_at(sim: MinivacSimulation, n: int) -> LoadEdge {
    if n < 6 {
        LoadEdge {
            node_a: sim.id_of(ComponentPort::BinaryLight(n as usize, 'A')),
            node_b: sim.id_of(ComponentPort::BinaryLight(n as usize, 'B')),
            resistance: 100,
            load_type: LoadType::Light(n as usize),
        }
    } else if n < 18 && (n - 6) % 2 == 0 {
        LoadEdge {
            node_a: sim.id_of(ComponentPort::RelayCoil(((n - 6) / 2) as usize, 'C')),
            node_b: sim.id_of(ComponentPort::RelayCoil(((n - 6) / 2) as usize, 'E')),
            resistance: 100,
            load_type: LoadType::RelayLight(((n - 6) / 2) as usize),
        }
    } else if n < 18 {
        LoadEdge {
            node_a: sim.id_of(ComponentPort::RelayCoil(((n - 6) / 2) as usize, 'E')),
            node_b: sim.id_of(ComponentPort::RelayCoil(((n - 6) / 2) as usize, 'F')),
            resistance: 200,
            load_type: LoadType::RelayCoil(((n - 6) / 2) as usize),
        }
    } else {
        LoadEdge {
            node_a: sim.id_of(ComponentPort::DialMotor(17)),
            node_b: sim.id_of(ComponentPort::DialMotor(18)),
            resistance: 150,
            load_type: LoadType::Motor,
        }
    }
}

/// Number of loads.
pub const LOAD_COUNT: usize = 19;

/// The loads that join net `k` to another net, in load order, for the
/// loads `loads` whose ends lie in the nets `ends`.
pub open spec fn neighbours(loads: Seq<LoadEdge>, ends: Seq<(usize, usize)>, k: int) -> Seq<NetLoad>
    decreases ends.len(),
{
    if ends.len() == 0 {
        Seq::empty()
    } else {
        let n = ends.len() - 1;
        let prev = neighbours(loads, ends.drop_last(), k);
        let (a, b) = ends[n];
        if a == b {
            prev
        } else if a == k {
            prev.push(NetLoad { target_net: b, resistance: loads[n].resistance })
        } else if b == k {
            prev.push(NetLoad { target_net: a, resistance: loads[n].resistance })
        } else {
            prev
        }
    }
}

/// Two ports joined by a walk of closed links.
pub open spec fn closes_walk(
    sim: MinivacSimulation,
    relays: Seq<ContactPosition>,
    wiper: Option<usize>,
    p: Seq<u128>,
) -> bool {
    &&& p.len() > 0
    &&& forall|i: int| 0 <= i < p.len() - 1 ==> #[trigger] sim.closes(relays, wiper, p[i], p[i + 1])
}

/// `a` and `b` are wired together: a walk of closed links joins them.
pub open spec fn wired(
    sim: MinivacSimulation,
    relays: Seq<ContactPosition>,
    wiper: Option<usize>,
    a: u128,
    b: u128,
) -> bool {
    exists|p: Seq<u128>| #[trigger] closes_walk(sim, relays, wiper, p) && p[0] == a && p.last() == b
}

/// The state wires a positive power terminal to a negative one.
pub open spec fn short_circuit(
    sim: MinivacSimulation,
    relays: Seq<ContactPosition>,
    wiper: Option<usize>,
) -> bool {
    exists|x: u128, y: u128|
        #![trigger is_plus_id(sim.port_ids@, x), is_minus_id(sim.port_ids@, y)]
        is_plus_id(sim.port_ids@, x) && is_minus_id(sim.port_ids@, y) && wired(sim, relays, wiper, x, y)
}

proof fn lemma_wired_connected(
    sim: MinivacSimulation,
    relays: Seq<ContactPosition>,
    wiper: Option<usize>,
    links: Seq<(u128, u128)>,
)
    requires
        forall|a: u128, b: u128| #[trigger] linked(links, a, b) <==> sim.closes(relays, wiper, a, b),
    ensures
        forall|a: u128, b: u128| #[trigger] wired(sim, relays, wiper, a, b) <==> connected(links, a, b),
{
    assert forall|a: u128, b: u128| #[trigger] wired(sim, relays, wiper, a, b) <==> connected(links, a, b) by {
        if wired(sim, relays, wiper, a, b) {
            let p = choose|p: Seq<u128>| #[trigger] closes_walk(sim, relays, wiper, p) && p[0] == a && p.last() == b;
            assert forall|i: int| 0 <= i < p.len() - 1 implies #[trigger] linked(links, p[i], p[i + 1]) by {
                assert(sim.closes(relays, wiper, p[i], p[i + 1]));
            }
            assert(is_walk(links, p));
        }
        if connected(links, a, b) {
            let p = choose|p: Seq<u128>| #[trigger] is_walk(links, p) && p[0] == a && p.last() == b;
            assert forall|i: int| 0 <= i < p.len() - 1 implies #[trigger] sim.closes(relays, wiper, p[i], p[i + 1]) by {
                assert(linked(links, p[i], p[i + 1]));
            }
            assert(closes_walk(sim, relays, wiper, p));
        }
    }
}

proof fn lemma_closes_transfer(
    s1: MinivacSimulation,
    s2: MinivacSimulation,
    relays: Seq<ContactPosition>,
    wiper: Option<usize>,
    a: u128,
    b: u128,
)
    requires
        s1.connections@ == s2.connections@,
        s1.buttons_pressed == s2.buttons_pressed,
        s1.switches_right == s2.switches_right,
        s1.port_ids@ == s2.port_ids@,
        s1.closes(relays, wiper, a, b),
    ensures
        s2.closes(relays, wiper, a, b),
{
    if exists|c: int| #[trigger] s1.cord_link(c, a, b) {
        let c = choose|c: int| #[trigger] s1.cord_link(c, a, b);
        assert(s2.cord_link(c, a, b));
    } else if exists|i: int| #[trigger] s1.button_link(i, a, b) {
        let i = choose|i: int| #[trigger] s1.button_link(i, a, b);
        assert(s2.button_link(i, a, b));
    } else if exists|i: int| #[trigger] s1.switch_link(i, a, b) {
        let i = choose|i: int| #[trigger] s1.switch_link(i, a, b);
        assert(s2.switch_link(i, a, b));
    } else if exists|i: int| #[trigger] s1.relay_link(relays, i, a, b) {
        let i = choose|i: int| #[trigger] s1.relay_link(relays, i, a, b);
        assert(s2.relay_link(relays, i, a, b));
    } else if s1.wiper_link(wiper, a, b) {
        assert(s2.wiper_link(wiper, a, b));
    } else if exists|i: int| #[trigger] s1.matrix_link(i, a, b) {
        let i = choose|i: int| #[trigger] s1.matrix_link(i, a, b);
        assert(s2.matrix_link(i, a, b));
    } else {
        let (i, h) = choose|i: int, h: int| #[trigger] s1.tie_link(i, h, a, b);
        assert(s2.tie_link(i, h, a, b));
    }
}

/// Two states with the same cords, buttons, switches and identifiers close
/// the same links, and so wire the same ports together.
pub proof fn lemma_same_wiring(
    s1: MinivacSimulation,
    s2: MinivacSimulation,
    relays: Seq<ContactPosition>,
    wiper: Option<usize>,
)
    requires
        s1.connections@ == s2.connections@,
        s1.buttons_pressed == s2.buttons_pressed,
        s1.switches_right == s2.switches_right,
        s1.port_ids@ == s2.port_ids@,
    ensures
        forall|a: u128, b: u128| #[trigger] s1.closes(relays, wiper, a, b) == s2.closes(relays, wiper, a, b),
        forall|a: u128, b: u128| #[trigger] wired(s1, relays, wiper, a, b) == wired(s2, relays, wiper, a, b),
        short_circuit(s1, relays, wiper) == short_circuit(s2, relays, wiper),
{
    assert forall|a: u128, b: u128| #[trigger] s1.closes(relays, wiper, a, b) == s2.closes(relays, wiper, a, b) by {
        if s1.closes(relays, wiper, a, b) {
            lemma_closes_transfer(s1, s2, relays, wiper, a, b);
        }
        if s2.closes(relays, wiper, a, b) {
            lemma_closes_transfer(s2, s1, relays, wiper, a, b);
        }
    }
    assert forall|p: Seq<u128>| #[trigger] closes_walk(s1, relays, wiper, p) == closes_walk(s2, relays, wiper, p) by {
        if closes_walk(s1, relays, wiper, p) {
            assert forall|i: int| 0 <= i < p.len() - 1 implies #[trigger] s2.closes(relays, wiper, p[i], p[i + 1]) by {
                assert(s1.closes(relays, wiper, p[i], p[i + 1]));
            }
        }
        if closes_walk(s2, relays, wiper, p) {
            assert forall|i: int| 0 <= i < p.len() - 1 implies #[trigger] s1.closes(relays, wiper, p[i], p[i + 1]) by {
                assert(s2.closes(relays, wiper, p[i], p[i + 1]));
            }
        }
    }
    assert forall|a: u128, b: u128| #[trigger] wired(s1, relays, wiper, a, b) == wired(s2, relays, wiper, a, b) by {
        if wired(s1, relays, wiper, a, b) {
            let p = choose|p: Seq<u128>| #[trigger] closes_walk(s1, relays, wiper, p) && p[0] == a && p.last() == b;
            assert(closes_walk(s2, relays, wiper, p));
        }
        if wired(s2, relays, wiper, a, b) {
            let p = choose|p: Seq<u128>| #[trigger] closes_walk(s2, relays, wiper, p) && p[0] == a && p.last() == b;
            assert(closes_walk(s1, relays, wiper, p));
        }
    }
}

/// The catalogue position whose port identifier `x` names: the last entry
/// of `ids` equal to `x`.
pub fn owner_of(ids: &Vec<u128>, x: u128) -> (r: Option<usize>)
    ensures
        match r {
            Some(i) => owns(ids@, x, i as int),
            None => !ids@.contains(x),
        },
{
    let mut i = ids.len();
    while i > 0
        invariant
            i <= ids@.len(),
            forall|j: int| i <= j < ids@.len() ==> ids@[j] != x,
        decreases i,
    {
        i = i - 1;
        if ids[i] == x {
            return Some(i);
        }
    }
    None
}

/// Whether identifier `x` names a positive, or a negative, power terminal.
fn terminal_kind(ids: &Vec<u128>, x: u128) -> (r: (bool, bool))
    requires
        ids@.len() == PORT_COUNT,
    ensures
        r.0 == is_plus_id(ids@, x),
        r.1 == is_minus_id(ids@, x),
{
    match owner_of(ids, x) {
        Some(i) => {
            let p = catalog_port(i);
            proof {
                assert forall|j: int| #[trigger] owns(ids@, x, j) implies j == i by {
                    if j < i {
                        assert(ids@[i as int] != x);
                    } else if j > i {
                        assert(ids@[j] != x);
                    }
                }
            }
            match p {
                ComponentPort::PowerPlus(_) => (true, false),
                ComponentPort::PowerMinus(_) => (false, true),
                _ => (false, false),
            }
        },
        None => (false, false),
    }
}

/// Whether the net `net` holds a positive, or a negative, power terminal.
fn net_terminals(ids: &Vec<u128>, net: &Vec<u128>) -> (r: (bool, bool))
    requires
        ids@.len() == PORT_COUNT,
    ensures
        r.0 == holds_plus(ids@, net@),
        r.1 == holds_minus(ids@, net@),
{
    let mut has_plus = false;
    let mut has_minus = false;
    for m in 0..net.len()
        invariant
            ids@.len() == PORT_COUNT,
            has_plus == exists|m2: int| 0 <= m2 < m && #[trigger] is_plus_id(ids@, net@[m2]),
            has_minus == exists|m2: int| 0 <= m2 < m && #[trigger] is_minus_id(ids@, net@[m2]),
    {
        let (p, n) = terminal_kind(ids, net[m]);
        if p {
            has_plus = true;
        }
        if n {
            has_minus = true;
        }
    }
    (has_plus, has_minus)
}

/// Lists, for each of the `count` nets, the loads that join it to another
/// net.
fn neighbour_lists(loads: &Vec<LoadEdge>, ends: &Vec<(usize, usize)>, count: usize) -> (r: Vec<Vec<NetLoad>>)
    requires
        loads@.len() == ends@.len(),
    ensures
        r@.len() == count,
        forall|k: int| 0 <= k < count ==> #[trigger] r@[k]@ == neighbours(loads@, ends@, k),
{
    let mut r: Vec<Vec<NetLoad>> = Vec::new();
    for k in 0..count
        invariant
            loads@.len() == ends@.len(),
            r@.len() == k,
            forall|k2: int| 0 <= k2 < k ==> #[trigger] r@[k2]@ == neighbours(loads@, ends@, k2),
    {
        let mut lst: Vec<NetLoad> = Vec::new();
        for l in 0..ends.len()
            invariant
                loads@.len() == ends@.len(),
                lst@ == neighbours(loads@, ends@.subrange(0, l as int), k as int),
        {
            let (a, b) = ends[l];
            proof {
                assert(ends@.subrange(0, l + 1).drop_last() =~= ends@.subrange(0, l as int));
                assert(ends@.subrange(0, l + 1)[l as int] == (a, b));
            }
            if a != b {
                if a == k {
                    lst.push(NetLoad { target_net: b, resistance: loads[l].resistance });
                } else if b == k {
                    lst.push(NetLoad { target_net: a, resistance: loads[l].resistance });
                }
            }
        }
        proof {
            assert(ends@.subrange(0, ends@.len() as int) =~= ends@);
        }
        r.push(lst);
    }
    r
}

impl MinivacSimulation {
    /// The machine's loads, in the order of `load_at`.
    pub fn loads(&self) -> (v: Vec<LoadEdge>)
        requires
            self.wf(),
        ensures
            v@.len() == LOAD_COUNT,
            forall|n: int| 0 <= n < LOAD_COUNT ==> #[trigger] v@[n] == load_at(*self, n),
    {
        let mut v: Vec<LoadEdge> = Vec::new();
        for i in 0..6usize
            invariant
                self.wf(),
                v@.len() == i,
                forall|n: int| 0 <= n < i ==> #[trigger] v@[n] == load_at(*self, n),
        {
            v.push(LoadEdge {
                node_a: self.id_of_port(ComponentPort::BinaryLight(i, 'A')),
                node_b: self.id_of_port(ComponentPort::BinaryLight(i, 'B')),
                resistance: 100,
                load_type: LoadType::Light(i),
            });
        }
        for i in 0..6usize
            invariant
                self.wf(),
                v@.len() == 6 + 2 * i,
                forall|n: int| 0 <= n < 6 + 2 * i ==> #[trigger] v@[n] == load_at(*self, n),
        {
            v.push(LoadEdge {
                node_a: self.id_of_port(ComponentPort::RelayCoil(i, 'C')),
                node_b: self.id_of_port(ComponentPort::RelayCoil(i, 'E')),
                resistance: 100,
                load_type: LoadType::RelayLight(i),
            });
            v.push(LoadEdge {
                node_a: self.id_of_port(ComponentPort::RelayCoil(i, 'E')),
                node_b: self.id_of_port(ComponentPort::RelayCoil(i, 'F')),
                resistance: 200,
                load_type: LoadType::RelayCoil(i),
            });
            proof {
                assert((6 + 2 * i - 6) / 2 == i && (6 + 2 * i - 6) % 2 == 0);
                assert((6 + 2 * i + 1 - 6) / 2 == i && (6 + 2 * i + 1 - 6) % 2 == 1);
            }
        }
        v.push(LoadEdge {
            node_a: self.id_of_port(ComponentPort::DialMotor(17)),
            node_b: self.id_of_port(ComponentPort::DialMotor(18)),
            resistance: 150,
            load_type: LoadType::Motor,
        });
        v
    }
}

impl MinivacSimulation {
    /// The circuit `c` is the one the present state wires up, given where
    /// the relay armatures stand and which dial contact the wiper touches.
    pub open spec fn describes(&self, c: Circuit, relays: Seq<ContactPosition>, wiper: Option<usize>) -> bool {
        let ids = self.port_ids@;
        &&& c.nets.wf()
        &&& forall|x: u128|
            #[trigger] c.nets.has_net(x) <==> exists|i: int|
                0 <= i < PORT_COUNT && #[trigger] wired(*self, relays, wiper, ids[i], x)
        &&& forall|x: u128, y: u128, kx: int, ky: int|
            #[trigger] c.nets.in_net(x, kx) && #[trigger] c.nets.in_net(y, ky) ==> (kx == ky
                <==> wired(*self, relays, wiper, x, y))
        &&& c.supply@.len() == c.nets.members@.len()
        &&& forall|k: int|
            0 <= k < c.supply@.len() ==> #[trigger] c.supply@[k] == supply_of(ids, c.nets.members@[k]@)
        &&& c.loads@.len() == LOAD_COUNT
        &&& forall|n: int| 0 <= n < LOAD_COUNT ==> #[trigger] c.loads@[n] == load_at(*self, n)
        &&& c.load_nets@.len() == LOAD_COUNT
        &&& forall|n: int|
            #![trigger c.load_nets@[n]]
            0 <= n < LOAD_COUNT ==> c.nets.in_net(c.loads@[n].node_a, c.load_nets@[n].0 as int)
                && c.nets.in_net(c.loads@[n].node_b, c.load_nets@[n].1 as int)
        &&& c.net_loads@.len() == c.nets.members@.len()
        &&& forall|k: int|
            0 <= k < c.net_loads@.len() ==> #[trigger] c.net_loads@[k]@ == neighbours(
                c.loads@,
                c.load_nets@,
                k,
            )
        &&& c.stop_shorted == wired(
            *self,
            relays,
            wiper,
            self.id_of(ComponentPort::DialMotor(18)),
            self.id_of(ComponentPort::DialMotor(19)),
        )
    }

    /// Works out the nets for the voltage solver. The motor stops unless the
    /// solver finds it driven. With the power off, or the breaker tripped,
    /// there is no circuit. A net that holds both a positive and a negative
    /// power terminal trips the breaker. Solving never resets a tripped
    /// breaker. The wiper's contact is read only with the power on.
    pub fn solve_electrical(&mut self, relays: &[ContactPosition; 6], wiper: Option<usize>) -> (r: Option<Circuit>)
        requires
            old(self).wf(),
            old(self).power_on ==> (wiper matches Some(c) ==> c < 16),
        ensures
            final(self).port_ids@ == old(self).port_ids@,
            final(self).connections@ == old(self).connections@,
            final(self).buttons_pressed == old(self).buttons_pressed,
            final(self).switches_right == old(self).switches_right,
            final(self).relay_state == old(self).relay_state,
            final(self).power_on == old(self).power_on,
            !final(self).motor_running,
            final(self).breaker_tripped == (old(self).breaker_tripped || (old(self).power_on
                && short_circuit(*old(self), relays@, wiper))),
            r is Some <==> (old(self).power_on && !final(self).breaker_tripped),
            old(self).breaker_tripped ==> final(self).breaker_tripped && r is None,
            r matches Some(c) ==> final(self).describes(c, relays@, wiper),
    {
        self.motor_running = false;
        if !self.power_on {
            return None;
        }
        let ghost s0 = *self;
        let links = self.zero_links(relays, wiper);
        let nets = compute_nets(&links, &self.port_ids);
        let ghost ids = self.port_ids@;
        proof {
            lemma_same_wiring(s0, *old(self), relays@, wiper);
            lemma_wired_connected(s0, relays@, wiper, links@);
            // every port belongs to a net
            assert forall|i: int| 0 <= i < PORT_COUNT implies #[trigger] nets.has_net(ids[i]) by {
                crate::graph::lemma_connected_reflexive(links@, ids[i]);
                assert(reached(links@, ids, ids[i]));
            }
        }
        if !self.breaker_tripped {
            let count = nets.members.len();
            #[verifier::loop_isolation(false)]
            for k in 0..count
                invariant
                    count == nets.members@.len(),
                    nets.wf(),
                    *self == s0,
                    ids == self.port_ids@,
                    ids.len() == PORT_COUNT,
                    forall|k2: int| 0 <= k2 < k ==> !(#[trigger] holds_plus(ids, nets.members@[k2]@)
                        && holds_minus(ids, nets.members@[k2]@)),
            {
                let (p, m) = net_terminals(&self.port_ids, &nets.members[k]);
                if p && m {
                    proof {
                        let net = nets.members@[k as int]@;
                        let m1 = choose|m1: int| 0 <= m1 < net.len() && #[trigger] is_plus_id(ids, net[m1]);
                        let m2 = choose|m2: int| 0 <= m2 < net.len() && #[trigger] is_minus_id(ids, net[m2]);
                        assert(net.contains(net[m1]) && net.contains(net[m2]));
                        assert(nets.in_net(net[m1], k as int));
                        assert(nets.in_net(net[m2], k as int));
                        assert(connected(links@, net[m1], net[m2]));
                        assert(wired(s0, relays@, wiper, net[m1], net[m2]));
                        assert(wired(*old(self), relays@, wiper, net[m1], net[m2]));
                        assert(short_circuit(*old(self), relays@, wiper));
                    }
                    self.breaker_tripped = true;
                    return None;
                }
            }
            proof {
                if short_circuit(*old(self), relays@, wiper) {
                    let (x, y) = choose|x: u128, y: u128|
                        #![trigger is_plus_id(ids, x), is_minus_id(ids, y)]
                        is_plus_id(ids, x) && is_minus_id(ids, y) && wired(*old(self), relays@, wiper, x, y);
                    let ix = choose|i: int| #[trigger] owns(ids, x, i) && port_at(i) is PowerPlus;
                    let iy = choose|i: int| #[trigger] owns(ids, y, i) && port_at(i) is PowerMinus;
                    assert(nets.has_net(ids[ix]));
                    assert(nets.has_net(ids[iy]));
                    let kx = choose|k: int| #[trigger] nets.in_net(x, k);
                    let ky = choose|k: int| #[trigger] nets.in_net(y, k);
                    assert(wired(s0, relays@, wiper, x, y));
                    assert(connected(links@, x, y));
                    assert(kx == ky);
                    let i1 = choose|i: int| 0 <= i < nets.ids@.len() && #[trigger] nets.ids@[i] == x && nets.id_net@[i] == kx;
                    assert(nets.id_net@[i1] < nets.members@.len());
                    assert(nets.members@[kx]@.contains(x));
                    assert(nets.members@[kx]@.contains(y));
                    let net = nets.members@[kx]@;
                    let m1 = choose|m1: int| 0 <= m1 < net.len() && net[m1] == x;
                    let m2 = choose|m2: int| 0 <= m2 < net.len() && net[m2] == y;
                    assert(is_plus_id(ids, net[m1]));
                    assert(is_minus_id(ids, net[m2]));
                    assert(holds_plus(ids, net) && holds_minus(ids, net));
                    assert(false);
                }
            }
        }
        if self.breaker_tripped {
            return None;
        }
        let count = nets.members.len();
        let mut supply: Vec<NetSupply> = Vec::new();
        for k in 0..count
            invariant
                count == nets.members@.len(),
                self.wf(),
                supply@.len() == k,
                forall|k2: int| 0 <= k2 < k ==> #[trigger] supply@[k2] == supply_of(self.port_ids@, nets.members@[k2]@),
        {
            let (p, m) = net_terminals(&self.port_ids, &nets.members[k]);
            let s = if p {
                NetSupply::Positive
            } else if m {
                NetSupply::Negative
            } else {
                NetSupply::Floating
            };
            supply.push(s);
        }
        let loads = self.loads();
        let mut load_nets: Vec<(usize, usize)> = Vec::new();
        for n in 0..LOAD_COUNT
            invariant
                self.wf(),
                ids == self.port_ids@,
                nets.wf(),
                loads@.len() == LOAD_COUNT,
                forall|n2: int| 0 <= n2 < LOAD_COUNT ==> #[trigger] loads@[n2] == load_at(*self, n2),
                forall|i: int| 0 <= i < PORT_COUNT ==> #[trigger] nets.has_net(ids[i]),
                load_nets@.len() == n,
                forall|n2: int|
                    #![trigger load_nets@[n2]]
                    0 <= n2 < n ==> nets.in_net(loads@[n2].node_a, load_nets@[n2].0 as int)
                        && nets.in_net(loads@[n2].node_b, load_nets@[n2].1 as int),
        {
            let load = loads[n];
            proof {
                let l = load_at(*self, n as int);
                let (pa, pb) = if n < 6 {
                    (ComponentPort::BinaryLight(n as usize, 'A'), ComponentPort::BinaryLight(n as usize, 'B'))
                } else if n < 18 && (n - 6) % 2 == 0 {
                    (ComponentPort::RelayCoil(((n - 6) / 2) as usize, 'C'), ComponentPort::RelayCoil(((n - 6) / 2) as usize, 'E'))
                } else if n < 18 {
                    (ComponentPort::RelayCoil(((n - 6) / 2) as usize, 'E'), ComponentPort::RelayCoil(((n - 6) / 2) as usize, 'F'))
                } else {
                    (ComponentPort::DialMotor(17), ComponentPort::DialMotor(18))
                };
                assert(l.node_a == self.id_of(pa) && l.node_b == self.id_of(pb));
                assert(on_panel(pa) && on_panel(pb));
                lemma_port_at_index(pa);
                lemma_port_at_index(pb);
                assert(nets.has_net(ids[port_index(pa)->0]));
                assert(nets.has_net(ids[port_index(pb)->0]));
            }
            let a = nets.net_of(load.node_a).unwrap();
            let b = nets.net_of(load.node_b).unwrap();
            load_nets.push((a, b));
        }
        let net_loads = neighbour_lists(&loads, &load_nets, count);
        let m18 = self.id_of_port(ComponentPort::DialMotor(18));
        let m19 = self.id_of_port(ComponentPort::DialMotor(19));
        proof {
            lemma_port_at_index(ComponentPort::DialMotor(18));
            lemma_port_at_index(ComponentPort::DialMotor(19));
            assert(nets.has_net(ids[port_index(ComponentPort::DialMotor(18))->0]));
            assert(nets.has_net(ids[port_index(ComponentPort::DialMotor(19))->0]));
        }
        let stop_shorted = nets.net_of(m18).unwrap() == nets.net_of(m19).unwrap();
        let c = Circuit { nets, supply, loads, load_nets, net_loads, stop_shorted };
        proof {
            assert forall|x: u128|
                #[trigger] c.nets.has_net(x) <==> exists|i: int|
                    0 <= i < PORT_COUNT && #[trigger] wired(*self, relays@, wiper, ids[i], x) by {
                if c.nets.has_net(x) {
                    let j = choose|j: int| 0 <= j < ids.len() && #[trigger] connected(links@, ids[j], x);
                    assert(wired(*self, relays@, wiper, ids[j], x));
                }
                if exists|i: int| 0 <= i < PORT_COUNT && #[trigger] wired(*self, relays@, wiper, ids[i], x) {
                    let j = choose|j: int| 0 <= j < PORT_COUNT && #[trigger] wired(*self, relays@, wiper, ids[j], x);
                    assert(connected(links@, ids[j], x));
                    assert(reached(links@, ids, x));
                }
            }
        }
        Some(c)
    }
}

} // verus!
