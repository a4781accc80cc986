//! The machine's discrete state: patch cords, switch positions, relay
//! latches, power and breaker; and the links of zero resistance that this
//! state closes between ports.
use vstd::prelude::*;
use crate::graph::linked;
use crate::outside::random_port_id;
use crate::patching::no_self_cords;
use crate::ports::{
    ComponentPort, PORT_COUNT, catalog_index, lemma_port_at_index, on_panel, port_index,
};

verus! {

/// A patch cord from one hole of a port to one hole of another.
#[derive(Clone, Copy, Debug)]
pub struct Connection {
    pub from: u128,
    pub from_hole: usize,
    pub to: u128,
    pub to_hole: usize,
    /// RGBA colour of the cord.
    pub color: [u8; 4],
}

/// Where a relay's armature stands: pulled in (progress at its end), let go
/// (progress at its start), or travelling between the two, when both
/// contact sets are open (break before make).
#[derive(Clone, Copy, Debug, PartialEq, Eq, Structural)]
pub enum ContactPosition {
    Energized,
    Released,
    Moving,
}

/// The discrete state of the machine. Each port is known by a 128-bit
/// identifier; `port_ids[i]` is the identifier of the port at catalogue
/// position `i`.
pub struct MinivacSimulation {
    pub connections: Vec<Connection>,
    pub buttons_pressed: [bool; 6],
    pub switches_right: [bool; 6],
    pub relay_state: [bool; 6],
    pub motor_running: bool,
    pub breaker_tripped: bool,
    pub power_on: bool,
    pub port_ids: Vec<u128>,
}

/// `id` has the shape of a random (version 4, RFC 4122 variant) UUID.
pub open spec fn v4_shaped(id: u128) -> bool {
    (id >> 76u128) & 0xfu128 == 4 && (id >> 62u128) & 0x3u128 == 2
}

/// The link between `x` and `y` is the pair `a`, `b` (in either order).
pub open spec fn joins(a: u128, b: u128, x: u128, y: u128) -> bool {
    (a == x && b == y) || (a == y && b == x)
}

/// Adding a link adds exactly that pair to the linked pairs.
pub proof fn lemma_linked_push(v: Seq<(u128, u128)>, x: u128, y: u128)
    ensures
        forall|a: u128, b: u128|
            #[trigger] linked(v.push((x, y)), a, b) <==> linked(v, a, b) || joins(a, b, x, y),
{
    let w = v.push((x, y));
    assert forall|a: u128, b: u128|
        #[trigger] linked(w, a, b) <==> linked(v, a, b) || joins(a, b, x, y) by {
        if linked(v, a, b) {
            let q = choose|q: int| 0 <= q < v.len() && (v[q] == (a, b) || v[q] == (b, a));
            assert(w[q] == v[q]);
        }
        if joins(a, b, x, y) {
            assert(w[v.len() as int] == (x, y));
        }
        if linked(w, a, b) {
            let q = choose|q: int| 0 <= q < w.len() && (w[q] == (a, b) || w[q] == (b, a));
            if q < v.len() {
                assert(v[q] == w[q]);
            }
        }
    }
}

impl MinivacSimulation {
    /// Every port has an identifier.
    pub open spec fn wf(&self) -> bool {
        self.port_ids@.len() == PORT_COUNT
    }

    /// The identifier of port `p`.
    pub open spec fn id_of(&self, p: ComponentPort) -> u128 {
        self.port_ids@[port_index(p)->0]
    }

    /// The identifier of port `p`.
    pub fn id_of_port(&self, p: ComponentPort) -> (id: u128)
        requires
            self.wf(),
            on_panel(p),
        ensures
            id == self.id_of(p),
    {
        let i = catalog_index(p).unwrap();
        proof {
            lemma_port_at_index(p);
        }
        self.port_ids[i]
    }

    /// The identifier of port `p`, or `None` for a port the machine lacks.
    pub fn port_id(&self, p: ComponentPort) -> (r: Option<u128>)
        requires
            self.wf(),
        ensures
            r == (if on_panel(p) { Some(self.id_of(p)) } else { None::<u128> }),
    {
        match catalog_index(p) {
            Some(i) => {
                proof {
                    lemma_port_at_index(p);
                }
                Some(self.port_ids[i])
            },
            None => None,
        }
    }

    /// A patch cord joins `a` and `b`.
    pub open spec fn cord_link(&self, c: int, a: u128, b: u128) -> bool {
        0 <= c < self.connections@.len() && joins(
            a,
            b,
            self.connections@[c].from,
            self.connections@[c].to,
        )
    }

    /// Pushbutton `i` joins its common terminal Y to X when pressed and to Z
    /// when released.
    pub open spec fn button_link(&self, i: int, a: u128, b: u128) -> bool {
        let y = self.id_of(ComponentPort::Pushbutton(i as usize, 'Y'));
        let other = if self.buttons_pressed@[i] {
            self.id_of(ComponentPort::Pushbutton(i as usize, 'X'))
        } else {
            self.id_of(ComponentPort::Pushbutton(i as usize, 'Z'))
        };
        0 <= i < 6 && joins(a, b, y, other)
    }

    /// Slide switch `i` joins S-T and V-W when slid right, S-R and V-U when
    /// slid left.
    pub open spec fn switch_link(&self, i: int, a: u128, b: u128) -> bool {
        let s = self.id_of(ComponentPort::SlideSwitch(i as usize, 'S'));
        let v = self.id_of(ComponentPort::SlideSwitch(i as usize, 'V'));
        &&& 0 <= i < 6
        &&& if self.switches_right@[i] {
            joins(a, b, s, self.id_of(ComponentPort::SlideSwitch(i as usize, 'T'))) || joins(
                a,
                b,
                v,
                self.id_of(ComponentPort::SlideSwitch(i as usize, 'W')),
            )
        } else {
            joins(a, b, s, self.id_of(ComponentPort::SlideSwitch(i as usize, 'R'))) || joins(
                a,
                b,
                v,
                self.id_of(ComponentPort::SlideSwitch(i as usize, 'U')),
            )
        }
    }

    /// Relay `i` joins H-G and L-K when energized, H-J and L-N when
    /// released, and nothing while its armature moves.
    pub open spec fn relay_link(&self, relays: Seq<ContactPosition>, i: int, a: u128, b: u128) -> bool {
        let h = self.id_of(ComponentPort::RelayContact(i as usize, 'H'));
        let l = self.id_of(ComponentPort::RelayContact(i as usize, 'L'));
        &&& 0 <= i < 6
        &&& match relays[i] {
            ContactPosition::Energized => joins(
                a,
                b,
                h,
                self.id_of(ComponentPort::RelayContact(i as usize, 'G')),
            ) || joins(a, b, l, self.id_of(ComponentPort::RelayContact(i as usize, 'K'))),
            ContactPosition::Released => joins(
                a,
                b,
                h,
                self.id_of(ComponentPort::RelayContact(i as usize, 'J')),
            ) || joins(a, b, l, self.id_of(ComponentPort::RelayContact(i as usize, 'N'))),
            ContactPosition::Moving => false,
        }
    }

    /// The dial wiper D16 touches dial contact `c`.
    pub open spec fn wiper_link(&self, wiper: Option<usize>, a: u128, b: u128) -> bool {
        match wiper {
            Some(c) => joins(
                a,
                b,
                self.id_of(ComponentPort::DialWiper),
                self.id_of(ComponentPort::DialContact(c)),
            ),
            None => false,
        }
    }

    /// Matrix point `i` joins its top and bottom holes.
    pub open spec fn matrix_link(&self, i: int, a: u128, b: u128) -> bool {
        0 <= i < 11 && joins(
            a,
            b,
            self.id_of(ComponentPort::MatrixPoint(i as usize, 't')),
            self.id_of(ComponentPort::MatrixPoint(i as usize, 'b')),
        )
    }

    /// Tie-point block `i` joins its hole 0 to its hole `h`.
    pub open spec fn tie_link(&self, i: int, h: int, a: u128, b: u128) -> bool {
        0 <= i < 6 && 1 <= h < 4 && joins(
            a,
            b,
            self.id_of(ComponentPort::TiePoint(i as usize, 0)),
            self.id_of(ComponentPort::TiePoint(i as usize, h as usize)),
        )
    }

    /// The machine's present state joins `a` and `b` with no resistance
    /// between them, given where the relay armatures stand and which dial
    /// contact the wiper touches.
    pub open spec fn closes(
        &self,
        relays: Seq<ContactPosition>,
        wiper: Option<usize>,
        a: u128,
        b: u128,
    ) -> bool {
        ||| exists|c: int| #[trigger] self.cord_link(c, a, b)
        ||| exists|i: int| #[trigger] self.button_link(i, a, b)
        ||| exists|i: int| #[trigger] self.switch_link(i, a, b)
        ||| exists|i: int| #[trigger] self.relay_link(relays, i, a, b)
        ||| self.wiper_link(wiper, a, b)
        ||| exists|i: int| #[trigger] self.matrix_link(i, a, b)
        ||| exists|i: int, h: int| #[trigger] self.tie_link(i, h, a, b)
    }

    fn push_cord_links(&self, v: &mut Vec<(u128, u128)>)
        ensures
            forall|a: u128, b: u128|
                #[trigger] linked(final(v)@, a, b) <==> linked(old(v)@, a, b) || exists|c: int|
                    #[trigger] self.cord_link(c, a, b),
    {
        let n = self.connections.len();
        for c in 0..n
            invariant
                n == self.connections@.len(),
                forall|a: u128, b: u128|
                    #[trigger] linked(v@, a, b) <==> linked(old(v)@, a, b) || exists|c2: int|
                        0 <= c2 < c && #[trigger] self.cord_link(c2, a, b),
        {
            let conn = self.connections[c];
            proof {
                lemma_linked_push(v@, conn.from, conn.to);
            }
            v.push((conn.from, conn.to));
            proof {
                assert forall|a: u128, b: u128|
                    #[trigger] linked(v@, a, b) <==> linked(old(v)@, a, b) || exists|c2: int|
                        0 <= c2 < c + 1 && #[trigger] self.cord_link(c2, a, b) by {
                    if joins(a, b, conn.from, conn.to) {
                        assert(self.cord_link(c as int, a, b));
                    }
                }
            }
        }
    }

    fn push_button_links(&self, v: &mut Vec<(u128, u128)>)
        requires
            self.wf(),
        ensures
            forall|a: u128, b: u128|
                #[trigger] linked(final(v)@, a, b) <==> linked(old(v)@, a, b) || exists|i: int|
                    #[trigger] self.button_link(i, a, b),
    {
        for i in 0..6usize
            invariant
                self.wf(),
                forall|a: u128, b: u128|
                    #[trigger] linked(v@, a, b) <==> linked(old(v)@, a, b) || exists|i2: int|
                        0 <= i2 < i && #[trigger] self.button_link(i2, a, b),
        {
            let y = self.id_of_port(ComponentPort::Pushbutton(i, 'Y'));
            let other = if self.buttons_pressed[i] {
                self.id_of_port(ComponentPort::Pushbutton(i, 'X'))
            } else {
                self.id_of_port(ComponentPort::Pushbutton(i, 'Z'))
            };
            proof {
                lemma_linked_push(v@, y, other);
            }
            v.push((y, other));
            proof {
                assert forall|a: u128, b: u128|
                    #[trigger] linked(v@, a, b) <==> linked(old(v)@, a, b) || exists|i2: int|
                        0 <= i2 < i + 1 && #[trigger] self.button_link(i2, a, b) by {
                    if joins(a, b, y, other) {
                        assert(self.button_link(i as int, a, b));
                    }
                }
            }
        }
    }

    fn push_switch_links(&self, v: &mut Vec<(u128, u128)>)
        requires
            self.wf(),
        ensures
            forall|a: u128, b: u128|
                #[trigger] linked(final(v)@, a, b) <==> linked(old(v)@, a, b) || exists|i: int|
                    #[trigger] self.switch_link(i, a, b),
    {
        for i in 0..6usize
            invariant
                self.wf(),
                forall|a: u128, b: u128|
                    #[trigger] linked(v@, a, b) <==> linked(old(v)@, a, b) || exists|i2: int|
                        0 <= i2 < i && #[trigger] self.switch_link(i2, a, b),
        {
            let s = self.id_of_port(ComponentPort::SlideSwitch(i, 'S'));
            let w = self.id_of_port(ComponentPort::SlideSwitch(i, 'V'));
            let (s2, w2) = if self.switches_right[i] {
                (
                    self.id_of_port(ComponentPort::SlideSwitch(i, 'T')),
                    self.id_of_port(ComponentPort::SlideSwitch(i, 'W')),
                )
            } else {
                (
                    self.id_of_port(ComponentPort::SlideSwitch(i, 'R')),
                    self.id_of_port(ComponentPort::SlideSwitch(i, 'U')),
                )
            };
            let ghost v0 = v@;
            proof {
                lemma_linked_push(v@, s, s2);
                lemma_linked_push(v@.push((s, s2)), w, w2);
            }
            v.push((s, s2));
            v.push((w, w2));
            proof {
                assert forall|a: u128, b: u128|
                    #[trigger] linked(v@, a, b) <==> linked(old(v)@, a, b) || exists|i2: int|
                        0 <= i2 < i + 1 && #[trigger] self.switch_link(i2, a, b) by {
                    assert(linked(v@, a, b) <==> linked(v0.push((s, s2)), a, b) || joins(a, b, w, w2));
                    assert(linked(v0.push((s, s2)), a, b) <==> linked(v0, a, b) || joins(a, b, s, s2));
                    if joins(a, b, s, s2) || joins(a, b, w, w2) {
                        assert(self.switch_link(i as int, a, b));
                    }
                    if self.switch_link(i as int, a, b) {
                        assert(joins(a, b, s, s2) || joins(a, b, w, w2));
                    }
                }
            }
        }
    }

    fn push_relay_links(&self, relays: &[ContactPosition; 6], v: &mut Vec<(u128, u128)>)
        requires
            self.wf(),
        ensures
            forall|a: u128, b: u128|
                #[trigger] linked(final(v)@, a, b) <==> linked(old(v)@, a, b) || exists|i: int|
                    #[trigger] self.relay_link(relays@, i, a, b),
    {
        for i in 0..6usize
            invariant
                self.wf(),
                forall|a: u128, b: u128|
                    #[trigger] linked(v@, a, b) <==> linked(old(v)@, a, b) || exists|i2: int|
                        0 <= i2 < i && #[trigger] self.relay_link(relays@, i2, a, b),
        {
            let h = self.id_of_port(ComponentPort::RelayContact(i, 'H'));
            let l = self.id_of_port(ComponentPort::RelayContact(i, 'L'));
            let ghost v0 = v@;
            match relays[i] {
                ContactPosition::Energized => {
                    let g = self.id_of_port(ComponentPort::RelayContact(i, 'G'));
                    let k = self.id_of_port(ComponentPort::RelayContact(i, 'K'));
                    proof {
                        lemma_linked_push(v@, h, g);
                        lemma_linked_push(v@.push((h, g)), l, k);
                    }
                    v.push((h, g));
                    v.push((l, k));
                    proof {
                        assert forall|a: u128, b: u128|
                            #[trigger] linked(v@, a, b) <==> linked(old(v)@, a, b) || exists|i2: int|
                                0 <= i2 < i + 1 && #[trigger] self.relay_link(relays@, i2, a, b) by {
                            assert(linked(v@, a, b) <==> linked(v0.push((h, g)), a, b) || joins(a, b, l, k));
                            assert(linked(v0.push((h, g)), a, b) <==> linked(v0, a, b) || joins(a, b, h, g));
                            if joins(a, b, h, g) || joins(a, b, l, k) {
                                assert(self.relay_link(relays@, i as int, a, b));
                            }
                            if self.relay_link(relays@, i as int, a, b) {
                                assert(joins(a, b, h, g) || joins(a, b, l, k));
                            }
                        }
                    }
                },
                ContactPosition::Released => {
                    let j = self.id_of_port(ComponentPort::RelayContact(i, 'J'));
                    let n = self.id_of_port(ComponentPort::RelayContact(i, 'N'));
                    proof {
                        lemma_linked_push(v@, h, j);
                        lemma_linked_push(v@.push((h, j)), l, n);
                    }
                    v.push((h, j));
                    v.push((l, n));
                    proof {
                        assert forall|a: u128, b: u128|
                            #[trigger] linked(v@, a, b) <==> linked(old(v)@, a, b) || exists|i2: int|
                                0 <= i2 < i + 1 && #[trigger] self.relay_link(relays@, i2, a, b) by {
                            assert(linked(v@, a, b) <==> linked(v0.push((h, j)), a, b) || joins(a, b, l, n));
                            assert(linked(v0.push((h, j)), a, b) <==> linked(v0, a, b) || joins(a, b, h, j));
                            if joins(a, b, h, j) || joins(a, b, l, n) {
                                assert(self.relay_link(relays@, i as int, a, b));
                            }
                            if self.relay_link(relays@, i as int, a, b) {
                                assert(joins(a, b, h, j) || joins(a, b, l, n));
                            }
                        }
                    }
                },
                ContactPosition::Moving => {
                    proof {
                        assert forall|a: u128, b: u128|
                            #[trigger] linked(v@, a, b) <==> linked(old(v)@, a, b) || exists|i2: int|
                                0 <= i2 < i + 1 && #[trigger] self.relay_link(relays@, i2, a, b) by {
                            assert(!self.relay_link(relays@, i as int, a, b));
                        }
                    }
                },
            }
        }
    }

    fn push_matrix_links(&self, v: &mut Vec<(u128, u128)>)
        requires
            self.wf(),
        ensures
            forall|a: u128, b: u128|
                #[trigger] linked(final(v)@, a, b) <==> linked(old(v)@, a, b) || exists|i: int|
                    #[trigger] self.matrix_link(i, a, b),
    {
        for i in 0..11usize
            invariant
                self.wf(),
                forall|a: u128, b: u128|
                    #[trigger] linked(v@, a, b) <==> linked(old(v)@, a, b) || exists|i2: int|
                        0 <= i2 < i && #[trigger] self.matrix_link(i2, a, b),
        {
            let t = self.id_of_port(ComponentPort::MatrixPoint(i, 't'));
            let bt = self.id_of_port(ComponentPort::MatrixPoint(i, 'b'));
            proof {
                lemma_linked_push(v@, t, bt);
            }
            v.push((t, bt));
            proof {
                assert forall|a: u128, b: u128|
                    #[trigger] linked(v@, a, b) <==> linked(old(v)@, a, b) || exists|i2: int|
                        0 <= i2 < i + 1 && #[trigger] self.matrix_link(i2, a, b) by {
                    if joins(a, b, t, bt) {
                        assert(self.matrix_link(i as int, a, b));
                    }
                }
            }
        }
    }

    fn push_tie_links(&self, v: &mut Vec<(u128, u128)>)
        requires
            self.wf(),
        ensures
            forall|a: u128, b: u128|
                #[trigger] linked(final(v)@, a, b) <==> linked(old(v)@, a, b) || exists|i: int, h: int|
                    #[trigger] self.tie_link(i, h, a, b),
    {
        for i in 0..6usize
            invariant
                self.wf(),
                forall|a: u128, b: u128|
                    #[trigger] linked(v@, a, b) <==> linked(old(v)@, a, b) || exists|i2: int, h: int|
                        0 <= i2 < i && #[trigger] self.tie_link(i2, h, a, b),
        {
            let h0 = self.id_of_port(ComponentPort::TiePoint(i, 0));
            let ghost v_i = v@;
            for h in 1..4usize
                invariant
                    self.wf(),
                    i < 6,
                    h0 == self.id_of(ComponentPort::TiePoint(i, 0)),
                    forall|a: u128, b: u128|
                        #[trigger] linked(v_i, a, b) <==> linked(old(v)@, a, b) || exists|i2: int, h2: int|
                            0 <= i2 < i && #[trigger] self.tie_link(i2, h2, a, b),
                    forall|a: u128, b: u128|
                        #[trigger] linked(v@, a, b) <==> linked(v_i, a, b) || exists|h2: int|
                            1 <= h2 < h && #[trigger] self.tie_link(i as int, h2, a, b),
            {
                let hu = self.id_of_port(ComponentPort::TiePoint(i, h));
                proof {
                    lemma_linked_push(v@, h0, hu);
                }
                v.push((h0, hu));
                proof {
                    assert forall|a: u128, b: u128|
                        #[trigger] linked(v@, a, b) <==> linked(v_i, a, b) || exists|h2: int|
                            1 <= h2 < h + 1 && #[trigger] self.tie_link(i as int, h2, a, b) by {
                        if joins(a, b, h0, hu) {
                            assert(self.tie_link(i as int, h as int, a, b));
                        }
                    }
                }
            }
            proof {
                assert forall|a: u128, b: u128|
                    #[trigger] linked(v@, a, b) <==> linked(old(v)@, a, b) || exists|i2: int, h2: int|
                        0 <= i2 < i + 1 && #[trigger] self.tie_link(i2, h2, a, b) by {
                    if exists|i2: int, h2: int| 0 <= i2 < i + 1 && #[trigger] self.tie_link(i2, h2, a, b) {
                        let (i2, h2) = choose|i2: int, h2: int| 0 <= i2 < i + 1 && #[trigger] self.tie_link(i2, h2, a, b);
                        if i2 == i {
                            assert(self.tie_link(i as int, h2, a, b));
                        }
                    }
                }
            }
        }
    }

    /// The links of zero resistance that the present state closes, in the
    /// order: patch cords, pushbuttons, slide switches, relay contacts, dial
    /// wiper, matrix points, tie-points.
    pub fn zero_links(&self, relays: &[ContactPosition; 6], wiper: Option<usize>) -> (v: Vec<(u128, u128)>)
        requires
            self.wf(),
            wiper matches Some(c) ==> c < 16,
        ensures
            forall|a: u128, b: u128| #[trigger] linked(v@, a, b) <==> self.closes(relays@, wiper, a, b),
    {
        let mut v: Vec<(u128, u128)> = Vec::new();
        let ghost v0 = v@;
        self.push_cord_links(&mut v);
        let ghost v1 = v@;
        self.push_button_links(&mut v);
        let ghost v2 = v@;
        self.push_switch_links(&mut v);
        let ghost v3 = v@;
        self.push_relay_links(relays, &mut v);
        let ghost v4 = v@;
        if let Some(c) = wiper {
            let wiper_id = self.id_of_port(ComponentPort::DialWiper);
            let contact_id = self.id_of_port(ComponentPort::DialContact(c));
            proof {
                lemma_linked_push(v@, wiper_id, contact_id);
            }
            v.push((wiper_id, contact_id));
        }
        let ghost v5 = v@;
        proof {
            assert forall|a: u128, b: u128| #[trigger] linked(v5, a, b) <==> linked(v4, a, b) || self.wiper_link(wiper, a, b) by {
                if wiper is None {
                    assert(v5 == v4);
                }
            }
        }
        self.push_matrix_links(&mut v);
        let ghost v6 = v@;
        self.push_tie_links(&mut v);
        proof {
            assert forall|a: u128, b: u128| #[trigger] linked(v@, a, b) <==> self.closes(relays@, wiper, a, b) by {
                assert(!linked(v0, a, b));
                assert(linked(v1, a, b) <==> linked(v0, a, b) || exists|c: int| #[trigger] self.cord_link(c, a, b));
                assert(linked(v2, a, b) <==> linked(v1, a, b) || exists|i: int| #[trigger] self.button_link(i, a, b));
                assert(linked(v3, a, b) <==> linked(v2, a, b) || exists|i: int| #[trigger] self.switch_link(i, a, b));
                assert(linked(v4, a, b) <==> linked(v3, a, b) || exists|i: int| #[trigger] self.relay_link(relays@, i, a, b));
                assert(linked(v5, a, b) <==> linked(v4, a, b) || self.wiper_link(wiper, a, b));
                assert(linked(v6, a, b) <==> linked(v5, a, b) || exists|i: int| #[trigger] self.matrix_link(i, a, b));
            }
        }
        v
    }
}

/// Which way the dial's wiper stands against the contacts: within a fifth
/// of a step of the contact it has just passed, within a fifth of a step of
/// the next one, or between the two.
#[derive(Clone, Copy, Debug, PartialEq, Eq, Structural)]
pub enum DialAlignment {
    NearLower,
    NearUpper,
    Between,
}

/// The dial contact that the wiper touches, when the dial stands at step
/// `dial_index` (the whole part of its position) with the given alignment.
/// Past the last contact the next one is contact 0.
pub fn wiper_contact(dial_index: usize, alignment: DialAlignment) -> (r: Option<usize>)
    requires
        alignment == DialAlignment::NearUpper ==> dial_index < usize::MAX,
    ensures
        r == match alignment {
            DialAlignment::NearLower => Some(dial_index),
            DialAlignment::NearUpper => Some(((dial_index + 1) % 16) as usize),
            DialAlignment::Between => None::<usize>,
        },
{
    match alignment {
        DialAlignment::NearLower => Some(dial_index),
        DialAlignment::NearUpper => Some((dial_index + 1) % 16),
        DialAlignment::Between => None,
    }
}

impl MinivacSimulation {
    /// A machine whose ports carry the identifiers `port_ids` (in catalogue
    /// order), with no cords plugged, every button released, every switch
    /// left, every relay released, the motor stopped, the breaker closed and
    /// the power off.
    pub fn from_port_ids(port_ids: Vec<u128>) -> (sim: Self)
        requires
            port_ids@.len() == PORT_COUNT,
        ensures
            sim.wf(),
            sim.port_ids@ == port_ids@,
            sim.connections@.len() == 0,
            forall|i: int| 0 <= i < 6 ==> !sim.buttons_pressed[i] && !sim.switches_right[i]
                && !sim.relay_state[i],
            !sim.motor_running,
            !sim.breaker_tripped,
            !sim.power_on,
    {
        MinivacSimulation {
            connections: Vec::new(),
            buttons_pressed: [false; 6],
            switches_right: [false; 6],
            relay_state: [false; 6],
            motor_running: false,
            breaker_tripped: false,
            power_on: false,
            port_ids,
        }
    }

    /// A fresh machine (as `from_port_ids`) whose ports get random
    /// identifiers, drawn in catalogue order.
    pub fn new() -> (sim: Self)
        ensures
            sim.wf(),
            forall|i: int| 0 <= i < PORT_COUNT ==> #[trigger] v4_shaped(sim.port_ids@[i]),
            sim.connections@.len() == 0,
            forall|i: int| 0 <= i < 6 ==> !sim.buttons_pressed[i] && !sim.switches_right[i]
                && !sim.relay_state[i],
            !sim.motor_running,
            !sim.breaker_tripped,
            !sim.power_on,
    {
        let mut ids: Vec<u128> = Vec::new();
        for _i in 0..PORT_COUNT
            invariant
                ids@.len() == _i,
                forall|j: int| 0 <= j < ids@.len() ==> #[trigger] v4_shaped(ids@[j]),
        {
            ids.push(random_port_id());
        }
        Self::from_port_ids(ids)
    }

    /// Gives the ports new identifiers, as a fresh machine would have them;
    /// the rest of the state stays.
    pub fn rebuild_mappings(&mut self)
        ensures
            final(self).wf(),
            forall|i: int| 0 <= i < PORT_COUNT ==> #[trigger] v4_shaped(final(self).port_ids@[i]),
            final(self).connections@ == old(self).connections@,
            final(self).buttons_pressed == old(self).buttons_pressed,
            final(self).switches_right == old(self).switches_right,
            final(self).relay_state == old(self).relay_state,
            final(self).motor_running == old(self).motor_running,
            final(self).breaker_tripped == old(self).breaker_tripped,
            final(self).power_on == old(self).power_on,
    {
        let sim = Self::new();
        self.port_ids = sim.port_ids;
    }

    /// Plugs a cord from hole `from_hole` of port `from` to hole `to_hole`
    /// of port `to`; a cord from a port to itself is not plugged.
    pub fn add_connection(&mut self, from: u128, from_hole: usize, to: u128, to_hole: usize, color: [u8; 4])
        ensures
            no_self_cords(old(self).connections@) ==> no_self_cords(final(self).connections@),
            final(self).connections@ == if from != to {
                old(self).connections@.push(
                    Connection { from, from_hole, to, to_hole, color },
                )
            } else {
                old(self).connections@
            },
            final(self).port_ids@ == old(self).port_ids@,
            final(self).buttons_pressed == old(self).buttons_pressed,
            final(self).switches_right == old(self).switches_right,
            final(self).relay_state == old(self).relay_state,
            final(self).motor_running == old(self).motor_running,
            final(self).breaker_tripped == old(self).breaker_tripped,
            final(self).power_on == old(self).power_on,
    {
        if from != to {
            self.connections.push(Connection { from, from_hole, to, to_hole, color });
        }
    }

    /// Latches each relay: pulled in once its armature has travelled all the
    /// way, let go once it is all the way back, unchanged in between.
    pub fn update_relay_states(&mut self, positions: &[ContactPosition; 6])
        ensures
            forall|i: int|
                0 <= i < 6 ==> #[trigger] final(self).relay_state[i] == match positions[i] {
                    ContactPosition::Energized => true,
                    ContactPosition::Released => false,
                    ContactPosition::Moving => old(self).relay_state[i],
                },
            final(self).connections@ == old(self).connections@,
            final(self).port_ids@ == old(self).port_ids@,
            final(self).buttons_pressed == old(self).buttons_pressed,
            final(self).switches_right == old(self).switches_right,
            final(self).motor_running == old(self).motor_running,
            final(self).breaker_tripped == old(self).breaker_tripped,
            final(self).power_on == old(self).power_on,
    {
        for i in 0..6usize
            invariant
                forall|j: int|
                    0 <= j < i ==> #[trigger] self.relay_state[j] == match positions[j] {
                        ContactPosition::Energized => true,
                        ContactPosition::Released => false,
                        ContactPosition::Moving => old(self).relay_state[j],
                    },
                forall|j: int| i <= j < 6 ==> #[trigger] self.relay_state[j] == old(self).relay_state[j],
                self.connections@ == old(self).connections@,
                self.port_ids@ == old(self).port_ids@,
                self.buttons_pressed == old(self).buttons_pressed,
                self.switches_right == old(self).switches_right,
                self.motor_running == old(self).motor_running,
                self.breaker_tripped == old(self).breaker_tripped,
                self.power_on == old(self).power_on,
        {
            match positions[i] {
                ContactPosition::Energized => {
                    self.relay_state[i] = true;
                },
                ContactPosition::Released => {
                    self.relay_state[i] = false;
                },
                ContactPosition::Moving => {},
            }
        }
    }
}

impl Default for MinivacSimulation {
    /// A fresh machine, as `new` makes it.
    fn default() -> (sim: Self)
        ensures
            sim.wf(),
            forall|i: int| 0 <= i < PORT_COUNT ==> #[trigger] v4_shaped(sim.port_ids@[i]),
            sim.connections@.len() == 0,
            forall|i: int| 0 <= i < 6 ==> !sim.buttons_pressed[i] && !sim.switches_right[i]
                && !sim.relay_state[i],
            !sim.motor_running,
            !sim.breaker_tripped,
            !sim.power_on,
    {
        Self::new()
    }
}

} // verus!
