//! Plugging and unplugging patch cords by dragging them between holes.
use vstd::prelude::*;
use crate::simulation::{Connection, MinivacSimulation};

verus! {

/// A cord being dragged: the hole its fixed end is plugged into, and its
/// colour; or no cord.
#[derive(Clone, Copy, Debug, PartialEq, Eq)]
pub enum DragState {
    Idle,
    Dragging { from_port: u128, from_hole: usize, color: [u8; 4] },
}

/// Cord `c` has an end in hole `hole` of port `port`.
pub open spec fn plugs(c: Connection, port: u128, hole: usize) -> bool {
    (c.from == port && c.from_hole == hole) || (c.to == port && c.to_hole == hole)
}

/// The position of the first of the cords `cords` with an end in hole
/// `hole` of port `port`.
pub open spec fn first_plug(cords: Seq<Connection>, port: u128, hole: usize) -> Option<int>
    decreases cords.len(),
{
    if cords.len() == 0 {
        None
    } else {
        match first_plug(cords.drop_last(), port, hole) {
            Some(i) => Some(i),
            None => if plugs(cords.last(), port, hole) {
                Some(cords.len() - 1)
            } else {
                None
            },
        }
    }
}

pub proof fn lemma_first_plug(cords: Seq<Connection>, port: u128, hole: usize)
    ensures
        match first_plug(cords, port, hole) {
            Some(i) => 0 <= i < cords.len() && plugs(cords[i], port, hole) && forall|j: int|
                0 <= j < i ==> !plugs(#[trigger] cords[j], port, hole),
            None => forall|j: int| 0 <= j < cords.len() ==> !plugs(#[trigger] cords[j], port, hole),
        },
    decreases cords.len(),
{
    if cords.len() > 0 {
        let prefix = cords.drop_last();
        lemma_first_plug(prefix, port, hole);
        assert forall|j: int| 0 <= j < prefix.len() implies prefix[j] == cords[j] by {}
    }
}

/// With no cord in the hole, there is no first one.
pub proof fn lemma_first_plug_all(cords: Seq<Connection>, port: u128, hole: usize)
    requires
        forall|j: int| 0 <= j < cords.len() ==> !plugs(#[trigger] cords[j], port, hole),
    ensures
        first_plug(cords, port, hole) is None,
{
    lemma_first_plug(cords, port, hole);
}

proof fn lemma_first_plug_prefix(cords: Seq<Connection>, port: u128, hole: usize, n: int, i: int)
    requires
        0 <= n <= cords.len(),
        first_plug(cords.subrange(0, n), port, hole) == Some(i),
    ensures
        first_plug(cords, port, hole) == Some(i),
    decreases cords.len() - n,
{
    if cords.len() == n {
        assert(cords.subrange(0, n) =~= cords);
    } else {
        assert(cords.drop_last().subrange(0, n) =~= cords.subrange(0, n));
        lemma_first_plug_prefix(cords.drop_last(), port, hole, n, i);
    }
}

/// The cord the drag picks up, seen from the hole it is pulled out of: the
/// drag keeps its other end and its colour.
pub open spec fn picked_up(c: Connection, port: u128, hole: usize) -> DragState {
    if c.from == port && c.from_hole == hole {
        DragState::Dragging { from_port: c.to, from_hole: c.to_hole, color: c.color }
    } else {
        DragState::Dragging { from_port: c.from, from_hole: c.from_hole, color: c.color }
    }
}

/// The cords left, and the drag begun, when a drag starts at hole `hole`
/// of port `port` among the cords `cords` (see `pick_up_cord`).
pub open spec fn spec_pick_up(cords: Seq<Connection>, port: u128, hole: usize, active_color: [u8; 4]) -> (
    Seq<Connection>,
    DragState,
) {
    match first_plug(cords, port, hole) {
        Some(i) => (cords.remove(i), picked_up(cords[i], port, hole)),
        None => (cords, DragState::Dragging { from_port: port, from_hole: hole, color: active_color }),
    }
}

/// The cords after the drag `drag` ends over the hole `hovered` (see
/// `drop_cord`).
pub open spec fn spec_drop(cords: Seq<Connection>, drag: DragState, hovered: Option<(u128, usize)>) -> Seq<
    Connection,
> {
    match (drag, hovered) {
        (DragState::Dragging { from_port, from_hole, color }, Some((to_port, to_hole))) => {
            if to_port != from_port && first_plug(cords, to_port, to_hole) is None {
                cords.push(Connection { from: from_port, from_hole, to: to_port, to_hole, color })
            } else {
                cords
            }
        },
        _ => cords,
    }
}

/// No cord runs from a port to that same port.
pub open spec fn no_self_cords(cords: Seq<Connection>) -> bool {
    forall|c: int| 0 <= c < cords.len() ==> #[trigger] cords[c].from != cords[c].to
}

/// No hole holds more than one cord: no two cords have an end in the same
/// hole of the same port.
pub open spec fn one_cord_per_hole(cords: Seq<Connection>) -> bool {
    forall|i: int, j: int, port: u128, hole: usize|
        0 <= i < j < cords.len() && #[trigger] plugs(cords[i], port, hole) ==> !#[trigger] plugs(
            cords[j],
            port,
            hole,
        )
}

/// The hole that the drag `drag` starts from holds no cord.
pub open spec fn drag_from_free(cords: Seq<Connection>, drag: DragState) -> bool {
    match drag {
        DragState::Dragging { from_port, from_hole, .. } => forall|j: int|
            0 <= j < cords.len() ==> !plugs(#[trigger] cords[j], from_port, from_hole),
        DragState::Idle => true,
    }
}

proof fn lemma_remove_keeps_one_per_hole(cords: Seq<Connection>, i: int)
    requires
        0 <= i < cords.len(),
        one_cord_per_hole(cords),
    ensures
        one_cord_per_hole(cords.remove(i)),
{
    let rest = cords.remove(i);
    assert forall|a: int, b: int, port: u128, hole: usize|
        0 <= a < b < rest.len() && #[trigger] plugs(rest[a], port, hole) implies !#[trigger] plugs(
            rest[b],
            port,
            hole,
        ) by {
        let ma = if a < i { a } else { a + 1 };
        let mb = if b < i { b } else { b + 1 };
        assert(rest[a] == cords[ma]);
        assert(rest[b] == cords[mb]);
        assert(plugs(cords[ma], port, hole));
    }
}

/// Starting a drag keeps one cord per hole, and the drag starts from a
/// hole that then holds no cord.
pub proof fn lemma_pick_up_one_per_hole(
    cords: Seq<Connection>,
    port: u128,
    hole: usize,
    active_color: [u8; 4],
)
    requires
        one_cord_per_hole(cords),
    ensures
        one_cord_per_hole(spec_pick_up(cords, port, hole, active_color).0),
        drag_from_free(
            spec_pick_up(cords, port, hole, active_color).0,
            spec_pick_up(cords, port, hole, active_color).1,
        ),
{
    lemma_first_plug(cords, port, hole);
    match first_plug(cords, port, hole) {
        Some(i) => {
            let c = cords[i];
            let rest = cords.remove(i);
            lemma_remove_keeps_one_per_hole(cords, i);
            let (p2, h2) = if c.from == port && c.from_hole == hole {
                (c.to, c.to_hole)
            } else {
                (c.from, c.from_hole)
            };
            assert(plugs(c, p2, h2));
            assert forall|j: int| 0 <= j < rest.len() implies !plugs(#[trigger] rest[j], p2, h2) by {
                let m = if j < i { j } else { j + 1 };
                assert(rest[j] == cords[m]);
                if m < i {
                    if plugs(cords[m], p2, h2) {
                        assert(!plugs(cords[i], p2, h2));
                    }
                } else {
                    assert(plugs(cords[i], p2, h2));
                }
            }
        },
        None => {},
    }
}

/// Dropping a cord whose starting hole is free keeps one cord per hole.
pub proof fn lemma_drop_one_per_hole(cords: Seq<Connection>, drag: DragState, hovered: Option<(u128, usize)>)
    requires
        one_cord_per_hole(cords),
        drag_from_free(cords, drag),
    ensures
        one_cord_per_hole(spec_drop(cords, drag, hovered)),
{
    let after = spec_drop(cords, drag, hovered);
    if after != cords {
        let (from_port, from_hole) = match drag {
            DragState::Dragging { from_port, from_hole, .. } => (from_port, from_hole),
            DragState::Idle => (0u128, 0usize),
        };
        let (to_port, to_hole) = hovered->0;
        lemma_first_plug(cords, to_port, to_hole);
        let c = after[cords.len() as int];
        assert(after == cords.push(c));
        assert forall|a: int, b: int, port: u128, hole: usize|
            0 <= a < b < after.len() && #[trigger] plugs(after[a], port, hole) implies !#[trigger] plugs(
                after[b],
                port,
                hole,
            ) by {
            assert(after[a] == cords[a]);
            if b < cords.len() {
                assert(after[b] == cords[b]);
            } else if plugs(after[b], port, hole) {
                if port == from_port && hole == from_hole {
                    assert(!plugs(cords[a], from_port, from_hole));
                } else {
                    assert(port == to_port && hole == to_hole);
                    assert(!plugs(cords[a], to_port, to_hole));
                }
            }
        }
    }
}

impl MinivacSimulation {
    /// Everything but the cords is as in `other`.
    pub open spec fn same_panel(&self, other: MinivacSimulation) -> bool {
        &&& self.port_ids@ == other.port_ids@
        &&& self.buttons_pressed == other.buttons_pressed
        &&& self.switches_right == other.switches_right
        &&& self.relay_state == other.relay_state
        &&& self.motor_running == other.motor_running
        &&& self.breaker_tripped == other.breaker_tripped
        &&& self.power_on == other.power_on
    }

    /// The position of the first cord with an end in hole `hole` of port
    /// `port`, if any cord is plugged there.
    pub fn occupied_index(&self, port: u128, hole: usize) -> (r: Option<usize>)
        ensures
            match r {
                Some(i) => first_plug(self.connections@, port, hole) == Some(i as int),
                None => first_plug(self.connections@, port, hole) is None,
            },
    {
        let ghost cords = self.connections@;
        for i in 0..self.connections.len()
            invariant
                cords == self.connections@,
                first_plug(cords.subrange(0, i as int), port, hole) is None,
        {
            let c = self.connections[i];
            proof {
                assert(cords.subrange(0, i + 1).drop_last() =~= cords.subrange(0, i as int));
                assert(cords.subrange(0, i + 1).last() == c);
            }
            if (c.from == port && c.from_hole == hole) || (c.to == port && c.to_hole == hole) {
                proof {
                    lemma_first_plug_prefix(cords, port, hole, i + 1, i as int);
                }
                return Some(i);
            }
        }
        proof {
            assert(cords.subrange(0, cords.len() as int) =~= cords);
        }
        None
    }

    /// Starts a drag at hole `hole` of port `port`. A cord plugged there
    /// (the first one, if several) is pulled out and dragged by its free
    /// end; otherwise a new cord of the active colour starts there.
    pub fn pick_up_cord(&mut self, port: u128, hole: usize, active_color: [u8; 4]) -> (d: DragState)
        ensures
            final(self).same_panel(*old(self)),
            (final(self).connections@, d) == spec_pick_up(old(self).connections@, port, hole, active_color),
            no_self_cords(old(self).connections@) ==> no_self_cords(final(self).connections@),
            one_cord_per_hole(old(self).connections@) ==> one_cord_per_hole(final(self).connections@)
                && drag_from_free(final(self).connections@, d),
    {
        proof {
            lemma_first_plug(self.connections@, port, hole);
            if one_cord_per_hole(self.connections@) {
                lemma_pick_up_one_per_hole(self.connections@, port, hole, active_color);
            }
        }
        match self.occupied_index(port, hole) {
            Some(idx) => {
                let ghost before = self.connections@;
                let conn = self.connections.remove(idx);
                proof {
                    assert forall|c: int| 0 <= c < self.connections@.len() implies
                        #[trigger] self.connections@[c] == before[if c < idx { c } else { c + 1 }] by {}
                }
                if conn.from == port && conn.from_hole == hole {
                    DragState::Dragging { from_port: conn.to, from_hole: conn.to_hole, color: conn.color }
                } else {
                    DragState::Dragging {
                        from_port: conn.from,
                        from_hole: conn.from_hole,
                        color: conn.color,
                    }
                }
            },
            None => DragState::Dragging { from_port: port, from_hole: hole, color: active_color },
        }
    }

    /// Ends a drag when the pointer is let go over hole `hovered` (if any):
    /// the cord is plugged there unless that hole belongs to the port the
    /// cord starts from, or already holds a cord. Afterwards nothing is
    /// dragged.
    pub fn drop_cord(&mut self, drag: DragState, hovered: Option<(u128, usize)>) -> (d: DragState)
        ensures
            d == DragState::Idle,
            final(self).same_panel(*old(self)),
            final(self).connections@ == spec_drop(old(self).connections@, drag, hovered),
            no_self_cords(old(self).connections@) ==> no_self_cords(final(self).connections@),
            one_cord_per_hole(old(self).connections@) && drag_from_free(old(self).connections@, drag)
                ==> one_cord_per_hole(final(self).connections@),
    {
        proof {
            if one_cord_per_hole(self.connections@) && drag_from_free(self.connections@, drag) {
                lemma_drop_one_per_hole(self.connections@, drag, hovered);
            }
        }
        if let DragState::Dragging { from_port, from_hole, color } = drag {
            if let Some((to_port, to_hole)) = hovered {
                let not_same = to_port != from_port;
                let occupied = self.occupied_index(to_port, to_hole).is_some();
                if not_same && !occupied {
                    self.connections.push(Connection { from: from_port, from_hole, to: to_port, to_hole, color });
                }
            }
        }
        DragState::Idle
    }
}

} // verus!
