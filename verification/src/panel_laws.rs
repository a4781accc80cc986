//! What the faceplate's own parts join and load, stated port by port: the
//! links that `zero_links` reports (through `closes`) and the loads that a
//! solved circuit lists.
use vstd::prelude::*;
use crate::electrical::{
    Circuit, LOAD_COUNT, LoadEdge, LoadType, NetLoad, NetSupply, neighbours, closes_walk, holds_minus, holds_plus, is_minus_id,
    is_plus_id, owns, short_circuit, wired,
};
use crate::laws::{lemma_closes_symmetric, lemma_wired_extend, lemma_wired_single};
use crate::ports::{ComponentPort, PORT_COUNT, lemma_port_at_index, on_panel, port_at, port_index};
use crate::simulation::{ContactPosition, MinivacSimulation};

verus! {

/// Every port is wired to itself.
pub proof fn lemma_wired_reflexive(
    sim: MinivacSimulation,
    relays: Seq<ContactPosition>,
    wiper: Option<usize>,
    a: u128,
)
    ensures
        wired(sim, relays, wiper, a, a),
{
    let p = seq![a];
    assert(closes_walk(sim, relays, wiper, p));
    assert(p[0] == a && p.last() == a);
}

/// Each tie-point block is one junction: whatever else the state holds,
/// hole 0 is joined to each of holes 1, 2 and 3, and any two of the four
/// holes are wired together.
pub proof fn law_tie_point_junction(
    sim: MinivacSimulation,
    relays: Seq<ContactPosition>,
    wiper: Option<usize>,
    i: usize,
    h1: usize,
    h2: usize,
)
    requires
        i < 6,
        h1 < 4,
        h2 < 4,
    ensures
        1 <= h2 ==> sim.closes(
            relays,
            wiper,
            sim.id_of(ComponentPort::TiePoint(i, 0)),
            sim.id_of(ComponentPort::TiePoint(i, h2)),
        ),
        wired(
            sim,
            relays,
            wiper,
            sim.id_of(ComponentPort::TiePoint(i, h1)),
            sim.id_of(ComponentPort::TiePoint(i, h2)),
        ),
{
    let x0 = sim.id_of(ComponentPort::TiePoint(i, 0));
    let x1 = sim.id_of(ComponentPort::TiePoint(i, h1));
    let x2 = sim.id_of(ComponentPort::TiePoint(i, h2));
    lemma_wired_reflexive(sim, relays, wiper, x1);
    if 1 <= h1 {
        assert(sim.tie_link(i as int, h1 as int, x0, x1));
        lemma_closes_symmetric(sim, relays, wiper, x0, x1);
        lemma_wired_single(sim, relays, wiper, x1, x0);
    }
    // now x1 is wired to x0
    if 1 <= h2 {
        assert(sim.tie_link(i as int, h2 as int, x0, x2));
        lemma_wired_extend(sim, relays, wiper, x1, x0, x2);
    }
}

/// Each of the eleven matrix points joins its top hole to its bottom hole.
pub proof fn law_matrix_point_joined(
    sim: MinivacSimulation,
    relays: Seq<ContactPosition>,
    wiper: Option<usize>,
    i: usize,
)
    requires
        i < 11,
    ensures
        sim.closes(
            relays,
            wiper,
            sim.id_of(ComponentPort::MatrixPoint(i, 't')),
            sim.id_of(ComponentPort::MatrixPoint(i, 'b')),
        ),
{
    assert(sim.matrix_link(
        i as int,
        sim.id_of(ComponentPort::MatrixPoint(i, 't')),
        sim.id_of(ComponentPort::MatrixPoint(i, 'b')),
    ));
}

/// A pressed pushbutton joins its common terminal Y to X; a released one
/// joins Y to Z.
pub proof fn law_pushbutton_contacts(
    sim: MinivacSimulation,
    relays: Seq<ContactPosition>,
    wiper: Option<usize>,
    i: usize,
)
    requires
        i < 6,
    ensures
        sim.buttons_pressed[i as int] ==> sim.closes(
            relays,
            wiper,
            sim.id_of(ComponentPort::Pushbutton(i, 'Y')),
            sim.id_of(ComponentPort::Pushbutton(i, 'X')),
        ),
        !sim.buttons_pressed[i as int] ==> sim.closes(
            relays,
            wiper,
            sim.id_of(ComponentPort::Pushbutton(i, 'Y')),
            sim.id_of(ComponentPort::Pushbutton(i, 'Z')),
        ),
{
    let y = sim.id_of(ComponentPort::Pushbutton(i, 'Y'));
    if sim.buttons_pressed[i as int] {
        assert(sim.button_link(i as int, y, sim.id_of(ComponentPort::Pushbutton(i, 'X'))));
    } else {
        assert(sim.button_link(i as int, y, sim.id_of(ComponentPort::Pushbutton(i, 'Z'))));
    }
}

/// A slide switch slid right joins S to T and V to W; slid left, S to R
/// and V to U.
pub proof fn law_slide_switch_contacts(
    sim: MinivacSimulation,
    relays: Seq<ContactPosition>,
    wiper: Option<usize>,
    i: usize,
)
    requires
        i < 6,
    ensures
        sim.switches_right[i as int] ==> sim.closes(
            relays,
            wiper,
            sim.id_of(ComponentPort::SlideSwitch(i, 'S')),
            sim.id_of(ComponentPort::SlideSwitch(i, 'T')),
        ) && sim.closes(
            relays,
            wiper,
            sim.id_of(ComponentPort::SlideSwitch(i, 'V')),
            sim.id_of(ComponentPort::SlideSwitch(i, 'W')),
        ),
        !sim.switches_right[i as int] ==> sim.closes(
            relays,
            wiper,
            sim.id_of(ComponentPort::SlideSwitch(i, 'S')),
            sim.id_of(ComponentPort::SlideSwitch(i, 'R')),
        ) && sim.closes(
            relays,
            wiper,
            sim.id_of(ComponentPort::SlideSwitch(i, 'V')),
            sim.id_of(ComponentPort::SlideSwitch(i, 'U')),
        ),
{
    let s = sim.id_of(ComponentPort::SlideSwitch(i, 'S'));
    let v = sim.id_of(ComponentPort::SlideSwitch(i, 'V'));
    if sim.switches_right[i as int] {
        assert(sim.switch_link(i as int, s, sim.id_of(ComponentPort::SlideSwitch(i, 'T'))));
        assert(sim.switch_link(i as int, v, sim.id_of(ComponentPort::SlideSwitch(i, 'W'))));
    } else {
        assert(sim.switch_link(i as int, s, sim.id_of(ComponentPort::SlideSwitch(i, 'R'))));
        assert(sim.switch_link(i as int, v, sim.id_of(ComponentPort::SlideSwitch(i, 'U'))));
    }
}

/// A released relay joins H to J and L to N; a pulled-in one joins H to G
/// and L to K.
pub proof fn law_relay_contacts(
    sim: MinivacSimulation,
    relays: Seq<ContactPosition>,
    wiper: Option<usize>,
    i: usize,
)
    requires
        relays.len() == 6,
        i < 6,
    ensures
        relays[i as int] == ContactPosition::Released ==> sim.closes(
            relays,
            wiper,
            sim.id_of(ComponentPort::RelayContact(i, 'H')),
            sim.id_of(ComponentPort::RelayContact(i, 'J')),
        ) && sim.closes(
            relays,
            wiper,
            sim.id_of(ComponentPort::RelayContact(i, 'L')),
            sim.id_of(ComponentPort::RelayContact(i, 'N')),
        ),
        relays[i as int] == ContactPosition::Energized ==> sim.closes(
            relays,
            wiper,
            sim.id_of(ComponentPort::RelayContact(i, 'H')),
            sim.id_of(ComponentPort::RelayContact(i, 'G')),
        ) && sim.closes(
            relays,
            wiper,
            sim.id_of(ComponentPort::RelayContact(i, 'L')),
            sim.id_of(ComponentPort::RelayContact(i, 'K')),
        ),
{
    let h = sim.id_of(ComponentPort::RelayContact(i, 'H'));
    let l = sim.id_of(ComponentPort::RelayContact(i, 'L'));
    if relays[i as int] == ContactPosition::Released {
        assert(sim.relay_link(relays, i as int, h, sim.id_of(ComponentPort::RelayContact(i, 'J'))));
        assert(sim.relay_link(relays, i as int, l, sim.id_of(ComponentPort::RelayContact(i, 'N'))));
    }
    if relays[i as int] == ContactPosition::Energized {
        assert(sim.relay_link(relays, i as int, h, sim.id_of(ComponentPort::RelayContact(i, 'G'))));
        assert(sim.relay_link(relays, i as int, l, sim.id_of(ComponentPort::RelayContact(i, 'K'))));
    }
}

/// The dial wiper D16 is joined to the contact it touches.
pub proof fn law_wiper_contact(
    sim: MinivacSimulation,
    relays: Seq<ContactPosition>,
    c: usize,
)
    ensures
        sim.closes(
            relays,
            Some(c),
            sim.id_of(ComponentPort::DialWiper),
            sim.id_of(ComponentPort::DialContact(c)),
        ),
{
}

/// Different ports of a machine whose identifiers are all different have
/// different identifiers.
pub proof fn lemma_id_of_injective(sim: MinivacSimulation)
    requires
        sim.wf(),
        sim.port_ids@.no_duplicates(),
    ensures
        forall|p: ComponentPort, q: ComponentPort|
            on_panel(p) && on_panel(q) && #[trigger] sim.id_of(p) == #[trigger] sim.id_of(q) ==> p == q,
{
    assert forall|p: ComponentPort, q: ComponentPort|
        on_panel(p) && on_panel(q) && #[trigger] sim.id_of(p) == #[trigger] sim.id_of(q) implies p
            == q by {
        lemma_port_at_index(p);
        lemma_port_at_index(q);
    }
}

/// Between two contact terminals of one relay, on a board with no cords
/// and distinct port identifiers, only that relay's own contacts can close
/// a link.
proof fn lemma_only_relay_joins_contacts(
    sim: MinivacSimulation,
    relays: Seq<ContactPosition>,
    wiper: Option<usize>,
    i: usize,
    x: char,
    y: char,
)
    requires
        sim.wf(),
        sim.port_ids@.no_duplicates(),
        sim.connections@.len() == 0,
        i < 6,
        wiper matches Some(c) ==> c < 16,
        on_panel(ComponentPort::RelayContact(i, x)),
        on_panel(ComponentPort::RelayContact(i, y)),
        sim.closes(
            relays,
            wiper,
            sim.id_of(ComponentPort::RelayContact(i, x)),
            sim.id_of(ComponentPort::RelayContact(i, y)),
        ),
    ensures
        sim.relay_link(
            relays,
            i as int,
            sim.id_of(ComponentPort::RelayContact(i, x)),
            sim.id_of(ComponentPort::RelayContact(i, y)),
        ),
{
    let a = sim.id_of(ComponentPort::RelayContact(i, x));
    let b = sim.id_of(ComponentPort::RelayContact(i, y));
    lemma_link_within_part(sim, relays, wiper, ComponentPort::RelayContact(i, x), ComponentPort::RelayContact(i, y));
    let j = choose|j: int| #[trigger] sim.relay_link(relays, j, a, b);
    if j != i as int {
        lemma_id_of_injective(sim);
        let k = j as usize;
        assert(on_panel(ComponentPort::RelayContact(k, 'H')));
        assert(on_panel(ComponentPort::RelayContact(k, 'L')));
        assert(a != sim.id_of(ComponentPort::RelayContact(k, 'H')));
        assert(a != sim.id_of(ComponentPort::RelayContact(k, 'L')));
        assert(b != sim.id_of(ComponentPort::RelayContact(k, 'H')));
        assert(b != sim.id_of(ComponentPort::RelayContact(k, 'L')));
    }
}

/// On a board with no cords and distinct port identifiers, a relay's
/// contacts that are not made stay open: a relay that is not pulled in
/// leaves H-G and L-K open, one that is not let go leaves H-J and L-N
/// open (so a travelling relay leaves all four open).
pub proof fn law_relay_contacts_open(
    sim: MinivacSimulation,
    relays: Seq<ContactPosition>,
    wiper: Option<usize>,
    i: usize,
)
    requires
        sim.wf(),
        sim.port_ids@.no_duplicates(),
        sim.connections@.len() == 0,
        relays.len() == 6,
        i < 6,
        wiper matches Some(c) ==> c < 16,
    ensures
        relays[i as int] != ContactPosition::Energized ==> !sim.closes(
            relays,
            wiper,
            sim.id_of(ComponentPort::RelayContact(i, 'H')),
            sim.id_of(ComponentPort::RelayContact(i, 'G')),
        ) && !sim.closes(
            relays,
            wiper,
            sim.id_of(ComponentPort::RelayContact(i, 'L')),
            sim.id_of(ComponentPort::RelayContact(i, 'K')),
        ),
        relays[i as int] != ContactPosition::Released ==> !sim.closes(
            relays,
            wiper,
            sim.id_of(ComponentPort::RelayContact(i, 'H')),
            sim.id_of(ComponentPort::RelayContact(i, 'J')),
        ) && !sim.closes(
            relays,
            wiper,
            sim.id_of(ComponentPort::RelayContact(i, 'L')),
            sim.id_of(ComponentPort::RelayContact(i, 'N')),
        ),
{
    lemma_id_of_injective(sim);
    let g = ComponentPort::RelayContact(i, 'G');
    let h = ComponentPort::RelayContact(i, 'H');
    let j = ComponentPort::RelayContact(i, 'J');
    let k = ComponentPort::RelayContact(i, 'K');
    let l = ComponentPort::RelayContact(i, 'L');
    let n = ComponentPort::RelayContact(i, 'N');
    assert(on_panel(g) && on_panel(h) && on_panel(j) && on_panel(k) && on_panel(l) && on_panel(n));
    assert(sim.id_of(g) != sim.id_of(j) && sim.id_of(g) != sim.id_of(l) && sim.id_of(g) != sim.id_of(n));
    assert(sim.id_of(k) != sim.id_of(n) && sim.id_of(k) != sim.id_of(h) && sim.id_of(k) != sim.id_of(j));
    assert(sim.id_of(h) != sim.id_of(l) && sim.id_of(h) != sim.id_of(n));
    assert(sim.id_of(j) != sim.id_of(l));
    if sim.closes(relays, wiper, sim.id_of(h), sim.id_of(g)) {
        lemma_only_relay_joins_contacts(sim, relays, wiper, i, 'H', 'G');
    }
    if sim.closes(relays, wiper, sim.id_of(l), sim.id_of(k)) {
        lemma_only_relay_joins_contacts(sim, relays, wiper, i, 'L', 'K');
    }
    if sim.closes(relays, wiper, sim.id_of(h), sim.id_of(j)) {
        lemma_only_relay_joins_contacts(sim, relays, wiper, i, 'H', 'J');
    }
    if sim.closes(relays, wiper, sim.id_of(l), sim.id_of(n)) {
        lemma_only_relay_joins_contacts(sim, relays, wiper, i, 'L', 'N');
    }
}

/// The load `e` is the part its type names, across that part's terminals:
/// a lamp (100 ohms) between A and B, a relay's lamp (100 ohms) between
/// coil terminals C and E, a relay's coil (200 ohms) between E and F, the
/// motor (150 ohms) between terminals 17 and 18.
pub open spec fn load_fits_type(sim: MinivacSimulation, e: LoadEdge) -> bool {
    match e.load_type {
        LoadType::Light(i) => i < 6 && e.resistance == 100 && e.node_a == sim.id_of(
            ComponentPort::BinaryLight(i, 'A'),
        ) && e.node_b == sim.id_of(ComponentPort::BinaryLight(i, 'B')),
        LoadType::RelayLight(i) => i < 6 && e.resistance == 100 && e.node_a == sim.id_of(
            ComponentPort::RelayCoil(i, 'C'),
        ) && e.node_b == sim.id_of(ComponentPort::RelayCoil(i, 'E')),
        LoadType::RelayCoil(i) => i < 6 && e.resistance == 200 && e.node_a == sim.id_of(
            ComponentPort::RelayCoil(i, 'E'),
        ) && e.node_b == sim.id_of(ComponentPort::RelayCoil(i, 'F')),
        LoadType::Motor => e.resistance == 150 && e.node_a == sim.id_of(ComponentPort::DialMotor(17))
            && e.node_b == sim.id_of(ComponentPort::DialMotor(18)),
    }
}

/// A solved circuit lists every load of the machine once: the six lamps,
/// then each relay's lamp and coil, then the motor; and each load sits
/// across the terminals of the part its type names (the coil between E
/// and F, behind the relay lamp between C and E).
pub proof fn law_circuit_loads(
    sim: MinivacSimulation,
    c: Circuit,
    relays: Seq<ContactPosition>,
    wiper: Option<usize>,
)
    requires
        sim.describes(c, relays, wiper),
    ensures
        c.loads@.len() == LOAD_COUNT,
        forall|n: int| 0 <= n < LOAD_COUNT ==> load_fits_type(sim, #[trigger] c.loads@[n]),
        forall|i: usize|
            i < 6 ==> c.loads@[i as int].load_type == LoadType::Light(i) && c.loads@[6 + 2 * i].load_type
                == LoadType::RelayLight(i) && c.loads@[7 + 2 * i].load_type == LoadType::RelayCoil(i),
        c.loads@[18].load_type == LoadType::Motor,
{
    assert forall|n: int| 0 <= n < LOAD_COUNT implies load_fits_type(sim, #[trigger] c.loads@[n]) by {
        assert(c.loads@[n] == crate::electrical::load_at(sim, n));
        if 6 <= n < 18 {
            assert(0 <= (n - 6) / 2 < 6);
        }
    }
    assert forall|i: usize|
        i < 6 implies c.loads@[i as int].load_type == LoadType::Light(i) && c.loads@[6 + 2 * i].load_type
            == LoadType::RelayLight(i) && c.loads@[7 + 2 * i].load_type == LoadType::RelayCoil(i) by {
        assert(c.loads@[i as int] == crate::electrical::load_at(sim, i as int));
        assert(c.loads@[6 + 2 * i] == crate::electrical::load_at(sim, 6 + 2 * i));
        assert(c.loads@[7 + 2 * i] == crate::electrical::load_at(sim, 7 + 2 * i));
        assert((6 + 2 * i - 6) / 2 == i && (6 + 2 * i - 6) % 2 == 0);
        assert((7 + 2 * i - 6) / 2 == i && (7 + 2 * i - 6) % 2 == 1);
    }
    assert(c.loads@[18] == crate::electrical::load_at(sim, 18));
}

proof fn lemma_button_link_ports(sim: MinivacSimulation, relays: Seq<ContactPosition>, wiper: Option<usize>, j: int, h: int, p: ComponentPort, q: ComponentPort)
    requires
        sim.wf(),
        sim.port_ids@.no_duplicates(),
        on_panel(p),
        on_panel(q),
        sim.button_link(j, sim.id_of(p), sim.id_of(q)),
    ensures
        p is Pushbutton && q is Pushbutton,
{
    lemma_id_of_injective(sim);
    let k = j as usize;
    assert(on_panel(ComponentPort::Pushbutton(k, 'Y')));
    assert(on_panel(ComponentPort::Pushbutton(k, 'X')));
    assert(on_panel(ComponentPort::Pushbutton(k, 'Z')));
}

proof fn lemma_switch_link_ports(sim: MinivacSimulation, relays: Seq<ContactPosition>, wiper: Option<usize>, j: int, h: int, p: ComponentPort, q: ComponentPort)
    requires
        sim.wf(),
        sim.port_ids@.no_duplicates(),
        on_panel(p),
        on_panel(q),
        sim.switch_link(j, sim.id_of(p), sim.id_of(q)),
    ensures
        p is SlideSwitch && q is SlideSwitch,
{
    lemma_id_of_injective(sim);
    let k = j as usize;
    assert(on_panel(ComponentPort::SlideSwitch(k, 'R')));
    assert(on_panel(ComponentPort::SlideSwitch(k, 'S')));
    assert(on_panel(ComponentPort::SlideSwitch(k, 'T')));
    assert(on_panel(ComponentPort::SlideSwitch(k, 'U')));
    assert(on_panel(ComponentPort::SlideSwitch(k, 'V')));
    assert(on_panel(ComponentPort::SlideSwitch(k, 'W')));
}

proof fn lemma_relay_link_ports(sim: MinivacSimulation, relays: Seq<ContactPosition>, wiper: Option<usize>, j: int, h: int, p: ComponentPort, q: ComponentPort)
    requires
        sim.wf(),
        sim.port_ids@.no_duplicates(),
        on_panel(p),
        on_panel(q),
        sim.relay_link(relays, j, sim.id_of(p), sim.id_of(q)),
    ensures
        p is RelayContact && q is RelayContact,
{
    lemma_id_of_injective(sim);
    let k = j as usize;
    assert(on_panel(ComponentPort::RelayContact(k, 'G')));
    assert(on_panel(ComponentPort::RelayContact(k, 'H')));
    assert(on_panel(ComponentPort::RelayContact(k, 'J')));
    assert(on_panel(ComponentPort::RelayContact(k, 'K')));
    assert(on_panel(ComponentPort::RelayContact(k, 'L')));
    assert(on_panel(ComponentPort::RelayContact(k, 'N')));
}

proof fn lemma_matrix_link_ports(sim: MinivacSimulation, relays: Seq<ContactPosition>, wiper: Option<usize>, j: int, h: int, p: ComponentPort, q: ComponentPort)
    requires
        sim.wf(),
        sim.port_ids@.no_duplicates(),
        on_panel(p),
        on_panel(q),
        sim.matrix_link(j, sim.id_of(p), sim.id_of(q)),
    ensures
        p is MatrixPoint && q is MatrixPoint,
{
    lemma_id_of_injective(sim);
    let k = j as usize;
    assert(on_panel(ComponentPort::MatrixPoint(k, 't')));
    assert(on_panel(ComponentPort::MatrixPoint(k, 'b')));
}

proof fn lemma_tie_link_ports(sim: MinivacSimulation, relays: Seq<ContactPosition>, wiper: Option<usize>, j: int, h: int, p: ComponentPort, q: ComponentPort)
    requires
        sim.wf(),
        sim.port_ids@.no_duplicates(),
        on_panel(p),
        on_panel(q),
        sim.tie_link(j, h, sim.id_of(p), sim.id_of(q)),
    ensures
        p is TiePoint && q is TiePoint,
{
    lemma_id_of_injective(sim);
    let k = j as usize;
    assert(on_panel(ComponentPort::TiePoint(k, 0)));
    assert(on_panel(ComponentPort::TiePoint(k, h as usize)));
}

proof fn lemma_wiper_link_ports(sim: MinivacSimulation, relays: Seq<ContactPosition>, wiper: Option<usize>, j: int, h: int, p: ComponentPort, q: ComponentPort)
    requires
        sim.wf(),
        sim.port_ids@.no_duplicates(),
        on_panel(p),
        on_panel(q),
        wiper matches Some(c) ==> c < 16,
        sim.wiper_link(wiper, sim.id_of(p), sim.id_of(q)),
    ensures
        (p is DialWiper || p is DialContact) && (q is DialWiper || q is DialContact),
{
    lemma_id_of_injective(sim);
    let k = j as usize;
    assert(on_panel(ComponentPort::DialWiper));
    assert(on_panel(ComponentPort::DialContact(wiper->0)));
}

/// On a board with no cords and distinct port identifiers, a link between
/// two ports of the faceplate is a link of the part that both belong to.
proof fn lemma_link_within_part(
    sim: MinivacSimulation,
    relays: Seq<ContactPosition>,
    wiper: Option<usize>,
    p: ComponentPort,
    q: ComponentPort,
)
    requires
        sim.wf(),
        sim.port_ids@.no_duplicates(),
        sim.connections@.len() == 0,
        wiper matches Some(c) ==> c < 16,
        on_panel(p),
        on_panel(q),
        sim.closes(relays, wiper, sim.id_of(p), sim.id_of(q)),
    ensures
        (exists|j: int| #[trigger] sim.button_link(j, sim.id_of(p), sim.id_of(q))) && p is Pushbutton
            && q is Pushbutton
        || (exists|j: int| #[trigger] sim.switch_link(j, sim.id_of(p), sim.id_of(q))) && p is SlideSwitch
            && q is SlideSwitch
        || (exists|j: int| #[trigger] sim.relay_link(relays, j, sim.id_of(p), sim.id_of(q)))
            && p is RelayContact && q is RelayContact
        || sim.wiper_link(wiper, sim.id_of(p), sim.id_of(q)) && (p is DialWiper || p is DialContact)
            && (q is DialWiper || q is DialContact)
        || (exists|j: int| #[trigger] sim.matrix_link(j, sim.id_of(p), sim.id_of(q))) && p is MatrixPoint
            && q is MatrixPoint
        || (exists|j: int, h: int| #[trigger] sim.tie_link(j, h, sim.id_of(p), sim.id_of(q)))
            && p is TiePoint && q is TiePoint,
{
    let a = sim.id_of(p);
    let b = sim.id_of(q);
    if exists|j: int| #[trigger] sim.button_link(j, a, b) {
        let j = choose|j: int| #[trigger] sim.button_link(j, a, b);
        lemma_button_link_ports(sim, relays, wiper, j, 0, p, q);
    } else if exists|j: int| #[trigger] sim.switch_link(j, a, b) {
        let j = choose|j: int| #[trigger] sim.switch_link(j, a, b);
        lemma_switch_link_ports(sim, relays, wiper, j, 0, p, q);
    } else if exists|j: int| #[trigger] sim.relay_link(relays, j, a, b) {
        let j = choose|j: int| #[trigger] sim.relay_link(relays, j, a, b);
        lemma_relay_link_ports(sim, relays, wiper, j, 0, p, q);
    } else if sim.wiper_link(wiper, a, b) {
        lemma_wiper_link_ports(sim, relays, wiper, 0, 0, p, q);
    } else if exists|j: int| #[trigger] sim.matrix_link(j, a, b) {
        let j = choose|j: int| #[trigger] sim.matrix_link(j, a, b);
        lemma_matrix_link_ports(sim, relays, wiper, j, 0, p, q);
    } else {
        assert(exists|j: int, h: int| #[trigger] sim.tie_link(j, h, a, b));
        let (j, h) = choose|j: int, h: int| #[trigger] sim.tie_link(j, h, a, b);
        lemma_tie_link_ports(sim, relays, wiper, j, h, p, q);
    }
}

/// On a board with no cords and distinct port identifiers, a pushbutton's
/// other contact stays open: a released button leaves Y-X open, a pressed
/// one Y-Z.
pub proof fn law_pushbutton_contacts_open(
    sim: MinivacSimulation,
    relays: Seq<ContactPosition>,
    wiper: Option<usize>,
    i: usize,
)
    requires
        sim.wf(),
        sim.port_ids@.no_duplicates(),
        sim.connections@.len() == 0,
        i < 6,
        wiper matches Some(c) ==> c < 16,
    ensures
        !sim.buttons_pressed[i as int] ==> !sim.closes(
            relays,
            wiper,
            sim.id_of(ComponentPort::Pushbutton(i, 'Y')),
            sim.id_of(ComponentPort::Pushbutton(i, 'X')),
        ),
        sim.buttons_pressed[i as int] ==> !sim.closes(
            relays,
            wiper,
            sim.id_of(ComponentPort::Pushbutton(i, 'Y')),
            sim.id_of(ComponentPort::Pushbutton(i, 'Z')),
        ),
{
    lemma_id_of_injective(sim);
    let x = ComponentPort::Pushbutton(i, 'X');
    let y = ComponentPort::Pushbutton(i, 'Y');
    let z = ComponentPort::Pushbutton(i, 'Z');
    assert(on_panel(x) && on_panel(y) && on_panel(z));
    assert(sim.id_of(x) != sim.id_of(y) && sim.id_of(x) != sim.id_of(z) && sim.id_of(y) != sim.id_of(z));
    if sim.closes(relays, wiper, sim.id_of(y), sim.id_of(x)) {
        lemma_link_within_part(sim, relays, wiper, y, x);
    }
    if sim.closes(relays, wiper, sim.id_of(y), sim.id_of(z)) {
        lemma_link_within_part(sim, relays, wiper, y, z);
    }
}

/// On a board with no cords and distinct port identifiers, a slide
/// switch's other contacts stay open: slid left it leaves S-T and V-W
/// open, slid right S-R and V-U.
pub proof fn law_slide_switch_contacts_open(
    sim: MinivacSimulation,
    relays: Seq<ContactPosition>,
    wiper: Option<usize>,
    i: usize,
)
    requires
        sim.wf(),
        sim.port_ids@.no_duplicates(),
        sim.connections@.len() == 0,
        i < 6,
        wiper matches Some(c) ==> c < 16,
    ensures
        !sim.switches_right[i as int] ==> !sim.closes(
            relays,
            wiper,
            sim.id_of(ComponentPort::SlideSwitch(i, 'S')),
            sim.id_of(ComponentPort::SlideSwitch(i, 'T')),
        ) && !sim.closes(
            relays,
            wiper,
            sim.id_of(ComponentPort::SlideSwitch(i, 'V')),
            sim.id_of(ComponentPort::SlideSwitch(i, 'W')),
        ),
        sim.switches_right[i as int] ==> !sim.closes(
            relays,
            wiper,
            sim.id_of(ComponentPort::SlideSwitch(i, 'S')),
            sim.id_of(ComponentPort::SlideSwitch(i, 'R')),
        ) && !sim.closes(
            relays,
            wiper,
            sim.id_of(ComponentPort::SlideSwitch(i, 'V')),
            sim.id_of(ComponentPort::SlideSwitch(i, 'U')),
        ),
{
    lemma_id_of_injective(sim);
    let r = ComponentPort::SlideSwitch(i, 'R');
    let s = ComponentPort::SlideSwitch(i, 'S');
    let t = ComponentPort::SlideSwitch(i, 'T');
    let u = ComponentPort::SlideSwitch(i, 'U');
    let v = ComponentPort::SlideSwitch(i, 'V');
    let w = ComponentPort::SlideSwitch(i, 'W');
    assert(on_panel(r) && on_panel(s) && on_panel(t) && on_panel(u) && on_panel(v) && on_panel(w));
    assert(sim.id_of(s) != sim.id_of(v) && sim.id_of(s) != sim.id_of(w) && sim.id_of(s) != sim.id_of(u));
    assert(sim.id_of(t) != sim.id_of(v) && sim.id_of(t) != sim.id_of(u) && sim.id_of(t) != sim.id_of(s));
    assert(sim.id_of(r) != sim.id_of(v) && sim.id_of(r) != sim.id_of(w) && sim.id_of(r) != sim.id_of(s));
    assert(sim.id_of(u) != sim.id_of(s) && sim.id_of(w) != sim.id_of(s) && sim.id_of(v) != sim.id_of(u));
    assert(sim.id_of(v) != sim.id_of(w));
    if sim.closes(relays, wiper, sim.id_of(s), sim.id_of(t)) {
        lemma_link_within_part(sim, relays, wiper, s, t);
    }
    if sim.closes(relays, wiper, sim.id_of(v), sim.id_of(w)) {
        lemma_link_within_part(sim, relays, wiper, v, w);
    }
    if sim.closes(relays, wiper, sim.id_of(s), sim.id_of(r)) {
        lemma_link_within_part(sim, relays, wiper, s, r);
    }
    if sim.closes(relays, wiper, sim.id_of(v), sim.id_of(u)) {
        lemma_link_within_part(sim, relays, wiper, v, u);
    }
}

/// On a board with no cords and distinct port identifiers, the wiper D16
/// touches no dial contact but the one it stands on, and none when it
/// stands between contacts.
pub proof fn law_wiper_touches_one_contact(
    sim: MinivacSimulation,
    relays: Seq<ContactPosition>,
    wiper: Option<usize>,
    d: usize,
)
    requires
        sim.wf(),
        sim.port_ids@.no_duplicates(),
        sim.connections@.len() == 0,
        d < 16,
        wiper matches Some(c) ==> c < 16,
        wiper != Some(d),
    ensures
        !sim.closes(
            relays,
            wiper,
            sim.id_of(ComponentPort::DialWiper),
            sim.id_of(ComponentPort::DialContact(d)),
        ),
{
    lemma_id_of_injective(sim);
    let w = ComponentPort::DialWiper;
    let x = ComponentPort::DialContact(d);
    assert(on_panel(w) && on_panel(x));
    if sim.closes(relays, wiper, sim.id_of(w), sim.id_of(x)) {
        lemma_link_within_part(sim, relays, wiper, w, x);
        if let Some(c) = wiper {
            assert(on_panel(ComponentPort::DialContact(c)));
            assert(sim.id_of(x) != sim.id_of(ComponentPort::DialContact(c)));
            assert(sim.id_of(w) != sim.id_of(ComponentPort::DialContact(c)));
        }
    }
}

/// With distinct port identifiers, an identifier names a positive (or a
/// negative) power terminal exactly when it is the identifier of one of
/// the four + (or -) terminals.
pub proof fn lemma_power_ids(sim: MinivacSimulation)
    requires
        sim.wf(),
        sim.port_ids@.no_duplicates(),
    ensures
        forall|x: u128|
            #[trigger] is_plus_id(sim.port_ids@, x) <==> exists|j: usize|
                j < 4 && x == #[trigger] sim.id_of(ComponentPort::PowerPlus(j)),
        forall|x: u128|
            #[trigger] is_minus_id(sim.port_ids@, x) <==> exists|j: usize|
                j < 4 && x == #[trigger] sim.id_of(ComponentPort::PowerMinus(j)),
{
    let ids = sim.port_ids@;
    assert forall|x: u128|
        #[trigger] is_plus_id(ids, x) <==> exists|j: usize|
            j < 4 && x == #[trigger] sim.id_of(ComponentPort::PowerPlus(j)) by {
        if is_plus_id(ids, x) {
            let i = choose|i: int| #[trigger] owns(ids, x, i) && port_at(i) is PowerPlus;
            let j = (i / 2) as usize;
            assert(i < 8 && i % 2 == 0);
            assert(port_index(ComponentPort::PowerPlus(j)) == Some(i));
            assert(x == sim.id_of(ComponentPort::PowerPlus(j)));
        }
        if exists|j: usize| j < 4 && x == #[trigger] sim.id_of(ComponentPort::PowerPlus(j)) {
            let j = choose|j: usize| j < 4 && x == #[trigger] sim.id_of(ComponentPort::PowerPlus(j));
            let i = 2 * j as int;
            assert(ids[i] == x);
            assert(owns(ids, x, i));
            assert(port_at(i) is PowerPlus);
        }
    }
    assert forall|x: u128|
        #[trigger] is_minus_id(ids, x) <==> exists|j: usize|
            j < 4 && x == #[trigger] sim.id_of(ComponentPort::PowerMinus(j)) by {
        if is_minus_id(ids, x) {
            let i = choose|i: int| #[trigger] owns(ids, x, i) && port_at(i) is PowerMinus;
            let j = (i / 2) as usize;
            assert(i < 8 && i % 2 == 1);
            assert(port_index(ComponentPort::PowerMinus(j)) == Some(i));
            assert(x == sim.id_of(ComponentPort::PowerMinus(j)));
        }
        if exists|j: usize| j < 4 && x == #[trigger] sim.id_of(ComponentPort::PowerMinus(j)) {
            let j = choose|j: usize| j < 4 && x == #[trigger] sim.id_of(ComponentPort::PowerMinus(j));
            let i = 2 * j as int + 1;
            assert(ids[i] == x);
            assert(owns(ids, x, i));
            assert(port_at(i) is PowerMinus);
        }
    }
}

/// A net holds one of the + terminals.
pub open spec fn net_has_plus(sim: MinivacSimulation, net: Seq<u128>) -> bool {
    exists|j: usize| j < 4 && net.contains(#[trigger] sim.id_of(ComponentPort::PowerPlus(j)))
}

/// A net holds one of the - terminals.
pub open spec fn net_has_minus(sim: MinivacSimulation, net: Seq<u128>) -> bool {
    exists|j: usize| j < 4 && net.contains(#[trigger] sim.id_of(ComponentPort::PowerMinus(j)))
}

/// With distinct port identifiers, the supply holds a net at 12 V exactly
/// when the net holds a + terminal, and at 0 V exactly when it holds a -
/// terminal and no + terminal; every other net floats.
pub proof fn law_supply_by_terminals(
    sim: MinivacSimulation,
    c: Circuit,
    relays: Seq<ContactPosition>,
    wiper: Option<usize>,
)
    requires
        sim.wf(),
        sim.port_ids@.no_duplicates(),
        sim.describes(c, relays, wiper),
    ensures
        forall|k: int|
            0 <= k < c.supply@.len() ==> (#[trigger] c.supply@[k] == NetSupply::Positive <==> net_has_plus(
                sim,
                c.nets.members@[k]@,
            )) && (c.supply@[k] == NetSupply::Negative <==> !net_has_plus(sim, c.nets.members@[k]@)
                && net_has_minus(sim, c.nets.members@[k]@)),
{
    lemma_power_ids(sim);
    let ids = sim.port_ids@;
    assert forall|k: int|
        0 <= k < c.supply@.len() implies (#[trigger] c.supply@[k] == NetSupply::Positive <==> net_has_plus(
            sim,
            c.nets.members@[k]@,
        )) && (c.supply@[k] == NetSupply::Negative <==> !net_has_plus(sim, c.nets.members@[k]@)
            && net_has_minus(sim, c.nets.members@[k]@)) by {
        let net = c.nets.members@[k]@;
        assert(holds_plus(ids, net) <==> net_has_plus(sim, net)) by {
            if holds_plus(ids, net) {
                let m = choose|m: int| 0 <= m < net.len() && #[trigger] is_plus_id(ids, net[m]);
                let j = choose|j: usize| j < 4 && net[m] == #[trigger] sim.id_of(ComponentPort::PowerPlus(j));
                assert(net.contains(sim.id_of(ComponentPort::PowerPlus(j))));
            }
            if net_has_plus(sim, net) {
                let j = choose|j: usize| j < 4 && net.contains(#[trigger] sim.id_of(ComponentPort::PowerPlus(j)));
                let m = choose|m: int| 0 <= m < net.len() && net[m] == sim.id_of(ComponentPort::PowerPlus(j));
                assert(is_plus_id(ids, net[m]));
            }
        }
        assert(holds_minus(ids, net) <==> net_has_minus(sim, net)) by {
            if holds_minus(ids, net) {
                let m = choose|m: int| 0 <= m < net.len() && #[trigger] is_minus_id(ids, net[m]);
                let j = choose|j: usize| j < 4 && net[m] == #[trigger] sim.id_of(ComponentPort::PowerMinus(j));
                assert(net.contains(sim.id_of(ComponentPort::PowerMinus(j))));
            }
            if net_has_minus(sim, net) {
                let j = choose|j: usize| j < 4 && net.contains(#[trigger] sim.id_of(ComponentPort::PowerMinus(j)));
                let m = choose|m: int| 0 <= m < net.len() && net[m] == sim.id_of(ComponentPort::PowerMinus(j));
                assert(is_minus_id(ids, net[m]));
            }
        }
    }
}

/// With distinct port identifiers, the state short-circuits the supply
/// exactly when it wires one of the + terminals to one of the - terminals.
pub proof fn law_short_circuit_by_terminals(
    sim: MinivacSimulation,
    relays: Seq<ContactPosition>,
    wiper: Option<usize>,
)
    requires
        sim.wf(),
        sim.port_ids@.no_duplicates(),
    ensures
        short_circuit(sim, relays, wiper) <==> exists|j1: usize, j2: usize|
            j1 < 4 && j2 < 4 && #[trigger] wired(
                sim,
                relays,
                wiper,
                sim.id_of(ComponentPort::PowerPlus(j1)),
                sim.id_of(ComponentPort::PowerMinus(j2)),
            ),
{
    lemma_power_ids(sim);
    let ids = sim.port_ids@;
    if short_circuit(sim, relays, wiper) {
        let (x, y) = choose|x: u128, y: u128|
            #![trigger is_plus_id(ids, x), is_minus_id(ids, y)]
            is_plus_id(ids, x) && is_minus_id(ids, y) && wired(sim, relays, wiper, x, y);
        let j1 = choose|j: usize| j < 4 && x == #[trigger] sim.id_of(ComponentPort::PowerPlus(j));
        let j2 = choose|j: usize| j < 4 && y == #[trigger] sim.id_of(ComponentPort::PowerMinus(j));
        assert(wired(
            sim,
            relays,
            wiper,
            sim.id_of(ComponentPort::PowerPlus(j1)),
            sim.id_of(ComponentPort::PowerMinus(j2)),
        ));
    }
    if exists|j1: usize, j2: usize|
        j1 < 4 && j2 < 4 && #[trigger] wired(
            sim,
            relays,
            wiper,
            sim.id_of(ComponentPort::PowerPlus(j1)),
            sim.id_of(ComponentPort::PowerMinus(j2)),
        ) {
        let (j1, j2) = choose|j1: usize, j2: usize|
            j1 < 4 && j2 < 4 && #[trigger] wired(
                sim,
                relays,
                wiper,
                sim.id_of(ComponentPort::PowerPlus(j1)),
                sim.id_of(ComponentPort::PowerMinus(j2)),
            );
        let x = sim.id_of(ComponentPort::PowerPlus(j1));
        let y = sim.id_of(ComponentPort::PowerMinus(j2));
        assert(is_plus_id(ids, x));
        assert(is_minus_id(ids, y));
    }
}

/// Load `n` joins net `k` to net `t`, whose ends lie in the nets `ends[n]`.
pub open spec fn load_between(ends: Seq<(usize, usize)>, n: int, k: int, t: int) -> bool {
    ends[n].0 != ends[n].1 && ((ends[n].0 == k && ends[n].1 == t) || (ends[n].1 == k && ends[n].0 == t))
}

/// The entry `e` of net `k`'s neighbour list stands for a load between
/// net `k` and net `e.target_net`, of resistance `e.resistance`.
pub open spec fn comes_from_a_load(loads: Seq<LoadEdge>, ends: Seq<(usize, usize)>, k: int, e: NetLoad) -> bool {
    exists|n: int|
        0 <= n < ends.len() && #[trigger] load_between(ends, n, k, e.target_net as int) && e.resistance
            == loads[n].resistance
}

proof fn lemma_neighbours(loads: Seq<LoadEdge>, ends: Seq<(usize, usize)>, k: int)
    requires
        ends.len() <= loads.len(),
    ensures
        forall|n: int, t: int|
            0 <= n < ends.len() && #[trigger] load_between(ends, n, k, t) ==> neighbours(loads, ends, k).contains(
                NetLoad { target_net: t as usize, resistance: loads[n].resistance },
            ),
        forall|m: int|
            0 <= m < neighbours(loads, ends, k).len() ==> comes_from_a_load(
                loads,
                ends,
                k,
                #[trigger] neighbours(loads, ends, k)[m],
            ),
    decreases ends.len(),
{
    if ends.len() > 0 {
        let pre = ends.drop_last();
        let last = ends.len() - 1;
        lemma_neighbours(loads, pre, k);
        let prev = neighbours(loads, pre, k);
        let cur = neighbours(loads, ends, k);
        assert forall|n: int| 0 <= n < pre.len() implies pre[n] == ends[n] by {}
        assert forall|n: int, t: int|
            0 <= n < ends.len() && #[trigger] load_between(ends, n, k, t) implies cur.contains(
                NetLoad { target_net: t as usize, resistance: loads[n].resistance },
            ) by {
            if n < last {
                assert(load_between(pre, n, k, t));
                let e = NetLoad { target_net: t as usize, resistance: loads[n].resistance };
                assert(prev.contains(e));
                let m = choose|m: int| 0 <= m < prev.len() && prev[m] == e;
                assert(cur[m] == e);
            } else {
                assert(cur[cur.len() - 1] == NetLoad { target_net: t as usize, resistance: loads[n].resistance });
            }
        }
        assert forall|m: int| 0 <= m < cur.len() implies comes_from_a_load(loads, ends, k, #[trigger] cur[m]) by {
            if m < prev.len() {
                assert(cur[m] == prev[m]);
                assert(comes_from_a_load(loads, pre, k, prev[m]));
                let n = choose|n: int|
                    0 <= n < pre.len() && #[trigger] load_between(pre, n, k, prev[m].target_net as int)
                        && prev[m].resistance == loads[n].resistance;
                assert(load_between(ends, n, k, cur[m].target_net as int));
            } else {
                let (a, b) = ends[last];
                assert(a != b && (a == k || b == k));
                if a == k {
                    assert(cur == prev.push(NetLoad { target_net: b, resistance: loads[last].resistance }));
                } else {
                    assert(cur == prev.push(NetLoad { target_net: a, resistance: loads[last].resistance }));
                }
                assert(load_between(ends, last, k, cur[m].target_net as int));
                assert(cur[m].resistance == loads[last].resistance);
            }
        }
    } else {
        assert(neighbours(loads, ends, k) =~= Seq::<NetLoad>::empty());
    }
}

/// In a solved circuit, each net's list of neighbours holds, for every load
/// with its two ends in different nets, the net at the load's other end
/// and the load's resistance, seen from both ends; and it holds nothing
/// else.
pub proof fn law_net_neighbours(
    sim: MinivacSimulation,
    c: Circuit,
    relays: Seq<ContactPosition>,
    wiper: Option<usize>,
)
    requires
        sim.describes(c, relays, wiper),
    ensures
        forall|n: int|
            0 <= n < LOAD_COUNT && c.load_nets@[n].0 != c.load_nets@[n].1 ==> (#[trigger] c.net_loads@[c.load_nets@[n].0 as int])@.contains(
                NetLoad { target_net: c.load_nets@[n].1, resistance: c.loads@[n].resistance },
            ) && c.net_loads@[c.load_nets@[n].1 as int]@.contains(
                NetLoad { target_net: c.load_nets@[n].0, resistance: c.loads@[n].resistance },
            ),
        forall|k: int, m: int|
            0 <= k < c.net_loads@.len() && 0 <= m < c.net_loads@[k]@.len() ==> comes_from_a_load(
                c.loads@,
                c.load_nets@,
                k,
                #[trigger] c.net_loads@[k]@[m],
            ),
{
    assert forall|k: int| 0 <= k < c.net_loads@.len() implies #[trigger] c.net_loads@[k]@ == neighbours(
        c.loads@,
        c.load_nets@,
        k,
    ) by {}
    assert forall|n: int|
        0 <= n < LOAD_COUNT && c.load_nets@[n].0 != c.load_nets@[n].1 implies (#[trigger] c.net_loads@[c.load_nets@[n].0 as int])@.contains(
            NetLoad { target_net: c.load_nets@[n].1, resistance: c.loads@[n].resistance },
        ) && c.net_loads@[c.load_nets@[n].1 as int]@.contains(
            NetLoad { target_net: c.load_nets@[n].0, resistance: c.loads@[n].resistance },
        ) by {
        let a = c.load_nets@[n].0 as int;
        let b = c.load_nets@[n].1 as int;
        assert(c.nets.in_net(c.loads@[n].node_a, a));
        assert(c.nets.in_net(c.loads@[n].node_b, b));
        let ia = choose|i: int|
            0 <= i < c.nets.ids@.len() && #[trigger] c.nets.ids@[i] == c.loads@[n].node_a && c.nets.id_net@[i] == a;
        let ib = choose|i: int|
            0 <= i < c.nets.ids@.len() && #[trigger] c.nets.ids@[i] == c.loads@[n].node_b && c.nets.id_net@[i] == b;
        assert(c.nets.id_net@[ia] < c.nets.members@.len());
        assert(c.nets.id_net@[ib] < c.nets.members@.len());
        lemma_neighbours(c.loads@, c.load_nets@, a);
        lemma_neighbours(c.loads@, c.load_nets@, b);
        assert(load_between(c.load_nets@, n, a, b));
        assert(load_between(c.load_nets@, n, b, a));
    }
    assert forall|k: int, m: int|
        0 <= k < c.net_loads@.len() && 0 <= m < c.net_loads@[k]@.len() implies comes_from_a_load(
            c.loads@,
            c.load_nets@,
            k,
            #[trigger] c.net_loads@[k]@[m],
        ) by {
        lemma_neighbours(c.loads@, c.load_nets@, k);
        let nb = neighbours(c.loads@, c.load_nets@, k);
        assert(c.net_loads@[k]@ == nb);
        assert(nb[m] == c.net_loads@[k]@[m]);
    }
}

/// The faceplate's ports: four + and four - terminals; six pushbuttons
/// (X, Y, Z), six slide switches (R to W), six relays (coil C, E, F and
/// contacts G, H, J, K, L, N) and six output lights (A, B); dial contacts
/// 0 to 15, the wiper, motor terminals 17 to 19; six tie-point blocks of
/// four holes and eleven matrix points (t, b).
pub proof fn law_panel_ports(p: ComponentPort)
    ensures
        on_panel(p) <==> match p {
            ComponentPort::PowerPlus(i) => i < 4,
            ComponentPort::PowerMinus(i) => i < 4,
            ComponentPort::Pushbutton(i, c) => i < 6 && (c == 'X' || c == 'Y' || c == 'Z'),
            ComponentPort::SlideSwitch(i, c) => i < 6 && (c == 'R' || c == 'S' || c == 'T' || c == 'U'
                || c == 'V' || c == 'W'),
            ComponentPort::RelayCoil(i, c) => i < 6 && (c == 'C' || c == 'E' || c == 'F'),
            ComponentPort::RelayContact(i, c) => i < 6 && (c == 'G' || c == 'H' || c == 'J' || c == 'K'
                || c == 'L' || c == 'N'),
            ComponentPort::BinaryLight(i, c) => i < 6 && (c == 'A' || c == 'B'),
            ComponentPort::DialContact(i) => i < 16,
            ComponentPort::DialWiper => true,
            ComponentPort::DialMotor(i) => 17 <= i <= 19,
            ComponentPort::TiePoint(i, h) => i < 6 && h < 4,
            ComponentPort::MatrixPoint(i, c) => i < 11 && (c == 't' || c == 'b'),
        },
{
}

/// A solved circuit reports the motor's brake as set exactly when motor
/// terminals 18 and 19 are wired together, and puts two ports of the
/// faceplate in one net exactly when they are wired together.
pub proof fn law_circuit_brake_and_nets(
    sim: MinivacSimulation,
    c: Circuit,
    relays: Seq<ContactPosition>,
    wiper: Option<usize>,
    p: ComponentPort,
    q: ComponentPort,
    kp: int,
    kq: int,
)
    requires
        sim.describes(c, relays, wiper),
        c.nets.in_net(sim.id_of(p), kp),
        c.nets.in_net(sim.id_of(q), kq),
    ensures
        c.stop_shorted == wired(
            sim,
            relays,
            wiper,
            sim.id_of(ComponentPort::DialMotor(18)),
            sim.id_of(ComponentPort::DialMotor(19)),
        ),
        kp == kq <==> wired(sim, relays, wiper, sim.id_of(p), sim.id_of(q)),
{
}

} // verus!
