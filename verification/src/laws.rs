//! Properties that relate several operations of the machine.
use vstd::prelude::*;
use crate::electrical::{Circuit, holds_minus, holds_plus, short_circuit, closes_walk, wired};
use crate::patching::{
    DragState, first_plug, lemma_drop_one_per_hole, lemma_first_plug_all,
    lemma_pick_up_one_per_hole, no_self_cords, one_cord_per_hole, plugs, spec_drop, spec_pick_up,
};
use crate::ports::{
    ComponentPort, button_slot, coil_slot, contact_slot, decimal, digit_char, light_slot, name_fits, on_panel,
    port_name, switch_slot,
};
use crate::simulation::{Connection, ContactPosition, MinivacSimulation, joins};
use crate::wiring::{all_digits, digit_value, digits_value, is_digit, parse_port_spec, parse_usize, spec_readable};

verus! {

/// The links a state closes run both ways.
pub proof fn lemma_closes_symmetric(
    sim: MinivacSimulation,
    relays: Seq<ContactPosition>,
    wiper: Option<usize>,
    a: u128,
    b: u128,
)
    requires
        sim.closes(relays, wiper, a, b),
    ensures
        sim.closes(relays, wiper, b, a),
{
    if exists|c: int| #[trigger] sim.cord_link(c, a, b) {
        let c = choose|c: int| #[trigger] sim.cord_link(c, a, b);
        assert(sim.cord_link(c, b, a));
    } else if exists|i: int| #[trigger] sim.button_link(i, a, b) {
        let i = choose|i: int| #[trigger] sim.button_link(i, a, b);
        assert(sim.button_link(i, b, a));
    } else if exists|i: int| #[trigger] sim.switch_link(i, a, b) {
        let i = choose|i: int| #[trigger] sim.switch_link(i, a, b);
        assert(sim.switch_link(i, b, a));
    } else if exists|i: int| #[trigger] sim.relay_link(relays, i, a, b) {
        let i = choose|i: int| #[trigger] sim.relay_link(relays, i, a, b);
        assert(sim.relay_link(relays, i, b, a));
    } else if sim.wiper_link(wiper, a, b) {
        assert(sim.wiper_link(wiper, b, a));
    } else if exists|i: int| #[trigger] sim.matrix_link(i, a, b) {
        let i = choose|i: int| #[trigger] sim.matrix_link(i, a, b);
        assert(sim.matrix_link(i, b, a));
    } else {
        let (i, h) = choose|i: int, h: int| #[trigger] sim.tie_link(i, h, a, b);
        assert(sim.tie_link(i, h, b, a));
    }
}

/// A walk of closed links can be carried one link further.
pub proof fn lemma_wired_extend(
    sim: MinivacSimulation,
    relays: Seq<ContactPosition>,
    wiper: Option<usize>,
    a: u128,
    b: u128,
    c: u128,
)
    requires
        wired(sim, relays, wiper, a, b),
        sim.closes(relays, wiper, b, c),
    ensures
        wired(sim, relays, wiper, a, c),
{
    let p = choose|p: Seq<u128>| #[trigger] closes_walk(sim, relays, wiper, p) && p[0] == a && p.last() == b;
    let w = p.push(c);
    assert forall|i: int| 0 <= i < w.len() - 1 implies #[trigger] sim.closes(relays, wiper, w[i], w[i + 1]) by {
        if i < p.len() - 1 {
            assert(w[i] == p[i] && w[i + 1] == p[i + 1]);
            assert(sim.closes(relays, wiper, p[i], p[i + 1]));
        } else {
            assert(w[i] == b && w[i + 1] == c);
        }
    }
    assert(closes_walk(sim, relays, wiper, w));
    assert(w[0] == a && w.last() == c);
}

/// Two ports that one closed link joins are wired together.
pub proof fn lemma_wired_single(
    sim: MinivacSimulation,
    relays: Seq<ContactPosition>,
    wiper: Option<usize>,
    a: u128,
    b: u128,
)
    requires
        sim.closes(relays, wiper, a, b),
    ensures
        wired(sim, relays, wiper, a, b),
{
    let p = seq![a, b];
    assert(sim.closes(relays, wiper, p[0], p[1]));
    assert(closes_walk(sim, relays, wiper, p));
    assert(p[0] == a && p.last() == b);
}

proof fn lemma_transit_link_stays(
    sim: MinivacSimulation,
    relays: Seq<ContactPosition>,
    wiper: Option<usize>,
    i: int,
    settled: ContactPosition,
    a: u128,
    b: u128,
)
    requires
        relays.len() == 6,
        0 <= i < 6,
        relays[i] == ContactPosition::Moving,
        sim.closes(relays, wiper, a, b),
    ensures
        sim.closes(relays.update(i, settled), wiper, a, b),
{
    let r2 = relays.update(i, settled);
    if exists|j: int| #[trigger] sim.relay_link(relays, j, a, b) {
        let j = choose|j: int| #[trigger] sim.relay_link(relays, j, a, b);
        assert(j != i);
        assert(r2[j] == relays[j]);
        assert(sim.relay_link(r2, j, a, b));
    }
}

/// A relay's contacts break before they make: every pair of ports that the
/// state wires together while relay `i` travels is wired together as well
/// with that relay pulled in, and with it let go.
pub proof fn law_break_before_make(
    sim: MinivacSimulation,
    relays: Seq<ContactPosition>,
    wiper: Option<usize>,
    i: int,
    a: u128,
    b: u128,
)
    requires
        relays.len() == 6,
        0 <= i < 6,
        relays[i] == ContactPosition::Moving,
        wired(sim, relays, wiper, a, b),
    ensures
        wired(sim, relays.update(i, ContactPosition::Energized), wiper, a, b),
        wired(sim, relays.update(i, ContactPosition::Released), wiper, a, b),
{
    let p = choose|p: Seq<u128>| #[trigger] closes_walk(sim, relays, wiper, p) && p[0] == a && p.last() == b;
    let up = relays.update(i, ContactPosition::Energized);
    let down = relays.update(i, ContactPosition::Released);
    assert forall|k: int| 0 <= k < p.len() - 1 implies #[trigger] sim.closes(up, wiper, p[k], p[k + 1]) by {
        assert(sim.closes(relays, wiper, p[k], p[k + 1]));
        lemma_transit_link_stays(sim, relays, wiper, i, ContactPosition::Energized, p[k], p[k + 1]);
    }
    assert forall|k: int| 0 <= k < p.len() - 1 implies #[trigger] sim.closes(down, wiper, p[k], p[k + 1]) by {
        assert(sim.closes(relays, wiper, p[k], p[k + 1]));
        lemma_transit_link_stays(sim, relays, wiper, i, ContactPosition::Released, p[k], p[k + 1]);
    }
    assert(closes_walk(sim, up, wiper, p));
    assert(closes_walk(sim, down, wiper, p));
}

/// A patch cord puts both of its ends in one net: in the circuit of any
/// state that holds the cord, one end lies in a net exactly when the other
/// does, and then in the same one.
pub proof fn law_cord_ends_share_a_net(
    sim: MinivacSimulation,
    c: Circuit,
    relays: Seq<ContactPosition>,
    wiper: Option<usize>,
    cord: int,
)
    requires
        sim.describes(c, relays, wiper),
        0 <= cord < sim.connections@.len(),
    ensures
        c.nets.has_net(sim.connections@[cord].from) <==> c.nets.has_net(sim.connections@[cord].to),
        forall|ka: int, kb: int|
            c.nets.in_net(sim.connections@[cord].from, ka) && c.nets.in_net(
                sim.connections@[cord].to,
                kb,
            ) ==> ka == kb,
{
    let a = sim.connections@[cord].from;
    let b = sim.connections@[cord].to;
    assert(sim.cord_link(cord, a, b));
    assert(sim.closes(relays, wiper, a, b));
    lemma_closes_symmetric(sim, relays, wiper, a, b);
    lemma_wired_single(sim, relays, wiper, a, b);
    let ids = sim.port_ids@;
    if c.nets.has_net(a) {
        let i = choose|i: int| 0 <= i < crate::ports::PORT_COUNT && #[trigger] wired(sim, relays, wiper, ids[i], a);
        lemma_wired_extend(sim, relays, wiper, ids[i], a, b);
        assert(c.nets.has_net(b));
    }
    if c.nets.has_net(b) {
        let i = choose|i: int| 0 <= i < crate::ports::PORT_COUNT && #[trigger] wired(sim, relays, wiper, ids[i], b);
        lemma_wired_extend(sim, relays, wiper, ids[i], b, a);
        assert(c.nets.has_net(a));
    }
}

/// No net of a circuit holds both a positive and a negative power terminal
/// unless the state short-circuits the supply (when the breaker trips and
/// no circuit is worked out).
pub proof fn law_nets_hold_one_polarity(
    sim: MinivacSimulation,
    c: Circuit,
    relays: Seq<ContactPosition>,
    wiper: Option<usize>,
)
    requires
        sim.describes(c, relays, wiper),
        !short_circuit(sim, relays, wiper),
    ensures
        forall|k: int|
            0 <= k < c.nets.members@.len() ==> !(#[trigger] holds_plus(sim.port_ids@, c.nets.members@[k]@)
                && holds_minus(sim.port_ids@, c.nets.members@[k]@)),
{
    let ids = sim.port_ids@;
    assert forall|k: int|
        0 <= k < c.nets.members@.len() implies !(#[trigger] holds_plus(ids, c.nets.members@[k]@)
            && holds_minus(ids, c.nets.members@[k]@)) by {
        let net = c.nets.members@[k]@;
        if holds_plus(ids, net) && holds_minus(ids, net) {
            let m1 = choose|m: int| 0 <= m < net.len() && #[trigger] crate::electrical::is_plus_id(ids, net[m]);
            let m2 = choose|m: int| 0 <= m < net.len() && #[trigger] crate::electrical::is_minus_id(ids, net[m]);
            assert(net.contains(net[m1]) && net.contains(net[m2]));
            assert(c.nets.in_net(net[m1], k));
            assert(c.nets.in_net(net[m2], k));
            assert(wired(sim, relays, wiper, net[m1], net[m2]));
        }
    }
}

/// The unordered pair `a`, `b` is the pair of ends of one of the cords.
pub open spec fn cord_joins(cords: Seq<Connection>, a: u128, b: u128) -> bool {
    exists|c: int| 0 <= c < cords.len() && #[trigger] joins(a, b, cords[c].from, cords[c].to)
}

/// Pulling the only cord out of a hole and dropping its free end back into
/// that hole leaves the same pairs of ports joined by cords.
pub proof fn law_replug_restores_cords(
    cords: Seq<Connection>,
    port: u128,
    hole: usize,
    active_color: [u8; 4],
)
    requires
        no_self_cords(cords),
        first_plug(cords, port, hole) is Some,
        forall|j: int|
            0 <= j < cords.len() && j != first_plug(cords, port, hole)->0 ==> !plugs(
                #[trigger] cords[j],
                port,
                hole,
            ),
    ensures
        forall|a: u128, b: u128|
            #[trigger] cord_joins(
                spec_drop(
                    spec_pick_up(cords, port, hole, active_color).0,
                    spec_pick_up(cords, port, hole, active_color).1,
                    Some((port, hole)),
                ),
                a,
                b,
            ) <==> cord_joins(cords, a, b),
{
    let i = first_plug(cords, port, hole)->0;
    crate::patching::lemma_first_plug(cords, port, hole);
    let c = cords[i];
    let rest = cords.remove(i);
    let (left, d) = spec_pick_up(cords, port, hole, active_color);
    assert(left == rest);
    assert(c.from != c.to);
    assert forall|j: int| 0 <= j < rest.len() implies !plugs(#[trigger] rest[j], port, hole) by {
        assert(rest[j] == cords[if j < i { j } else { j + 1 }]);
    }
    lemma_first_plug_all(rest, port, hole);
    let back = spec_drop(rest, d, Some((port, hole)));
    let c2 = back[rest.len() as int];
    assert(back == rest.push(c2));
    assert(joins(c.from, c.to, c2.from, c2.to));
    assert forall|a: u128, b: u128| #[trigger] cord_joins(back, a, b) <==> cord_joins(cords, a, b) by {
        if cord_joins(cords, a, b) {
            let k = choose|k: int| 0 <= k < cords.len() && #[trigger] joins(a, b, cords[k].from, cords[k].to);
            if k == i {
                assert(joins(a, b, back[rest.len() as int].from, back[rest.len() as int].to));
            } else {
                let k2 = if k < i { k } else { k - 1 };
                assert(rest[k2] == cords[k]);
                assert(back[k2] == rest[k2]);
                assert(joins(a, b, back[k2].from, back[k2].to));
            }
        }
        if cord_joins(back, a, b) {
            let k = choose|k: int| 0 <= k < back.len() && #[trigger] joins(a, b, back[k].from, back[k].to);
            if k == rest.len() {
                assert(joins(a, b, cords[i].from, cords[i].to));
            } else {
                let k2 = if k < i { k } else { k + 1 };
                assert(back[k] == rest[k]);
                assert(rest[k] == cords[k2]);
                assert(joins(a, b, cords[k2].from, cords[k2].to));
            }
        }
    }
}

/// Dragging a cord from one hole and letting it go over any hole (or over
/// none) keeps the patch sound: no hole holds two cords and no cord runs
/// from a port to itself.
pub proof fn law_one_cord_per_hole(
    cords: Seq<Connection>,
    port: u128,
    hole: usize,
    active_color: [u8; 4],
    hovered: Option<(u128, usize)>,
)
    requires
        one_cord_per_hole(cords),
        no_self_cords(cords),
    ensures
        one_cord_per_hole(
            spec_drop(
                spec_pick_up(cords, port, hole, active_color).0,
                spec_pick_up(cords, port, hole, active_color).1,
                hovered,
            ),
        ),
        no_self_cords(
            spec_drop(
                spec_pick_up(cords, port, hole, active_color).0,
                spec_pick_up(cords, port, hole, active_color).1,
                hovered,
            ),
        ),
{
    let (left, d) = spec_pick_up(cords, port, hole, active_color);
    lemma_pick_up_one_per_hole(cords, port, hole, active_color);
    lemma_drop_one_per_hole(left, d, hovered);
    crate::patching::lemma_first_plug(cords, port, hole);
    assert(no_self_cords(left)) by {
        if let Some(i) = first_plug(cords, port, hole) {
            assert forall|c: int| 0 <= c < left.len() implies #[trigger] left[c].from != left[c].to by {
                assert(left[c] == cords[if c < i { c } else { c + 1 }]);
            }
        }
    }
    let after = spec_drop(left, d, hovered);
    assert forall|c: int| 0 <= c < after.len() implies #[trigger] after[c].from != after[c].to by {
        if c < left.len() {
            if after != left {
                assert(after[c] == left[c]);
            }
        }
    }
}

proof fn lemma_digit_char(k: nat)
    requires
        k < 10,
    ensures
        is_digit(digit_char(k)),
        digit_value(digit_char(k)) == k,
        (digit_char(k) as int) < 128,
        k >= 1 ==> digit_char(k) != '0',
        digit_char(k) != '+',
        digit_char(k) != 'X',
        digit_char(k) == '6' <==> k == 6,
{
}

proof fn lemma_decimal_reads_back(n: nat)
    ensures
        decimal(n).len() >= 1,
        all_digits(decimal(n)),
        digits_value(decimal(n)) == n,
        decimal(n)[0] != '+',
    decreases n,
{
    if n < 10 {
        lemma_digit_char(n);
        assert(decimal(n) == seq![digit_char(n)]);
        assert(decimal(n).drop_last() =~= Seq::<char>::empty());
        assert(digits_value(Seq::<char>::empty()) == 0);
        assert(digits_value(decimal(n)) == digits_value(decimal(n).drop_last()) * 10 + digit_value(
            decimal(n).last(),
        ));
    } else {
        lemma_decimal_reads_back(n / 10);
        lemma_digit_char(n % 10);
        let s = decimal(n);
        assert(s == decimal(n / 10).push(digit_char(n % 10)));
        assert(s.drop_last() =~= decimal(n / 10));
        assert(all_digits(s)) by {
            assert forall|i: int| 0 <= i < s.len() implies #[trigger] is_digit(s[i]) by {
                if i < s.len() - 1 {
                    assert(s[i] == decimal(n / 10)[i]);
                }
            }
        }
        assert(s[0] == decimal(n / 10)[0]);
        assert(s.last() == digit_char(n % 10));
        assert(digits_value(s) == digits_value(decimal(n / 10)) * 10 + digit_value(s.last()));
        assert((n / 10) * 10 + n % 10 == n);
    }
}

proof fn lemma_parse_decimal(n: nat)
    requires
        n <= usize::MAX,
    ensures
        parse_usize(decimal(n)) == Some(n),
{
    lemma_decimal_reads_back(n);
}

proof fn lemma_small_decimal(n: nat)
    requires
        n < 10,
    ensures
        decimal(n) == seq![digit_char(n)],
{
}

proof fn lemma_teen_decimal(n: nat)
    requires
        10 <= n < 20,
    ensures
        decimal(n) == seq!['1', digit_char((n - 10) as nat)],
{
    assert(decimal(n) == decimal(n / 10).push(digit_char(n % 10)));
    assert(n / 10 == 1 && n % 10 == n - 10);
    assert(decimal(1) == seq![digit_char(1)]);
    assert(decimal(n) =~= seq!['1', digit_char((n - 10) as nat)]);
}

/// Reading a port's printed name gives that port back, for every port of
/// the machine but the matrix points: a matrix point's name ("M1t") reads
/// as a motor terminal, as the experiment sheets write matrix points
/// "MX1t".
pub proof fn law_name_reads_back(p: ComponentPort)
    requires
        on_panel(p),
        !(p is MatrixPoint),
    ensures
        name_fits(p),
        spec_readable(port_name(p)),
        parse_port_spec(port_name(p)) == Some(p),
{
    let s = port_name(p);
    match p {
        ComponentPort::PowerPlus(i) => {
            lemma_parse_decimal(i as nat);
            assert(s.skip(1) =~= decimal(i as nat));
        },
        ComponentPort::PowerMinus(i) => {
            lemma_parse_decimal(i as nat);
            assert(s.skip(1) =~= decimal(i as nat));
        },
        ComponentPort::Pushbutton(i, c) => {
            let d = digit_char((i + 1) as nat);
            lemma_digit_char((i + 1) as nat);
            lemma_small_decimal((i + 1) as nat);
            assert(s =~= seq!['P', 'B', d, '_', c]);
        },
        ComponentPort::SlideSwitch(i, c) => {
            let d = digit_char((i + 1) as nat);
            lemma_digit_char((i + 1) as nat);
            lemma_small_decimal((i + 1) as nat);
            assert(s =~= seq!['S', 'W', d, '_', c]);
        },
        ComponentPort::RelayCoil(i, c) => {
            let d = digit_char((i + 1) as nat);
            lemma_digit_char((i + 1) as nat);
            lemma_small_decimal((i + 1) as nat);
            assert(s =~= seq!['R', 'L', 'Y', d, '_', 'c', 'o', 'i', 'l', '_', c]);
            assert(s[5] == 'c' && s[6] == 'o' && s[7] == 'i' && s[8] == 'l');
        },
        ComponentPort::RelayContact(i, c) => {
            let d = digit_char((i + 1) as nat);
            lemma_digit_char((i + 1) as nat);
            lemma_small_decimal((i + 1) as nat);
            assert(s =~= seq!['R', 'L', 'Y', d, '_', 'c', 'o', 'n', 't', 'a', 'c', 't', '_', c]);
            assert(!crate::wiring::mentions_coil(s)) by {
                assert forall|j: int| 0 <= j && j + 4 <= s.len() implies !(#[trigger] s[j] == 'c'
                    && s[j + 1] == 'o' && s[j + 2] == 'i' && s[j + 3] == 'l') by {
                    if j == 5 {
                        assert(s[j + 2] == 'n');
                    } else if j == 10 {
                        assert(s[j + 1] == 't');
                    }
                }
            }
        },
        ComponentPort::BinaryLight(i, c) => {
            let d = digit_char((i + 1) as nat);
            lemma_digit_char((i + 1) as nat);
            lemma_small_decimal((i + 1) as nat);
            assert(s =~= seq!['L', 'G', 'T', d, '_', c]);
        },
        ComponentPort::DialContact(i) => {
            lemma_parse_decimal(i as nat);
            assert(s.skip(1) =~= decimal(i as nat));
            if i < 10 {
                lemma_small_decimal(i as nat);
                assert(s =~= seq!['D', digit_char(i as nat)]);
            } else {
                lemma_teen_decimal(i as nat);
                lemma_digit_char((i - 10) as nat);
                assert(s =~= seq!['D', '1', digit_char((i - 10) as nat)]);
            }
        },
        ComponentPort::DialWiper => {
            assert(s =~= seq!['D', '1', '6']);
        },
        ComponentPort::DialMotor(i) => {
            lemma_parse_decimal(i as nat);
            lemma_teen_decimal(i as nat);
            assert(s.skip(1) =~= decimal(i as nat));
            assert(s =~= seq!['M', '1', digit_char((i - 10) as nat)]);
            lemma_digit_char((i - 10) as nat);
        },
        ComponentPort::TiePoint(i, h) => {
            let d = digit_char((i + 1) as nat);
            lemma_digit_char((i + 1) as nat);
            lemma_small_decimal((i + 1) as nat);
            lemma_digit_char(h as nat);
            lemma_small_decimal(h as nat);
            assert(s =~= seq!['C', 'O', 'M', d, '_', 'h', digit_char(h as nat)]);
        },
        ComponentPort::MatrixPoint(_, _) => {},
    }
}


/// The experiment sheets write matrix point `d` (1 to 9) as "MX", the
/// digit `d` and the hole, `t` or `b`: such a name can be read, and reads
/// as hole `c` of matrix point `d`, which the machine has (and whose
/// printed name is "M", `d` and the hole, without the X).
pub proof fn law_matrix_spelling_reads_back(d: usize, c: char)
    requires
        1 <= d <= 9,
        c == 't' || c == 'b',
    ensures
        spec_readable(seq!['M', 'X', digit_char(d as nat), c]),
        parse_port_spec(seq!['M', 'X', digit_char(d as nat), c]) == Some(
            ComponentPort::MatrixPoint((d - 1) as usize, c),
        ),
        on_panel(ComponentPort::MatrixPoint((d - 1) as usize, c)),
        port_name(ComponentPort::MatrixPoint((d - 1) as usize, c)) == seq!['M', digit_char(d as nat), c],
{
    let s = seq!['M', 'X', digit_char(d as nat), c];
    lemma_digit_char(d as nat);
    lemma_small_decimal(d as nat);
    assert(port_name(ComponentPort::MatrixPoint((d - 1) as usize, c)) =~= seq!['M', digit_char(d as nat), c]);
    assert(s.len() == 4 && s[0] == 'M' && s[1] == 'X' && s[2] == digit_char(d as nat) && s.last() == c);
}

/// The experiment sheets' spellings of the parts numbered 1 to 6 read back
/// as those parts: "PB" + number + "_" + terminal is a pushbutton, "SW..."
/// a slide switch, "RLY..._coil_..." a relay coil terminal,
/// "RLY..._contact_..." a relay contact, "LGT..." an output light, and
/// "COM" + number + "_h" + hole a tie-point hole; and these spellings are
/// the ports' printed names.
pub proof fn law_unit_spellings_read_back(i: usize, c: char, h: usize)
    requires
        i < 6,
        h < 4,
    ensures
        button_slot(c) is Some ==> parse_port_spec(seq!['P', 'B', digit_char((i + 1) as nat), '_', c])
            == Some(ComponentPort::Pushbutton(i, c)),
        switch_slot(c) is Some ==> parse_port_spec(seq!['S', 'W', digit_char((i + 1) as nat), '_', c])
            == Some(ComponentPort::SlideSwitch(i, c)),
        coil_slot(c) is Some ==> parse_port_spec(
            seq!['R', 'L', 'Y', digit_char((i + 1) as nat), '_', 'c', 'o', 'i', 'l', '_', c],
        ) == Some(ComponentPort::RelayCoil(i, c)),
        contact_slot(c) is Some ==> parse_port_spec(
            seq!['R', 'L', 'Y', digit_char((i + 1) as nat), '_', 'c', 'o', 'n', 't', 'a', 'c', 't', '_', c],
        ) == Some(ComponentPort::RelayContact(i, c)),
        light_slot(c) is Some ==> parse_port_spec(seq!['L', 'G', 'T', digit_char((i + 1) as nat), '_', c])
            == Some(ComponentPort::BinaryLight(i, c)),
        parse_port_spec(seq!['C', 'O', 'M', digit_char((i + 1) as nat), '_', 'h', digit_char(h as nat)])
            == Some(ComponentPort::TiePoint(i, h)),
        port_name(ComponentPort::Pushbutton(i, c)) == seq!['P', 'B', digit_char((i + 1) as nat), '_', c],
        port_name(ComponentPort::SlideSwitch(i, c)) == seq!['S', 'W', digit_char((i + 1) as nat), '_', c],
        port_name(ComponentPort::RelayCoil(i, c)) == seq![
            'R', 'L', 'Y', digit_char((i + 1) as nat), '_', 'c', 'o', 'i', 'l', '_', c,
        ],
        port_name(ComponentPort::RelayContact(i, c)) == seq![
            'R', 'L', 'Y', digit_char((i + 1) as nat), '_', 'c', 'o', 'n', 't', 'a', 'c', 't', '_', c,
        ],
        port_name(ComponentPort::BinaryLight(i, c)) == seq!['L', 'G', 'T', digit_char((i + 1) as nat), '_', c],
        port_name(ComponentPort::TiePoint(i, h)) == seq![
            'C', 'O', 'M', digit_char((i + 1) as nat), '_', 'h', digit_char(h as nat),
        ],
{
    lemma_small_decimal((i + 1) as nat);
    lemma_small_decimal(h as nat);
    let d = digit_char((i + 1) as nat);
    assert(port_name(ComponentPort::Pushbutton(i, c)) =~= seq!['P', 'B', d, '_', c]);
    assert(port_name(ComponentPort::SlideSwitch(i, c)) =~= seq!['S', 'W', d, '_', c]);
    assert(port_name(ComponentPort::RelayCoil(i, c)) =~= seq!['R', 'L', 'Y', d, '_', 'c', 'o', 'i', 'l', '_', c]);
    assert(port_name(ComponentPort::RelayContact(i, c)) =~= seq![
        'R', 'L', 'Y', d, '_', 'c', 'o', 'n', 't', 'a', 'c', 't', '_', c,
    ]);
    assert(port_name(ComponentPort::BinaryLight(i, c)) =~= seq!['L', 'G', 'T', d, '_', c]);
    if button_slot(c) is Some {
        let p = ComponentPort::Pushbutton(i, c);
        law_name_reads_back(p);
        assert(port_name(p) =~= seq!['P', 'B', d, '_', c]);
    }
    if switch_slot(c) is Some {
        let p = ComponentPort::SlideSwitch(i, c);
        law_name_reads_back(p);
        assert(port_name(p) =~= seq!['S', 'W', d, '_', c]);
    }
    if coil_slot(c) is Some {
        let p = ComponentPort::RelayCoil(i, c);
        law_name_reads_back(p);
        assert(port_name(p) =~= seq!['R', 'L', 'Y', d, '_', 'c', 'o', 'i', 'l', '_', c]);
    }
    if contact_slot(c) is Some {
        let p = ComponentPort::RelayContact(i, c);
        law_name_reads_back(p);
        assert(port_name(p) =~= seq!['R', 'L', 'Y', d, '_', 'c', 'o', 'n', 't', 'a', 'c', 't', '_', c]);
    }
    if light_slot(c) is Some {
        let p = ComponentPort::BinaryLight(i, c);
        law_name_reads_back(p);
        assert(port_name(p) =~= seq!['L', 'G', 'T', d, '_', c]);
    }
    let t = ComponentPort::TiePoint(i, h);
    law_name_reads_back(t);
    assert(port_name(t) =~= seq!['C', 'O', 'M', d, '_', 'h', digit_char(h as nat)]);
}

/// The sheets' spellings of the power terminals ("+0" to "+3", "-0" to
/// "-3"), the dial contacts ("D0" to "D15"), the wiper ("D16") and the
/// motor terminals ("M17" to "M19") read back as those ports, and are
/// their printed names.
pub proof fn law_numbered_spellings_read_back(n: usize)
    ensures
        n < 4 ==> parse_port_spec(seq!['+', digit_char(n as nat)]) == Some(ComponentPort::PowerPlus(n))
            && parse_port_spec(seq!['-', digit_char(n as nat)]) == Some(ComponentPort::PowerMinus(n)),
        n < 10 ==> parse_port_spec(seq!['D', digit_char(n as nat)]) == Some(ComponentPort::DialContact(n)),
        10 <= n < 16 ==> parse_port_spec(seq!['D', '1', digit_char((n - 10) as nat)]) == Some(
            ComponentPort::DialContact(n),
        ),
        parse_port_spec(seq!['D', '1', '6']) == Some(ComponentPort::DialWiper),
        17 <= n <= 19 ==> parse_port_spec(seq!['M', '1', digit_char((n - 10) as nat)]) == Some(
            ComponentPort::DialMotor(n),
        ),        port_name(ComponentPort::DialWiper) == seq!['D', '1', '6'],
        n < 4 ==> port_name(ComponentPort::PowerPlus(n)) == seq!['+', digit_char(n as nat)]
            && port_name(ComponentPort::PowerMinus(n)) == seq!['-', digit_char(n as nat)],
        n < 10 ==> port_name(ComponentPort::DialContact(n)) == seq!['D', digit_char(n as nat)],
        10 <= n < 16 ==> port_name(ComponentPort::DialContact(n)) == seq!['D', '1', digit_char((n - 10) as nat)],
        17 <= n <= 19 ==> port_name(ComponentPort::DialMotor(n)) == seq!['M', '1', digit_char((n - 10) as nat)],
{
    law_name_reads_back(ComponentPort::DialWiper);
    assert(port_name(ComponentPort::DialWiper) =~= seq!['D', '1', '6']);
    if n < 4 {
        lemma_small_decimal(n as nat);
        law_name_reads_back(ComponentPort::PowerPlus(n));
        law_name_reads_back(ComponentPort::PowerMinus(n));
        assert(port_name(ComponentPort::PowerPlus(n)) =~= seq!['+', digit_char(n as nat)]);
        assert(port_name(ComponentPort::PowerMinus(n)) =~= seq!['-', digit_char(n as nat)]);
    }
    if n < 10 {
        lemma_small_decimal(n as nat);
        law_name_reads_back(ComponentPort::DialContact(n));
        assert(port_name(ComponentPort::DialContact(n)) =~= seq!['D', digit_char(n as nat)]);
    }
    if 10 <= n < 16 {
        lemma_teen_decimal(n as nat);
        law_name_reads_back(ComponentPort::DialContact(n));
        assert(port_name(ComponentPort::DialContact(n)) =~= seq!['D', '1', digit_char((n - 10) as nat)]);
    }
    if 17 <= n <= 19 {
        lemma_teen_decimal(n as nat);
        law_name_reads_back(ComponentPort::DialMotor(n));
        assert(port_name(ComponentPort::DialMotor(n)) =~= seq!['M', '1', digit_char((n - 10) as nat)]);
    }
}

proof fn lemma_decimal_last(n: nat)
    ensures
        decimal(n).len() >= 1,
        decimal(n).last() == digit_char(n % 10),
    decreases n,
{
    if n >= 10 {
        lemma_decimal_last(n / 10);
    }
}

/// A port's name ends in `t` or `b` exactly when the port is a matrix point.
proof fn lemma_name_last(p: ComponentPort)
    requires
        on_panel(p),
    ensures
        (port_name(p).last() == 't' || port_name(p).last() == 'b') <==> p is MatrixPoint,
{
    let s = port_name(p);
    match p {
        ComponentPort::PowerPlus(i) => {
            lemma_decimal_last(i as nat);
            assert(s.last() == decimal(i as nat).last());
        },
        ComponentPort::PowerMinus(i) => {
            lemma_decimal_last(i as nat);
            assert(s.last() == decimal(i as nat).last());
        },
        ComponentPort::Pushbutton(_, c) => {
            assert(s.last() == c);
        },
        ComponentPort::SlideSwitch(_, c) => {
            assert(s.last() == c);
        },
        ComponentPort::RelayCoil(_, c) => {
            assert(s.last() == c);
        },
        ComponentPort::RelayContact(_, c) => {
            assert(s.last() == c);
        },
        ComponentPort::BinaryLight(_, c) => {
            assert(s.last() == c);
        },
        ComponentPort::DialContact(i) => {
            lemma_decimal_last(i as nat);
            assert(s.last() == decimal(i as nat).last());
        },
        ComponentPort::DialWiper => {},
        ComponentPort::DialMotor(i) => {
            lemma_decimal_last(i as nat);
            assert(s.last() == decimal(i as nat).last());
        },
        ComponentPort::TiePoint(_, h) => {
            lemma_decimal_last(h as nat);
            assert(s.last() == decimal(h as nat).last());
        },
        ComponentPort::MatrixPoint(_, c) => {
            assert(s.last() == c);
        },
    }
}

/// No two ports of the machine share a printed name.
pub proof fn law_names_distinct(p: ComponentPort, q: ComponentPort)
    requires
        on_panel(p),
        on_panel(q),
        p != q,
    ensures
        port_name(p) != port_name(q),
{
    if port_name(p) == port_name(q) {
        lemma_name_last(p);
        lemma_name_last(q);
        if let ComponentPort::MatrixPoint(i, c) = p {
            if let ComponentPort::MatrixPoint(j, d) = q {
                let sp = port_name(p);
                let sq = port_name(q);
                assert(sp.last() == c && sq.last() == d);
                assert(sp.drop_last().skip(1) =~= decimal((i + 1) as nat));
                assert(sq.drop_last().skip(1) =~= decimal((j + 1) as nat));
                lemma_parse_decimal((i + 1) as nat);
                lemma_parse_decimal((j + 1) as nat);
                assert(i == j);
            }
        } else {
            law_name_reads_back(p);
            law_name_reads_back(q);
        }
    }
}

} // verus!
