use minivac::graph::compute_nets;
use minivac::patching::DragState;
use minivac::ports::ComponentPort;
use minivac::simulation::{Connection, MinivacSimulation};

const RED: [u8; 4] = [230, 30, 30, 255];
const BLUE: [u8; 4] = [30, 80, 230, 255];

fn id(sim: &MinivacSimulation, p: ComponentPort) -> u128 {
    sim.port_id(p).unwrap()
}

fn ends(c: &Connection) -> (u128, usize, u128, usize) {
    (c.from, c.from_hole, c.to, c.to_hole)
}

#[test]
fn drag_from_an_empty_hole_starts_a_new_cord() {
    let mut sim = MinivacSimulation::new();
    let a = id(&sim, ComponentPort::PowerPlus(0));
    let d = sim.pick_up_cord(a, 1, RED);
    assert_eq!(d, DragState::Dragging { from_port: a, from_hole: 1, color: RED });
    assert!(sim.connections.is_empty());
}

#[test]
fn drag_from_a_plugged_hole_unplugs_that_end() {
    let mut sim = MinivacSimulation::new();
    let a = id(&sim, ComponentPort::PowerPlus(0));
    let b = id(&sim, ComponentPort::BinaryLight(0, 'A'));
    sim.add_connection(a, 0, b, 1, BLUE);

    // pulling the `to` end keeps the `from` end
    let d = sim.pick_up_cord(b, 1, RED);
    assert_eq!(d, DragState::Dragging { from_port: a, from_hole: 0, color: BLUE });
    assert!(sim.connections.is_empty());

    // pulling the `from` end keeps the `to` end
    sim.add_connection(a, 0, b, 1, BLUE);
    let d = sim.pick_up_cord(a, 0, RED);
    assert_eq!(d, DragState::Dragging { from_port: b, from_hole: 1, color: BLUE });
    assert!(sim.connections.is_empty());

    // the other hole of the same port holds no cord
    sim.add_connection(a, 0, b, 1, BLUE);
    let d = sim.pick_up_cord(a, 1, RED);
    assert_eq!(d, DragState::Dragging { from_port: a, from_hole: 1, color: RED });
    assert_eq!(sim.connections.len(), 1);
}

#[test]
fn the_first_cord_in_a_hole_is_the_one_picked_up() {
    let mut sim = MinivacSimulation::new();
    let a = id(&sim, ComponentPort::TiePoint(0, 0));
    let b = id(&sim, ComponentPort::TiePoint(1, 0));
    let c = id(&sim, ComponentPort::TiePoint(2, 0));
    let x = id(&sim, ComponentPort::DialWiper);
    sim.add_connection(b, 0, c, 0, RED);
    sim.add_connection(a, 0, x, 0, RED);
    sim.add_connection(x, 0, b, 1, BLUE);
    assert_eq!(sim.occupied_index(x, 0), Some(1));
    assert_eq!(sim.occupied_index(x, 1), None);
    let d = sim.pick_up_cord(x, 0, BLUE);
    assert_eq!(d, DragState::Dragging { from_port: a, from_hole: 0, color: RED });
    assert_eq!(sim.connections.len(), 2);
    assert_eq!(ends(&sim.connections[0]), (b, 0, c, 0));
    assert_eq!(ends(&sim.connections[1]), (x, 0, b, 1));
}

#[test]
fn dropping_plugs_into_a_free_hole_of_another_port() {
    let mut sim = MinivacSimulation::new();
    let a = id(&sim, ComponentPort::PowerPlus(0));
    let b = id(&sim, ComponentPort::SlideSwitch(0, 'S'));
    let drag = sim.pick_up_cord(a, 0, RED);
    let d = sim.drop_cord(drag, Some((b, 1)));
    assert_eq!(d, DragState::Idle);
    assert_eq!(sim.connections.len(), 1);
    assert_eq!(ends(&sim.connections[0]), (a, 0, b, 1));
    assert_eq!(sim.connections[0].color, RED);
}

#[test]
fn dropping_is_refused_on_the_same_port_an_occupied_hole_or_nowhere() {
    let mut sim = MinivacSimulation::new();
    let a = id(&sim, ComponentPort::PowerPlus(0));
    let b = id(&sim, ComponentPort::PowerMinus(0));
    let c = id(&sim, ComponentPort::DialMotor(18));
    sim.add_connection(b, 0, c, 0, BLUE);

    let drag = DragState::Dragging { from_port: a, from_hole: 0, color: RED };
    assert_eq!(sim.drop_cord(drag, Some((a, 1))), DragState::Idle);
    assert_eq!(sim.connections.len(), 1);
    assert_eq!(sim.drop_cord(drag, Some((c, 0))), DragState::Idle);
    assert_eq!(sim.connections.len(), 1);
    assert_eq!(sim.drop_cord(drag, None), DragState::Idle);
    assert_eq!(sim.connections.len(), 1);
    assert_eq!(sim.drop_cord(DragState::Idle, Some((b, 1))), DragState::Idle);
    assert_eq!(sim.connections.len(), 1);

    // the free hole of the occupied port is fine
    sim.drop_cord(drag, Some((c, 1)));
    assert_eq!(sim.connections.len(), 2);
    assert_eq!(ends(&sim.connections[1]), (a, 0, c, 1));
}

#[test]
fn replugging_a_cord_restores_the_patch() {
    let mut sim = MinivacSimulation::new();
    let a = id(&sim, ComponentPort::RelayCoil(2, 'F'));
    let b = id(&sim, ComponentPort::PowerMinus(1));
    let c = id(&sim, ComponentPort::Pushbutton(4, 'Z'));
    sim.add_connection(a, 0, b, 1, BLUE);
    sim.add_connection(c, 1, a, 1, RED);
    let drag = sim.pick_up_cord(a, 0, RED);
    sim.drop_cord(drag, Some((a, 0)));
    assert_eq!(sim.connections.len(), 2);
    assert_eq!(ends(&sim.connections[0]), (c, 1, a, 1));
    assert_eq!(ends(&sim.connections[1]), (b, 1, a, 0));
    assert_eq!(sim.connections[1].color, BLUE);
}

#[test]
fn auto_wire_switch_and_light() {
    let mut sim = MinivacSimulation::new();
    sim.add_connection(1, 0, 2, 0, BLUE);
    let sheet: [(&str, usize, &str, usize); 3] =
        [("+0", 0, "SW1_S", 0), ("SW1_R", 0, "LGT1_A", 0), ("LGT1_B", 0, "-0", 0)];
    sim.auto_wire(&sheet, RED);
    assert_eq!(sim.connections.len(), 3);
    let plus = id(&sim, ComponentPort::PowerPlus(0));
    let minus = id(&sim, ComponentPort::PowerMinus(0));
    let s = id(&sim, ComponentPort::SlideSwitch(0, 'S'));
    let r = id(&sim, ComponentPort::SlideSwitch(0, 'R'));
    let la = id(&sim, ComponentPort::BinaryLight(0, 'A'));
    let lb = id(&sim, ComponentPort::BinaryLight(0, 'B'));
    assert_eq!(ends(&sim.connections[0]), (plus, 0, s, 0));
    assert_eq!(ends(&sim.connections[1]), (r, 0, la, 0));
    assert_eq!(ends(&sim.connections[2]), (lb, 0, minus, 0));
    assert!(sim.connections.iter().all(|c| c.color == RED));
}

#[test]
fn auto_wire_self_latching_relay() {
    let mut sim = MinivacSimulation::new();
    let sheet: [(&str, usize, &str, usize); 6] = [
        ("+0", 0, "PB2_Y", 0),
        ("PB2_Z", 0, "PB1_Y", 0),
        ("PB2_Z", 1, "RLY1_contact_H", 0),
        ("PB1_X", 0, "RLY1_coil_C", 0),
        ("RLY1_contact_G", 0, "RLY1_coil_C", 1),
        ("RLY1_coil_F", 0, "-0", 0),
    ];
    sim.auto_wire(&sheet, BLUE);
    assert_eq!(sim.connections.len(), 6);
    let pb2z = id(&sim, ComponentPort::Pushbutton(1, 'Z'));
    let h = id(&sim, ComponentPort::RelayContact(0, 'H'));
    let g = id(&sim, ComponentPort::RelayContact(0, 'G'));
    let coil_c = id(&sim, ComponentPort::RelayCoil(0, 'C'));
    assert_eq!(ends(&sim.connections[2]), (pb2z, 1, h, 0));
    assert_eq!(ends(&sim.connections[4]), (g, 0, coil_c, 1));
}

#[test]
fn auto_wire_motor_and_dial() {
    let mut sim = MinivacSimulation::new();
    let sheet: [(&str, usize, &str, usize); 6] = [
        ("+0", 0, "M17", 0),
        ("M18", 0, "-0", 0),
        ("+0", 1, "D16", 0),
        ("D0", 0, "LGT1_A", 0),
        ("D8", 0, "LGT1_A", 1),
        ("LGT1_B", 0, "-0", 1),
    ];
    sim.auto_wire(&sheet, RED);
    assert_eq!(sim.connections.len(), 6);
    assert_eq!(sim.connections[0].to, id(&sim, ComponentPort::DialMotor(17)));
    assert_eq!(sim.connections[1].from, id(&sim, ComponentPort::DialMotor(18)));
    assert_eq!(sim.connections[2].to, id(&sim, ComponentPort::DialWiper));
    assert_eq!(sim.connections[3].from, id(&sim, ComponentPort::DialContact(0)));
    assert_eq!(sim.connections[4].from, id(&sim, ComponentPort::DialContact(8)));
}

#[test]
fn auto_wire_skips_unknown_names_and_loops() {
    let mut sim = MinivacSimulation::new();
    sim.add_connection(1, 0, 2, 0, BLUE);
    let sheet: [(&str, usize, &str, usize); 5] = [
        ("+0", 0, "XYZ", 0),
        ("+7", 0, "-0", 0),
        ("PB1_X", 0, "PB1_X", 1),
        ("MX3t", 0, "COM2_h3", 1),
        ("", 0, "-0", 0),
    ];
    sim.auto_wire(&sheet, RED);
    assert_eq!(sim.connections.len(), 1);
    let m = id(&sim, ComponentPort::MatrixPoint(2, 't'));
    let t = id(&sim, ComponentPort::TiePoint(1, 3));
    assert_eq!(ends(&sim.connections[0]), (m, 0, t, 1));

    let empty: [(&str, usize, &str, usize); 0] = [];
    sim.auto_wire(&empty, RED);
    assert!(sim.connections.is_empty());
}

#[test]
fn nets_of_a_small_graph() {
    let links = vec![(1u128, 2u128), (3, 2), (5, 6), (8, 8)];
    let roots = vec![1u128, 4, 5, 1];
    let nets = compute_nets(&links, &roots);
    let n1 = nets.net_of(1).unwrap();
    assert_eq!(nets.net_of(2), Some(n1));
    assert_eq!(nets.net_of(3), Some(n1));
    let n4 = nets.net_of(4).unwrap();
    let n5 = nets.net_of(5).unwrap();
    assert_eq!(nets.net_of(6), Some(n5));
    assert!(n1 != n4 && n1 != n5 && n4 != n5);
    assert_eq!(nets.net_of(7), None);
    assert_eq!(nets.net_of(8), None);
    assert_eq!(nets.members.len(), 3);
    let mut sizes: Vec<usize> = nets.members.iter().map(|m| m.len()).collect();
    sizes.sort();
    assert_eq!(sizes, vec![1, 2, 3]);
}

fn holes_unique(sim: &MinivacSimulation) -> bool {
    let mut ends: Vec<(u128, usize)> = Vec::new();
    for c in &sim.connections {
        ends.push((c.from, c.from_hole));
        ends.push((c.to, c.to_hole));
    }
    let n = ends.len();
    ends.sort();
    ends.dedup();
    ends.len() == n
}

#[test]
fn a_hole_never_holds_two_cords() {
    let mut sim = MinivacSimulation::new();
    let a = id(&sim, ComponentPort::PowerPlus(0));
    let b = id(&sim, ComponentPort::SlideSwitch(0, 'S'));
    let c = id(&sim, ComponentPort::BinaryLight(0, 'A'));
    let drag = sim.pick_up_cord(a, 0, RED);
    sim.drop_cord(drag, Some((b, 0)));
    // a second cord from the other hole of `a`, dropped on the taken hole of `b`
    let drag = sim.pick_up_cord(a, 1, BLUE);
    sim.drop_cord(drag, Some((b, 0)));
    assert_eq!(sim.connections.len(), 1);
    // and onto a free hole instead
    let drag = sim.pick_up_cord(a, 1, BLUE);
    sim.drop_cord(drag, Some((c, 1)));
    assert_eq!(sim.connections.len(), 2);
    assert!(holes_unique(&sim));
    // moving the end in `b` over to the taken hole of `c` is refused; the cord is gone
    let drag = sim.pick_up_cord(b, 0, RED);
    assert_eq!(drag, DragState::Dragging { from_port: a, from_hole: 0, color: RED });
    sim.drop_cord(drag, Some((c, 1)));
    assert_eq!(sim.connections.len(), 1);
    assert!(holes_unique(&sim));
}

#[test]
fn sheets_that_name_each_hole_once_keep_one_cord_per_hole() {
    let sheets: [&[(&str, usize, &str, usize)]; 3] = [
        &[("+0", 0, "SW1_S", 0), ("SW1_R", 0, "LGT1_A", 0), ("LGT1_B", 0, "-0", 0)],
        &[
            ("+0", 0, "PB2_Y", 0),
            ("PB2_Z", 0, "PB1_Y", 0),
            ("PB2_Z", 1, "RLY1_contact_H", 0),
            ("PB1_X", 0, "RLY1_coil_C", 0),
            ("RLY1_contact_G", 0, "RLY1_coil_C", 1),
            ("RLY1_coil_F", 0, "-0", 0),
        ],
        &[
            ("+0", 0, "M17", 0),
            ("M18", 0, "-0", 0),
            ("+0", 1, "D16", 0),
            ("D0", 0, "LGT1_A", 0),
            ("D8", 0, "LGT1_A", 1),
            ("LGT1_B", 0, "-0", 1),
        ],
    ];
    for sheet in sheets {
        let mut sim = MinivacSimulation::new();
        sim.auto_wire(sheet, RED);
        assert_eq!(sim.connections.len(), sheet.len());
        assert!(holes_unique(&sim));
    }

    // a sheet naming a hole twice plugs two cords into it
    let mut sim = MinivacSimulation::new();
    sim.auto_wire(&[("+0", 0, "SW1_S", 0), ("+0", 0, "SW2_S", 0)], RED);
    assert_eq!(sim.connections.len(), 2);
    assert!(!holes_unique(&sim));
}
