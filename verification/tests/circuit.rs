use minivac::electrical::{LoadType, NetSupply};
use minivac::ports::{ComponentPort, PORT_COUNT};
use minivac::simulation::{wiper_contact, ContactPosition, DialAlignment, MinivacSimulation};

const RED: [u8; 4] = [255, 0, 0, 255];
const RELEASED: [ContactPosition; 6] = [ContactPosition::Released; 6];

fn id(sim: &MinivacSimulation, p: ComponentPort) -> u128 {
    sim.port_id(p).unwrap()
}

fn net(sim: &MinivacSimulation, c: &minivac::electrical::Circuit, p: ComponentPort) -> usize {
    c.nets.net_of(id(sim, p)).unwrap()
}

#[test]
fn fresh_machine() {
    let sim = MinivacSimulation::new();
    assert_eq!(sim.port_ids.len(), PORT_COUNT);
    assert!(sim.connections.is_empty());
    assert!(!sim.power_on && !sim.breaker_tripped && !sim.motor_running);
    assert_eq!(sim.buttons_pressed, [false; 6]);
    assert_eq!(sim.switches_right, [false; 6]);
    assert_eq!(sim.relay_state, [false; 6]);
    for i in 0..PORT_COUNT {
        // version 4, RFC 4122 variant
        assert_eq!((sim.port_ids[i] >> 76) & 0xf, 4);
        assert_eq!((sim.port_ids[i] >> 62) & 0x3, 2);
        for j in 0..i {
            assert_ne!(sim.port_ids[i], sim.port_ids[j]);
        }
    }
    assert_eq!(sim.port_id(ComponentPort::PowerPlus(9)), None);
    let d = MinivacSimulation::default();
    assert_eq!(d.port_ids.len(), PORT_COUNT);
}

#[test]
fn rebuilt_mappings_keep_the_state() {
    let mut sim = MinivacSimulation::new();
    sim.power_on = true;
    sim.buttons_pressed[2] = true;
    sim.add_connection(1, 0, 2, 1, RED);
    let before = sim.port_ids.clone();
    sim.rebuild_mappings();
    assert_eq!(sim.port_ids.len(), PORT_COUNT);
    assert_ne!(sim.port_ids, before);
    assert!(sim.power_on && sim.buttons_pressed[2]);
    assert_eq!(sim.connections.len(), 1);
}

#[test]
fn cords_never_loop() {
    let mut sim = MinivacSimulation::new();
    let a = id(&sim, ComponentPort::PowerPlus(0));
    let b = id(&sim, ComponentPort::PowerMinus(0));
    sim.add_connection(a, 0, a, 1, RED);
    assert!(sim.connections.is_empty());
    sim.add_connection(a, 0, b, 1, RED);
    assert_eq!(sim.connections.len(), 1);
    assert_eq!(sim.connections[0].from, a);
    assert_eq!(sim.connections[0].from_hole, 0);
    assert_eq!(sim.connections[0].to, b);
    assert_eq!(sim.connections[0].to_hole, 1);
    assert_eq!(sim.connections[0].color, RED);
}

#[test]
fn power_off_gives_no_circuit() {
    let mut sim = MinivacSimulation::new();
    sim.motor_running = true;
    assert!(sim.solve_electrical(&RELEASED, None).is_none());
    assert!(!sim.motor_running);
    assert!(!sim.breaker_tripped);
    // with the power off the dial is not read at all
    assert!(sim.solve_electrical(&RELEASED, Some(16)).is_none());
}

#[test]
fn short_circuit_trips_the_breaker() {
    let mut sim = MinivacSimulation::new();
    sim.power_on = true;
    let plus_0 = id(&sim, ComponentPort::PowerPlus(0));
    let minus_0 = id(&sim, ComponentPort::PowerMinus(0));
    sim.add_connection(plus_0, 0, minus_0, 0, RED);
    assert!(sim.solve_electrical(&RELEASED, None).is_none());
    assert!(sim.breaker_tripped);
    // the breaker stays tripped, even with the cord gone
    sim.connections.clear();
    assert!(sim.solve_electrical(&RELEASED, None).is_none());
    assert!(sim.breaker_tripped);
    sim.breaker_tripped = false;
    assert!(sim.solve_electrical(&RELEASED, None).is_some());
}

/// The short-circuit scenario of the machine's own checks, driven through
/// the discrete step that a tick of a fresh machine takes: every relay
/// released, the dial at rest on contact 0.
#[test]
fn test_short_circuit() {
    let mut sim = MinivacSimulation::new();
    sim.power_on = true;

    let plus_0 = id(&sim, ComponentPort::PowerPlus(0));
    let minus_0 = id(&sim, ComponentPort::PowerMinus(0));

    // Wire +0 -> -0 directly
    sim.add_connection(plus_0, 0, minus_0, 0, [255, 0, 0, 255]);

    let wiper = wiper_contact(0, DialAlignment::NearLower);
    sim.solve_electrical(&RELEASED, wiper);

    assert!(sim.breaker_tripped);
}

#[test]
fn short_through_a_tie_point() {
    let mut sim = MinivacSimulation::new();
    sim.power_on = true;
    let plus_2 = id(&sim, ComponentPort::PowerPlus(2));
    let minus_1 = id(&sim, ComponentPort::PowerMinus(1));
    let t0 = id(&sim, ComponentPort::TiePoint(3, 0));
    let t3 = id(&sim, ComponentPort::TiePoint(3, 3));
    sim.add_connection(plus_2, 0, t0, 0, RED);
    sim.add_connection(t3, 0, minus_1, 0, RED);
    assert!(sim.solve_electrical(&RELEASED, None).is_none());
    assert!(sim.breaker_tripped);
}

#[test]
fn light_between_supply_terminals() {
    let mut sim = MinivacSimulation::new();
    sim.power_on = true;
    let plus_0 = id(&sim, ComponentPort::PowerPlus(0));
    let minus_0 = id(&sim, ComponentPort::PowerMinus(0));
    let light_a = id(&sim, ComponentPort::BinaryLight(0, 'A'));
    let light_b = id(&sim, ComponentPort::BinaryLight(0, 'B'));
    sim.add_connection(plus_0, 0, light_a, 0, RED);
    sim.add_connection(light_b, 0, minus_0, 0, RED);
    let c = sim.solve_electrical(&RELEASED, None).unwrap();
    assert!(!sim.breaker_tripped);
    let na = net(&sim, &c, ComponentPort::BinaryLight(0, 'A'));
    let nb = net(&sim, &c, ComponentPort::BinaryLight(0, 'B'));
    assert_eq!(na, net(&sim, &c, ComponentPort::PowerPlus(0)));
    assert_eq!(nb, net(&sim, &c, ComponentPort::PowerMinus(0)));
    assert_ne!(na, nb);
    assert_eq!(c.supply[na], NetSupply::Positive);
    assert_eq!(c.supply[nb], NetSupply::Negative);
    assert_eq!(c.supply[net(&sim, &c, ComponentPort::BinaryLight(1, 'A'))], NetSupply::Floating);
    assert_eq!(c.loads.len(), 19);
    assert_eq!(c.loads[0].load_type, LoadType::Light(0));
    assert_eq!(c.loads[0].resistance, 100);
    assert_eq!(c.loads[0].node_a, light_a);
    assert_eq!(c.loads[7].load_type, LoadType::RelayCoil(0));
    assert_eq!(c.loads[7].resistance, 200);
    assert_eq!(c.loads[18].load_type, LoadType::Motor);
    assert_eq!(c.loads[18].resistance, 150);
    assert_eq!(c.load_nets[0], (na, nb));
    // the light joins the two supply nets, once from each side
    assert_eq!(c.net_loads[na].len(), 1);
    assert_eq!(c.net_loads[na][0].target_net, nb);
    assert_eq!(c.net_loads[na][0].resistance, 100);
    assert_eq!(c.net_loads[nb][0].target_net, na);
    assert!(!c.stop_shorted);
    // every port lies in exactly one net, and the nets list each port once
    let mut seen = 0;
    for k in 0..c.nets.members.len() {
        seen += c.nets.members[k].len();
        for &x in &c.nets.members[k] {
            assert_eq!(c.nets.net_of(x), Some(k));
        }
    }
    assert_eq!(seen, PORT_COUNT);
}

#[test]
fn pushbutton_switches_its_common_terminal() {
    let mut sim = MinivacSimulation::new();
    sim.power_on = true;
    let plus_0 = id(&sim, ComponentPort::PowerPlus(0));
    let minus_0 = id(&sim, ComponentPort::PowerMinus(0));
    let pb_y = id(&sim, ComponentPort::Pushbutton(0, 'Y'));
    let pb_x = id(&sim, ComponentPort::Pushbutton(0, 'X'));
    let light_a = id(&sim, ComponentPort::BinaryLight(0, 'A'));
    let light_b = id(&sim, ComponentPort::BinaryLight(0, 'B'));
    sim.add_connection(plus_0, 0, pb_y, 0, RED);
    sim.add_connection(pb_x, 0, light_a, 0, RED);
    sim.add_connection(light_b, 0, minus_0, 0, RED);
    let c = sim.solve_electrical(&RELEASED, None).unwrap();
    let na = net(&sim, &c, ComponentPort::BinaryLight(0, 'A'));
    assert_eq!(c.supply[na], NetSupply::Floating);
    assert_eq!(na, net(&sim, &c, ComponentPort::Pushbutton(0, 'X')));
    assert_eq!(
        net(&sim, &c, ComponentPort::Pushbutton(0, 'Y')),
        net(&sim, &c, ComponentPort::Pushbutton(0, 'Z'))
    );
    sim.buttons_pressed[0] = true;
    let c = sim.solve_electrical(&RELEASED, None).unwrap();
    let na = net(&sim, &c, ComponentPort::BinaryLight(0, 'A'));
    assert_eq!(c.supply[na], NetSupply::Positive);
    assert_ne!(
        net(&sim, &c, ComponentPort::Pushbutton(0, 'Y')),
        net(&sim, &c, ComponentPort::Pushbutton(0, 'Z'))
    );
}

#[test]
fn slide_switch_positions() {
    let mut sim = MinivacSimulation::new();
    sim.power_on = true;
    let c = sim.solve_electrical(&RELEASED, None).unwrap();
    let s = net(&sim, &c, ComponentPort::SlideSwitch(2, 'S'));
    assert_eq!(s, net(&sim, &c, ComponentPort::SlideSwitch(2, 'R')));
    assert_eq!(net(&sim, &c, ComponentPort::SlideSwitch(2, 'V')), net(&sim, &c, ComponentPort::SlideSwitch(2, 'U')));
    assert_ne!(s, net(&sim, &c, ComponentPort::SlideSwitch(2, 'T')));
    sim.switches_right[2] = true;
    let c = sim.solve_electrical(&RELEASED, None).unwrap();
    let s = net(&sim, &c, ComponentPort::SlideSwitch(2, 'S'));
    assert_eq!(s, net(&sim, &c, ComponentPort::SlideSwitch(2, 'T')));
    assert_eq!(net(&sim, &c, ComponentPort::SlideSwitch(2, 'V')), net(&sim, &c, ComponentPort::SlideSwitch(2, 'W')));
    assert_ne!(s, net(&sim, &c, ComponentPort::SlideSwitch(2, 'R')));
}

#[test]
fn relay_contacts_break_before_make() {
    let mut sim = MinivacSimulation::new();
    sim.power_on = true;
    let h = ComponentPort::RelayContact(4, 'H');
    let g = ComponentPort::RelayContact(4, 'G');
    let j = ComponentPort::RelayContact(4, 'J');
    let mut relays = RELEASED;
    let c = sim.solve_electrical(&relays, None).unwrap();
    assert_eq!(net(&sim, &c, h), net(&sim, &c, j));
    assert_ne!(net(&sim, &c, h), net(&sim, &c, g));
    relays[4] = ContactPosition::Moving;
    let c = sim.solve_electrical(&relays, None).unwrap();
    assert_ne!(net(&sim, &c, h), net(&sim, &c, j));
    assert_ne!(net(&sim, &c, h), net(&sim, &c, g));
    relays[4] = ContactPosition::Energized;
    let c = sim.solve_electrical(&relays, None).unwrap();
    assert_eq!(net(&sim, &c, h), net(&sim, &c, g));
    assert_eq!(net(&sim, &c, ComponentPort::RelayContact(4, 'L')), net(&sim, &c, ComponentPort::RelayContact(4, 'K')));
    assert_ne!(net(&sim, &c, h), net(&sim, &c, j));
}

#[test]
fn matrix_and_wiper() {
    let mut sim = MinivacSimulation::new();
    sim.power_on = true;
    let c = sim.solve_electrical(&RELEASED, Some(8)).unwrap();
    assert_eq!(net(&sim, &c, ComponentPort::MatrixPoint(7, 't')), net(&sim, &c, ComponentPort::MatrixPoint(7, 'b')));
    assert_eq!(net(&sim, &c, ComponentPort::DialWiper), net(&sim, &c, ComponentPort::DialContact(8)));
    let c = sim.solve_electrical(&RELEASED, None).unwrap();
    assert_ne!(net(&sim, &c, ComponentPort::DialWiper), net(&sim, &c, ComponentPort::DialContact(8)));
}

#[test]
fn wiper_contacts() {
    assert_eq!(wiper_contact(3, DialAlignment::NearLower), Some(3));
    assert_eq!(wiper_contact(3, DialAlignment::NearUpper), Some(4));
    assert_eq!(wiper_contact(15, DialAlignment::NearUpper), Some(0));
    assert_eq!(wiper_contact(7, DialAlignment::Between), None);
}

#[test]
fn motor_brake() {
    let mut sim = MinivacSimulation::new();
    sim.power_on = true;
    let plus_0 = id(&sim, ComponentPort::PowerPlus(0));
    let minus_0 = id(&sim, ComponentPort::PowerMinus(0));
    let m17 = id(&sim, ComponentPort::DialMotor(17));
    let m18 = id(&sim, ComponentPort::DialMotor(18));
    let m19 = id(&sim, ComponentPort::DialMotor(19));
    sim.add_connection(plus_0, 0, m17, 0, RED);
    sim.add_connection(m18, 0, minus_0, 0, RED);
    let c = sim.solve_electrical(&RELEASED, None).unwrap();
    assert!(!c.stop_shorted);
    assert_eq!(c.supply[c.load_nets[18].0], NetSupply::Positive);
    assert_eq!(c.supply[c.load_nets[18].1], NetSupply::Negative);
    sim.add_connection(m18, 1, m19, 0, RED);
    let c = sim.solve_electrical(&RELEASED, None).unwrap();
    assert!(c.stop_shorted);
}

#[test]
fn foreign_cord_ends_join_nets() {
    let mut sim = MinivacSimulation::new();
    sim.power_on = true;
    let a = id(&sim, ComponentPort::BinaryLight(2, 'A'));
    let b = id(&sim, ComponentPort::BinaryLight(3, 'B'));
    sim.add_connection(a, 0, 7, 0, RED);
    sim.add_connection(7, 1, b, 0, RED);
    sim.add_connection(11, 0, 12, 0, RED);
    let c = sim.solve_electrical(&RELEASED, None).unwrap();
    assert_eq!(c.nets.net_of(a), c.nets.net_of(b));
    assert_eq!(c.nets.net_of(7), c.nets.net_of(a));
    assert_eq!(c.nets.net_of(11), None);
    assert_eq!(c.nets.net_of(12), None);
}

#[test]
fn relay_latches() {
    let mut sim = MinivacSimulation::new();
    sim.relay_state = [false, true, false, true, false, true];
    let positions = [
        ContactPosition::Energized,
        ContactPosition::Energized,
        ContactPosition::Released,
        ContactPosition::Released,
        ContactPosition::Moving,
        ContactPosition::Moving,
    ];
    sim.update_relay_states(&positions);
    assert_eq!(sim.relay_state, [true, true, false, false, false, true]);
}
