use minivac::electrical::{Circuit, NetSupply};
use minivac::ports::ComponentPort;
use minivac::simulation::{ContactPosition, MinivacSimulation};

const RED: [u8; 4] = [230, 30, 30, 255];
const RELEASED: [ContactPosition; 6] = [ContactPosition::Released; 6];

fn supply(sim: &MinivacSimulation, c: &Circuit, p: ComponentPort) -> NetSupply {
    let k = c.nets.net_of(sim.port_id(p).unwrap()).unwrap();
    c.supply[k]
}

fn relay_one(pos: ContactPosition) -> [ContactPosition; 6] {
    let mut r = RELEASED;
    r[0] = pos;
    r
}

#[test]
fn switch_and_light_sheet() {
    let mut sim = MinivacSimulation::new();
    sim.auto_wire(&[("+0", 0, "SW1_S", 0), ("SW1_R", 0, "LGT1_A", 0), ("LGT1_B", 0, "-0", 0)], RED);
    sim.power_on = true;

    // switch left: the lamp sits across the supply
    let c = sim.solve_electrical(&RELEASED, None).unwrap();
    assert_eq!(supply(&sim, &c, ComponentPort::BinaryLight(0, 'A')), NetSupply::Positive);
    assert_eq!(supply(&sim, &c, ComponentPort::BinaryLight(0, 'B')), NetSupply::Negative);
    assert!(!sim.breaker_tripped);

    // switch right: terminal A floats
    sim.switches_right[0] = true;
    let c = sim.solve_electrical(&RELEASED, None).unwrap();
    assert_eq!(supply(&sim, &c, ComponentPort::BinaryLight(0, 'A')), NetSupply::Floating);
    assert_eq!(supply(&sim, &c, ComponentPort::SlideSwitch(0, 'T')), NetSupply::Positive);
}

#[test]
fn self_latching_relay_sheet() {
    let mut sim = MinivacSimulation::new();
    sim.auto_wire(
        &[
            ("+0", 0, "PB2_Y", 0),
            ("PB2_Z", 0, "PB1_Y", 0),
            ("PB2_Z", 1, "RLY1_contact_H", 0),
            ("PB1_X", 0, "RLY1_coil_C", 0),
            ("RLY1_contact_G", 0, "RLY1_coil_C", 1),
            ("RLY1_coil_F", 0, "-0", 0),
        ],
        RED,
    );
    sim.power_on = true;
    let coil_c = ComponentPort::RelayCoil(0, 'C');

    // at rest the coil gets nothing
    let c = sim.solve_electrical(&RELEASED, None).unwrap();
    assert_eq!(supply(&sim, &c, coil_c), NetSupply::Floating);
    assert_eq!(supply(&sim, &c, ComponentPort::RelayCoil(0, 'F')), NetSupply::Negative);

    // button 1 feeds the coil
    sim.buttons_pressed[0] = true;
    let c = sim.solve_electrical(&RELEASED, None).unwrap();
    assert_eq!(supply(&sim, &c, coil_c), NetSupply::Positive);

    // once pulled in, the relay holds itself after button 1 is let go
    sim.update_relay_states(&relay_one(ContactPosition::Energized));
    assert!(sim.relay_state[0]);
    sim.buttons_pressed[0] = false;
    let c = sim.solve_electrical(&relay_one(ContactPosition::Energized), None).unwrap();
    assert_eq!(supply(&sim, &c, coil_c), NetSupply::Positive);

    // button 2 breaks the hold
    sim.buttons_pressed[1] = true;
    let c = sim.solve_electrical(&relay_one(ContactPosition::Energized), None).unwrap();
    assert_eq!(supply(&sim, &c, coil_c), NetSupply::Floating);
    assert!(!sim.breaker_tripped);
}

#[test]
fn relay_buzzer_sheet() {
    let mut sim = MinivacSimulation::new();
    sim.auto_wire(
        &[("+0", 0, "RLY1_contact_H", 0), ("RLY1_contact_J", 0, "RLY1_coil_C", 0), ("RLY1_coil_F", 0, "-0", 0)],
        RED,
    );
    sim.power_on = true;
    let coil_c = ComponentPort::RelayCoil(0, 'C');

    // released: fed through its own closed contact
    let c = sim.solve_electrical(&RELEASED, None).unwrap();
    assert_eq!(supply(&sim, &c, coil_c), NetSupply::Positive);
    // travelling or pulled in: the feed is broken, so it falls back
    let c = sim.solve_electrical(&relay_one(ContactPosition::Moving), None).unwrap();
    assert_eq!(supply(&sim, &c, coil_c), NetSupply::Floating);
    let c = sim.solve_electrical(&relay_one(ContactPosition::Energized), None).unwrap();
    assert_eq!(supply(&sim, &c, coil_c), NetSupply::Floating);
}

#[test]
fn dial_clock_sheet() {
    let mut sim = MinivacSimulation::new();
    sim.auto_wire(
        &[
            ("+0", 0, "M17", 0),
            ("M18", 0, "-0", 0),
            ("+0", 1, "D16", 0),
            ("D0", 0, "LGT1_A", 0),
            ("D8", 0, "LGT1_A", 1),
            ("LGT1_B", 0, "-0", 1),
        ],
        RED,
    );
    sim.power_on = true;
    let lamp = ComponentPort::BinaryLight(0, 'A');
    for contact in 0..16usize {
        let c = sim.solve_electrical(&RELEASED, Some(contact)).unwrap();
        let expected = if contact == 0 || contact == 8 { NetSupply::Positive } else { NetSupply::Floating };
        assert_eq!(supply(&sim, &c, lamp), expected);
        assert_eq!(supply(&sim, &c, ComponentPort::DialMotor(17)), NetSupply::Positive);
        assert_eq!(supply(&sim, &c, ComponentPort::DialMotor(18)), NetSupply::Negative);
        assert!(!c.stop_shorted);
    }
    let c = sim.solve_electrical(&RELEASED, None).unwrap();
    assert_eq!(supply(&sim, &c, lamp), NetSupply::Floating);
}
