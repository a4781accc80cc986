use minivac::ports::{catalog_index, catalog_port, ComponentPort, PORT_COUNT};
use minivac::wiring::{parse_decimal, port_from_spec, port_spec_readable, chars_of};

#[test]
fn catalog_positions() {
    assert_eq!(PORT_COUNT, 194);
    assert_eq!(catalog_index(ComponentPort::PowerPlus(0)), Some(0));
    assert_eq!(catalog_index(ComponentPort::PowerMinus(3)), Some(7));
    assert_eq!(catalog_index(ComponentPort::Pushbutton(0, 'X')), Some(8));
    assert_eq!(catalog_index(ComponentPort::RelayContact(0, 'G')), Some(65));
    assert_eq!(catalog_port(144), ComponentPort::DialWiper);
    assert_eq!(catalog_port(145), ComponentPort::DialMotor(17));
    assert_eq!(catalog_index(ComponentPort::MatrixPoint(10, 'b')), Some(193));
    assert_eq!(catalog_index(ComponentPort::PowerPlus(4)), None);
    assert_eq!(catalog_index(ComponentPort::Pushbutton(0, 'Q')), None);
    assert_eq!(catalog_index(ComponentPort::DialContact(16)), None);
    assert_eq!(catalog_index(ComponentPort::DialMotor(20)), None);
    assert_eq!(catalog_index(ComponentPort::TiePoint(5, 4)), None);
}

#[test]
fn catalog_round_trip() {
    for i in 0..PORT_COUNT {
        let p = catalog_port(i);
        assert_eq!(catalog_index(p), Some(i));
    }
}

#[test]
fn port_names() {
    assert_eq!(ComponentPort::PowerPlus(0).name(), "+0");
    assert_eq!(ComponentPort::PowerMinus(3).name(), "-3");
    assert_eq!(ComponentPort::Pushbutton(0, 'X').name(), "PB1_X");
    assert_eq!(ComponentPort::SlideSwitch(5, 'W').name(), "SW6_W");
    assert_eq!(ComponentPort::RelayCoil(1, 'C').name(), "RLY2_coil_C");
    assert_eq!(ComponentPort::RelayContact(0, 'H').name(), "RLY1_contact_H");
    assert_eq!(ComponentPort::BinaryLight(5, 'B').name(), "LGT6_B");
    assert_eq!(ComponentPort::DialContact(15).name(), "D15");
    assert_eq!(ComponentPort::DialWiper.name(), "D16");
    assert_eq!(ComponentPort::DialMotor(17).name(), "M17");
    assert_eq!(ComponentPort::TiePoint(0, 0).name(), "COM1_h0");
    assert_eq!(ComponentPort::MatrixPoint(2, 't').name(), "M3t");
    assert_eq!(ComponentPort::MatrixPoint(10, 'b').name(), "M11b");
    assert_eq!(ComponentPort::Pushbutton(123, 'Y').name(), "PB124_Y");
}

#[test]
fn names_read_back() {
    for i in 0..PORT_COUNT {
        let p = catalog_port(i);
        let name = p.name();
        assert!(port_spec_readable(&name));
        match p {
            ComponentPort::MatrixPoint(_, _) => {
                assert_eq!(port_from_spec(&name), Some(ComponentPort::DialMotor(17)));
            }
            _ => assert_eq!(port_from_spec(&name), Some(p)),
        }
    }
}

#[test]
fn sheet_names() {
    assert_eq!(port_from_spec("+0"), Some(ComponentPort::PowerPlus(0)));
    assert_eq!(port_from_spec("+"), Some(ComponentPort::PowerPlus(0)));
    assert_eq!(port_from_spec("-x"), Some(ComponentPort::PowerMinus(0)));
    assert_eq!(port_from_spec("SW1_R"), Some(ComponentPort::SlideSwitch(0, 'R')));
    assert_eq!(port_from_spec("SW1"), Some(ComponentPort::SlideSwitch(0, 'S')));
    assert_eq!(port_from_spec("PB2_Z"), Some(ComponentPort::Pushbutton(1, 'Z')));
    assert_eq!(port_from_spec("PBx"), Some(ComponentPort::Pushbutton(0, 'Y')));
    assert_eq!(port_from_spec("RLY1_coil_F"), Some(ComponentPort::RelayCoil(0, 'F')));
    assert_eq!(port_from_spec("RLY1_contact_J"), Some(ComponentPort::RelayContact(0, 'J')));
    assert_eq!(port_from_spec("LGT1_A"), Some(ComponentPort::BinaryLight(0, 'A')));
    assert_eq!(port_from_spec("D16"), Some(ComponentPort::DialWiper));
    assert_eq!(port_from_spec("D8"), Some(ComponentPort::DialContact(8)));
    assert_eq!(port_from_spec("D"), Some(ComponentPort::DialContact(0)));
    assert_eq!(port_from_spec("MX4t"), Some(ComponentPort::MatrixPoint(3, 't')));
    assert_eq!(port_from_spec("M18"), Some(ComponentPort::DialMotor(18)));
    assert_eq!(port_from_spec("Mq"), Some(ComponentPort::DialMotor(17)));
    assert_eq!(port_from_spec("COM2_h3"), Some(ComponentPort::TiePoint(1, 3)));
    assert_eq!(port_from_spec("COM2_hx"), Some(ComponentPort::TiePoint(1, 0)));
    assert_eq!(port_from_spec("XYZ"), None);
    assert_eq!(port_from_spec(""), None);
}

#[test]
fn unreadable_sheet_names() {
    assert!(!port_spec_readable("PB"));
    assert!(!port_spec_readable("PB0_X"));
    assert!(!port_spec_readable("SW\u{e9}1"));
    assert!(!port_spec_readable("RLY"));
    assert!(!port_spec_readable("COM0_h1"));
    assert!(!port_spec_readable("MX"));
    assert!(port_spec_readable("M"));
    assert!(port_spec_readable("+\u{e9}"));
    assert!(port_spec_readable("hello"));
}

#[test]
fn decimal_reading() {
    let v = chars_of("+12");
    assert_eq!(parse_decimal(&v, 0), Some(12));
    let v = chars_of("x007");
    assert_eq!(parse_decimal(&v, 1), Some(7));
    let v = chars_of("12a");
    assert_eq!(parse_decimal(&v, 0), None);
    let v = chars_of("+");
    assert_eq!(parse_decimal(&v, 0), None);
    let v = chars_of("");
    assert_eq!(parse_decimal(&v, 0), None);
    let v = chars_of("++1");
    assert_eq!(parse_decimal(&v, 0), None);
    let v = chars_of("-1");
    assert_eq!(parse_decimal(&v, 0), None);
    let v = chars_of("18446744073709551615");
    assert_eq!(parse_decimal(&v, 0), Some(usize::MAX));
    let v = chars_of("18446744073709551616");
    assert_eq!(parse_decimal(&v, 0), None);
    let v = chars_of("99999999999999999999x");
    assert_eq!(parse_decimal(&v, 0), None);
}

#[test]
fn names_are_distinct() {
    let mut names: Vec<String> = (0..PORT_COUNT).map(|i| catalog_port(i).name()).collect();
    names.sort();
    names.dedup();
    assert_eq!(names.len(), PORT_COUNT);
    assert_eq!(ComponentPort::MatrixPoint(0, 't').name(), "M1t");
    assert_eq!(ComponentPort::MatrixPoint(10, 'b').name(), "M11b");
}
