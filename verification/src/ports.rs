//! The ports of the machine: every hole that a patch cord can be plugged
//! into, their fixed catalogue order, and their printed names.
use vstd::prelude::*;
use crate::outside::push_char;

verus! {

/// One terminal on the faceplate.
#[derive(Clone, Copy, Debug, PartialEq, Eq, Hash, Structural)]
pub enum ComponentPort {
    /// Positive power terminal, index 0..3.
    PowerPlus(usize),
    /// Negative power terminal, index 0..3.
    PowerMinus(usize),
    /// Pushbutton 0..5, terminal 'X', 'Y' or 'Z'.
    Pushbutton(usize, char),
    /// Slide switch 0..5, terminal 'R', 'S', 'T', 'U', 'V' or 'W'.
    SlideSwitch(usize, char),
    /// Relay 0..5, coil terminal 'C', 'E' or 'F'.
    RelayCoil(usize, char),
    /// Relay 0..5, contact terminal 'G', 'H', 'J', 'K', 'L' or 'N'.
    RelayContact(usize, char),
    /// Output light 0..5, terminal 'A' or 'B'.
    BinaryLight(usize, char),
    /// Dial contact D0..D15.
    DialContact(usize),
    /// Dial wiper D16.
    DialWiper,
    /// Motor terminal 17, 18 or 19.
    DialMotor(usize),
    /// Tie-point block 0..5, hole 0..3.
    TiePoint(usize, usize),
    /// Matrix point 0..10, hole 't' or 'b'.
    MatrixPoint(usize, char),
}

/// Number of ports on the faceplate.
pub const PORT_COUNT: usize = 194;

// Terminal letters, by their position within a component.
pub open spec fn button_letter(k: int) -> char {
    if k == 0 { 'X' } else if k == 1 { 'Y' } else { 'Z' }
}

pub open spec fn switch_letter(k: int) -> char {
    if k == 0 { 'R' } else if k == 1 { 'S' } else if k == 2 { 'T' } else if k == 3 { 'U' } else if k
        == 4 { 'V' } else { 'W' }
}

pub open spec fn coil_letter(k: int) -> char {
    if k == 0 { 'C' } else if k == 1 { 'E' } else { 'F' }
}

pub open spec fn contact_letter(k: int) -> char {
    if k == 0 { 'G' } else if k == 1 { 'H' } else if k == 2 { 'J' } else if k == 3 { 'K' } else if k
        == 4 { 'L' } else { 'N' }
}

pub open spec fn light_letter(k: int) -> char {
    if k == 0 { 'A' } else { 'B' }
}

pub open spec fn matrix_letter(k: int) -> char {
    if k == 0 { 't' } else { 'b' }
}

// Positions of terminal letters within a component.
pub open spec fn button_slot(c: char) -> Option<int> {
    if c == 'X' { Some(0) } else if c == 'Y' { Some(1) } else if c == 'Z' { Some(2) } else { None }
}

pub open spec fn switch_slot(c: char) -> Option<int> {
    if c == 'R' { Some(0) } else if c == 'S' { Some(1) } else if c == 'T' { Some(2) } else if c
        == 'U' { Some(3) } else if c == 'V' { Some(4) } else if c == 'W' { Some(5) } else { None }
}

pub open spec fn coil_slot(c: char) -> Option<int> {
    if c == 'C' { Some(0) } else if c == 'E' { Some(1) } else if c == 'F' { Some(2) } else { None }
}

pub open spec fn contact_slot(c: char) -> Option<int> {
    if c == 'G' { Some(0) } else if c == 'H' { Some(1) } else if c == 'J' { Some(2) } else if c
        == 'K' { Some(3) } else if c == 'L' { Some(4) } else if c == 'N' { Some(5) } else { None }
}

pub open spec fn light_slot(c: char) -> Option<int> {
    if c == 'A' { Some(0) } else if c == 'B' { Some(1) } else { None }
}

pub open spec fn matrix_slot(c: char) -> Option<int> {
    if c == 't' { Some(0) } else if c == 'b' { Some(1) } else { None }
}

/// The port at position `i` of the catalogue. The catalogue lists the
/// power terminals (+0, -0, +1, -1, ...), the pushbuttons, slide switches,
/// relays (coil then contacts), lights, dial contacts, the wiper, the motor
/// terminals, the tie-points and the matrix, in the order the machine is
/// built in.
pub open spec fn port_at(i: int) -> ComponentPort {
    if i < 8 {
        if i % 2 == 0 {
            ComponentPort::PowerPlus((i / 2) as usize)
        } else {
            ComponentPort::PowerMinus((i / 2) as usize)
        }
    } else if i < 26 {
        ComponentPort::Pushbutton(((i - 8) / 3) as usize, button_letter((i - 8) % 3))
    } else if i < 62 {
        ComponentPort::SlideSwitch(((i - 26) / 6) as usize, switch_letter((i - 26) % 6))
    } else if i < 116 {
        if (i - 62) % 9 < 3 {
            ComponentPort::RelayCoil(((i - 62) / 9) as usize, coil_letter((i - 62) % 9))
        } else {
            ComponentPort::RelayContact(((i - 62) / 9) as usize, contact_letter((i - 62) % 9 - 3))
        }
    } else if i < 128 {
        ComponentPort::BinaryLight(((i - 116) / 2) as usize, light_letter((i - 116) % 2))
    } else if i < 144 {
        ComponentPort::DialContact((i - 128) as usize)
    } else if i == 144 {
        ComponentPort::DialWiper
    } else if i < 148 {
        ComponentPort::DialMotor((i - 145 + 17) as usize)
    } else if i < 172 {
        ComponentPort::TiePoint(((i - 148) / 4) as usize, ((i - 148) % 4) as usize)
    } else {
        ComponentPort::MatrixPoint(((i - 172) / 2) as usize, matrix_letter((i - 172) % 2))
    }
}

/// Position of `p` in the catalogue; `None` for a port the machine lacks.
pub open spec fn port_index(p: ComponentPort) -> Option<int> {
    match p {
        ComponentPort::PowerPlus(i) => if i < 4 { Some(2 * i) } else { None },
        ComponentPort::PowerMinus(i) => if i < 4 { Some(2 * i + 1) } else { None },
        ComponentPort::Pushbutton(i, c) => match button_slot(c) {
            Some(k) => if i < 6 { Some(8 + 3 * i + k) } else { None },
            None => None,
        },
        ComponentPort::SlideSwitch(i, c) => match switch_slot(c) {
            Some(k) => if i < 6 { Some(26 + 6 * i + k) } else { None },
            None => None,
        },
        ComponentPort::RelayCoil(i, c) => match coil_slot(c) {
            Some(k) => if i < 6 { Some(62 + 9 * i + k) } else { None },
            None => None,
        },
        ComponentPort::RelayContact(i, c) => match contact_slot(c) {
            Some(k) => if i < 6 { Some(62 + 9 * i + 3 + k) } else { None },
            None => None,
        },
        ComponentPort::BinaryLight(i, c) => match light_slot(c) {
            Some(k) => if i < 6 { Some(116 + 2 * i + k) } else { None },
            None => None,
        },
        ComponentPort::DialContact(i) => if i < 16 { Some(128 + i) } else { None },
        ComponentPort::DialWiper => Some(144),
        ComponentPort::DialMotor(i) => if 17 <= i <= 19 { Some(145 + i - 17) } else { None },
        ComponentPort::TiePoint(i, h) => if i < 6 && h < 4 { Some(148 + 4 * i + h) } else { None },
        ComponentPort::MatrixPoint(i, c) => match matrix_slot(c) {
            Some(k) => if i < 11 { Some(172 + 2 * i + k) } else { None },
            None => None,
        },
    }
}

/// The machine has this port.
pub open spec fn on_panel(p: ComponentPort) -> bool {
    port_index(p) is Some
}

/// Every catalogue position holds a port whose index is that position.
pub proof fn lemma_index_of_port_at(i: int)
    requires
        0 <= i < PORT_COUNT,
    ensures
        port_index(port_at(i)) == Some(i),
{
    if i < 8 {
    } else if i < 26 {
        assert(8 + 3 * ((i - 8) / 3) + (i - 8) % 3 == i);
    } else if i < 62 {
        assert(26 + 6 * ((i - 26) / 6) + (i - 26) % 6 == i);
    } else if i < 116 {
        assert(62 + 9 * ((i - 62) / 9) + (i - 62) % 9 == i);
    } else if i < 128 {
        assert(116 + 2 * ((i - 116) / 2) + (i - 116) % 2 == i);
    } else if i < 148 {
    } else if i < 172 {
        assert(148 + 4 * ((i - 148) / 4) + (i - 148) % 4 == i);
    } else {
        assert(172 + 2 * ((i - 172) / 2) + (i - 172) % 2 == i);
    }
}

/// A port's catalogue position holds that same port.
pub proof fn lemma_port_at_index(p: ComponentPort)
    requires
        on_panel(p),
    ensures
        0 <= port_index(p)->0 < PORT_COUNT,
        port_at(port_index(p)->0) == p,
{
    let i = port_index(p)->0;
    match p {
        ComponentPort::PowerPlus(j) => {
            assert(i / 2 == j && i % 2 == 0);
        },
        ComponentPort::PowerMinus(j) => {
            assert(i / 2 == j && i % 2 == 1);
        },
        ComponentPort::Pushbutton(j, c) => {
            let k = button_slot(c)->0;
            assert((i - 8) / 3 == j && (i - 8) % 3 == k);
        },
        ComponentPort::SlideSwitch(j, c) => {
            let k = switch_slot(c)->0;
            assert((i - 26) / 6 == j && (i - 26) % 6 == k);
        },
        ComponentPort::RelayCoil(j, c) => {
            let k = coil_slot(c)->0;
            assert((i - 62) / 9 == j && (i - 62) % 9 == k);
        },
        ComponentPort::RelayContact(j, c) => {
            let k = contact_slot(c)->0;
            assert((i - 62) / 9 == j && (i - 62) % 9 == k + 3);
        },
        ComponentPort::BinaryLight(j, c) => {
            let k = light_slot(c)->0;
            assert((i - 116) / 2 == j && (i - 116) % 2 == k);
        },
        ComponentPort::TiePoint(j, h) => {
            assert((i - 148) / 4 == j && (i - 148) % 4 == h);
        },
        ComponentPort::MatrixPoint(j, c) => {
            let k = matrix_slot(c)->0;
            assert((i - 172) / 2 == j && (i - 172) % 2 == k);
        },
        _ => {},
    }
}

/// The port at catalogue position `i`.
pub fn catalog_port(i: usize) -> (p: ComponentPort)
    requires
        i < PORT_COUNT,
    ensures
        p == port_at(i as int),
{
    if i < 8 {
        if i % 2 == 0 {
            ComponentPort::PowerPlus(i / 2)
        } else {
            ComponentPort::PowerMinus(i / 2)
        }
    } else if i < 26 {
        let k = (i - 8) % 3;
        let c = if k == 0 { 'X' } else if k == 1 { 'Y' } else { 'Z' };
        ComponentPort::Pushbutton((i - 8) / 3, c)
    } else if i < 62 {
        let k = (i - 26) % 6;
        let c = if k == 0 { 'R' } else if k == 1 { 'S' } else if k == 2 { 'T' } else if k == 3 { 'U' } else if k == 4 { 'V' } else { 'W' };
        ComponentPort::SlideSwitch((i - 26) / 6, c)
    } else if i < 116 {
        let k = (i - 62) % 9;
        if k < 3 {
            let c = if k == 0 { 'C' } else if k == 1 { 'E' } else { 'F' };
            ComponentPort::RelayCoil((i - 62) / 9, c)
        } else {
            let c = if k == 3 { 'G' } else if k == 4 { 'H' } else if k == 5 { 'J' } else if k == 6 { 'K' } else if k == 7 { 'L' } else { 'N' };
            ComponentPort::RelayContact((i - 62) / 9, c)
        }
    } else if i < 128 {
        let c = if (i - 116) % 2 == 0 { 'A' } else { 'B' };
        ComponentPort::BinaryLight((i - 116) / 2, c)
    } else if i < 144 {
        ComponentPort::DialContact(i - 128)
    } else if i == 144 {
        ComponentPort::DialWiper
    } else if i < 148 {
        ComponentPort::DialMotor(i - 145 + 17)
    } else if i < 172 {
        ComponentPort::TiePoint((i - 148) / 4, (i - 148) % 4)
    } else {
        let c = if (i - 172) % 2 == 0 { 't' } else { 'b' };
        ComponentPort::MatrixPoint((i - 172) / 2, c)
    }
}

/// The catalogue position of `p`, or `None` for a port the machine lacks.
pub fn catalog_index(p: ComponentPort) -> (r: Option<usize>)
    ensures
        match r {
            Some(i) => port_index(p) == Some(i as int),
            None => port_index(p) is None,
        },
{
    match p {
        ComponentPort::PowerPlus(i) => if i < 4 { Some(2 * i) } else { None },
        ComponentPort::PowerMinus(i) => if i < 4 { Some(2 * i + 1) } else { None },
        ComponentPort::Pushbutton(i, c) => {
            let k: usize = if c == 'X' { 0 } else if c == 'Y' { 1 } else if c == 'Z' { 2 } else { return None; };
            if i < 6 { Some(8 + 3 * i + k) } else { None }
        },
        ComponentPort::SlideSwitch(i, c) => {
            let k: usize = if c == 'R' { 0 } else if c == 'S' { 1 } else if c == 'T' { 2 } else if c == 'U' { 3 } else if c == 'V' { 4 } else if c == 'W' { 5 } else { return None; };
            if i < 6 { Some(26 + 6 * i + k) } else { None }
        },
        ComponentPort::RelayCoil(i, c) => {
            let k: usize = if c == 'C' { 0 } else if c == 'E' { 1 } else if c == 'F' { 2 } else { return None; };
            if i < 6 { Some(62 + 9 * i + k) } else { None }
        },
        ComponentPort::RelayContact(i, c) => {
            let k: usize = if c == 'G' { 0 } else if c == 'H' { 1 } else if c == 'J' { 2 } else if c == 'K' { 3 } else if c == 'L' { 4 } else if c == 'N' { 5 } else { return None; };
            if i < 6 { Some(62 + 9 * i + 3 + k) } else { None }
        },
        ComponentPort::BinaryLight(i, c) => {
            let k: usize = if c == 'A' { 0 } else if c == 'B' { 1 } else { return None; };
            if i < 6 { Some(116 + 2 * i + k) } else { None }
        },
        ComponentPort::DialContact(i) => if i < 16 { Some(128 + i) } else { None },
        ComponentPort::DialWiper => Some(144),
        ComponentPort::DialMotor(i) => if 17 <= i && i <= 19 { Some(145 + i - 17) } else { None },
        ComponentPort::TiePoint(i, h) => if i < 6 && h < 4 { Some(148 + 4 * i + h) } else { None },
        ComponentPort::MatrixPoint(i, c) => {
            let k: usize = if c == 't' { 0 } else if c == 'b' { 1 } else { return None; };
            if i < 11 { Some(172 + 2 * i + k) } else { None }
        },
    }
}

/// The decimal digit `d` as a character.
pub open spec fn digit_char(d: nat) -> char {
    if d == 0 { '0' } else if d == 1 { '1' } else if d == 2 { '2' } else if d == 3 { '3' } else if d
        == 4 { '4' } else if d == 5 { '5' } else if d == 6 { '6' } else if d == 7 { '7' } else if d
        == 8 { '8' } else { '9' }
}

/// The decimal notation of `n`, without leading zeros.
pub open spec fn decimal(n: nat) -> Seq<char>
    decreases n,
{
    if n < 10 {
        seq![digit_char(n)]
    } else {
        decimal(n / 10).push(digit_char(n % 10))
    }
}

fn digit(d: usize) -> (c: char)
    requires
        d < 10,
    ensures
        c == digit_char(d as nat),
{
    if d == 0 { '0' } else if d == 1 { '1' } else if d == 2 { '2' } else if d == 3 { '3' } else if d
        == 4 { '4' } else if d == 5 { '5' } else if d == 6 { '6' } else if d == 7 { '7' } else if d
        == 8 { '8' } else { '9' }
}

/// Appends the decimal notation of `n` to `s`.
pub fn push_decimal(s: &mut String, n: usize)
    ensures
        final(s)@ == old(s)@ + decimal(n as nat),
    decreases n,
{
    if n >= 10 {
        push_decimal(s, n / 10);
    }
    let ghost mid = s@;
    push_char(s, digit(n % 10));
    proof {
        if n >= 10 {
            assert(s@ =~= old(s)@ + decimal((n / 10) as nat).push(digit_char((n % 10) as nat)));
        } else {
            assert(s@ =~= old(s)@ + decimal(n as nat));
        }
    }
}

/// The port's printed name, as on the experiment sheets: "+0", "PB1_X",
/// "RLY2_coil_C", "D16", "M17", "COM1_h0", "M3t", ...
pub open spec fn port_name(p: ComponentPort) -> Seq<char> {
    match p {
        ComponentPort::PowerPlus(i) => seq!['+'] + decimal(i as nat),
        ComponentPort::PowerMinus(i) => seq!['-'] + decimal(i as nat),
        ComponentPort::Pushbutton(i, c) => seq!['P', 'B'] + decimal((i + 1) as nat) + seq!['_', c],
        ComponentPort::SlideSwitch(i, c) => seq!['S', 'W'] + decimal((i + 1) as nat) + seq!['_', c],
        ComponentPort::RelayCoil(i, c) => seq!['R', 'L', 'Y'] + decimal((i + 1) as nat) + seq![
            '_',
            'c',
            'o',
            'i',
            'l',
            '_',
            c,
        ],
        ComponentPort::RelayContact(i, c) => seq!['R', 'L', 'Y'] + decimal((i + 1) as nat) + seq![
            '_',
            'c',
            'o',
            'n',
            't',
            'a',
            'c',
            't',
            '_',
            c,
        ],
        ComponentPort::BinaryLight(i, c) => seq!['L', 'G', 'T'] + decimal((i + 1) as nat) + seq!['_', c],
        ComponentPort::DialContact(i) => seq!['D'] + decimal(i as nat),
        ComponentPort::DialWiper => seq!['D', '1', '6'],
        ComponentPort::DialMotor(i) => seq!['M'] + decimal(i as nat),
        ComponentPort::TiePoint(i, h) => seq!['C', 'O', 'M'] + decimal((i + 1) as nat) + seq!['_', 'h']
            + decimal(h as nat),
        ComponentPort::MatrixPoint(i, c) => seq!['M'] + decimal((i + 1) as nat) + seq![c],
    }
}

/// The name can be written: the component number that the name counts
/// from one does not overflow.
pub open spec fn name_fits(p: ComponentPort) -> bool {
    match p {
        ComponentPort::Pushbutton(i, _) => i < usize::MAX,
        ComponentPort::SlideSwitch(i, _) => i < usize::MAX,
        ComponentPort::RelayCoil(i, _) => i < usize::MAX,
        ComponentPort::RelayContact(i, _) => i < usize::MAX,
        ComponentPort::BinaryLight(i, _) => i < usize::MAX,
        ComponentPort::TiePoint(i, _) => i < usize::MAX,
        ComponentPort::MatrixPoint(i, _) => i < usize::MAX,
        _ => true,
    }
}

impl ComponentPort {
    /// The port's printed name.
    pub fn name(&self) -> (r: String)
        requires
            name_fits(*self),
        ensures
            r@ == port_name(*self),
    {
        let mut s = String::new();
        proof {
            reveal_strlit("+");
            reveal_strlit("-");
            reveal_strlit("PB");
            reveal_strlit("SW");
            reveal_strlit("RLY");
            reveal_strlit("_coil_");
            reveal_strlit("_contact_");
            reveal_strlit("LGT");
            reveal_strlit("D");
            reveal_strlit("D16");
            reveal_strlit("M");
            reveal_strlit("COM");
            reveal_strlit("_h");
            reveal_strlit("_");
        }
        match *self {
            ComponentPort::PowerPlus(i) => {
                s.append("+");
                push_decimal(&mut s, i);
            },
            ComponentPort::PowerMinus(i) => {
                s.append("-");
                push_decimal(&mut s, i);
            },
            ComponentPort::Pushbutton(i, c) => {
                s.append("PB");
                push_decimal(&mut s, i + 1);
                s.append("_");
                push_char(&mut s, c);
            },
            ComponentPort::SlideSwitch(i, c) => {
                s.append("SW");
                push_decimal(&mut s, i + 1);
                s.append("_");
                push_char(&mut s, c);
            },
            ComponentPort::RelayCoil(i, c) => {
                s.append("RLY");
                push_decimal(&mut s, i + 1);
                s.append("_coil_");
                push_char(&mut s, c);
            },
            ComponentPort::RelayContact(i, c) => {
                s.append("RLY");
                push_decimal(&mut s, i + 1);
                s.append("_contact_");
                push_char(&mut s, c);
            },
            ComponentPort::BinaryLight(i, c) => {
                s.append("LGT");
                push_decimal(&mut s, i + 1);
                s.append("_");
                push_char(&mut s, c);
            },
            ComponentPort::DialContact(i) => {
                s.append("D");
                push_decimal(&mut s, i);
            },
            ComponentPort::DialWiper => {
                s.append("D16");
            },
            ComponentPort::DialMotor(i) => {
                s.append("M");
                push_decimal(&mut s, i);
            },
            ComponentPort::TiePoint(i, h) => {
                s.append("COM");
                push_decimal(&mut s, i + 1);
                s.append("_h");
                push_decimal(&mut s, h);
            },
            ComponentPort::MatrixPoint(i, c) => {
                s.append("M");
                push_decimal(&mut s, i + 1);
                push_char(&mut s, c);
            },
        }
        assert(s@ =~= port_name(*self));
        s
    }
}

} // verus!
