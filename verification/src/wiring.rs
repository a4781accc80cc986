//! Port names as the experiment sheets write them ("+0", "PB1_Y",
//! "RLY1_coil_C", "COM2_h3", "MX4t", ...), and wiring an experiment from
//! such a sheet.
use vstd::prelude::*;
use crate::ports::{ComponentPort, on_panel, port_index};
use crate::patching::{no_self_cords, one_cord_per_hole, plugs};
use crate::simulation::{Connection, MinivacSimulation};

verus! {

/// `c` is one of the ASCII digits.
pub open spec fn is_digit(c: char) -> bool {
    48 <= c as int <= 57
}

/// The value of the digit `c`.
pub open spec fn digit_value(c: char) -> nat {
    (c as int - 48) as nat
}

/// Every character of `s` is a digit.
pub open spec fn all_digits(s: Seq<char>) -> bool {
    forall|i: int| 0 <= i < s.len() ==> #[trigger] is_digit(s[i])
}

/// The number that the digits `s` write in decimal.
pub open spec fn digits_value(s: Seq<char>) -> nat
    decreases s.len(),
{
    if s.len() == 0 {
        0
    } else {
        digits_value(s.drop_last()) * 10 + digit_value(s.last())
    }
}

/// Reads `s` as a `usize` the way `str::parse::<usize>` does: an optional
/// `+`, then at least one digit and nothing else, of a value that fits.
pub open spec fn parse_usize(s: Seq<char>) -> Option<nat> {
    let t = if s.len() > 0 && s[0] == '+' { s.skip(1) } else { s };
    if t.len() > 0 && all_digits(t) && digits_value(t) <= usize::MAX {
        Some(digits_value(t))
    } else {
        None
    }
}

/// `parse_usize`, with `default` where it fails.
pub open spec fn parse_or(s: Seq<char>, default: usize) -> usize {
    match parse_usize(s) {
        Some(v) => v as usize,
        None => default,
    }
}

/// The component number written by the single character at position `at`,
/// counted from one: a digit `d` gives `d - 1`, anything else 0.
pub open spec fn unit_number(s: Seq<char>, at: int) -> usize {
    if is_digit(s[at]) {
        (digit_value(s[at]) - 1) as usize
    } else {
        0
    }
}

pub open spec fn starts1(s: Seq<char>, a: char) -> bool {
    s.len() >= 1 && s[0] == a
}

pub open spec fn starts2(s: Seq<char>, a: char, b: char) -> bool {
    s.len() >= 2 && s[0] == a && s[1] == b
}

pub open spec fn starts3(s: Seq<char>, a: char, b: char, c: char) -> bool {
    s.len() >= 3 && s[0] == a && s[1] == b && s[2] == c
}

/// `s` holds the word "coil" somewhere.
pub open spec fn mentions_coil(s: Seq<char>) -> bool {
    exists|i: int|
        0 <= i && i + 4 <= s.len() && #[trigger] s[i] == 'c' && s[i + 1] == 'o' && s[i + 2] == 'i'
            && s[i + 3] == 'l'
}

/// The character at position `at` of `s` can be cut out on its own and
/// read as a component number counted from one: it exists, is a single
/// byte (ASCII), and is not the digit 0 (which would count below one).
pub open spec fn unit_readable(s: Seq<char>, at: int) -> bool {
    &&& at < s.len()
    &&& (s[at] as int) < 128
    &&& s[at] != '0'
}

/// The port named `s` can be read without a fault.
pub open spec fn spec_readable(s: Seq<char>) -> bool {
    if starts1(s, '+') || starts1(s, '-') {
        true
    } else if starts2(s, 'P', 'B') || starts2(s, 'S', 'W') {
        unit_readable(s, 2)
    } else if starts3(s, 'R', 'L', 'Y') || starts3(s, 'L', 'G', 'T') {
        unit_readable(s, 3)
    } else if starts1(s, 'D') {
        true
    } else if starts2(s, 'M', 'X') {
        unit_readable(s, 2)
    } else if starts1(s, 'M') {
        true
    } else if starts3(s, 'C', 'O', 'M') {
        unit_readable(s, 3)
    } else {
        true
    }
}

/// The port that the name `s` designates. Missing parts fall back to a
/// default (terminal Y of a pushbutton, S of a switch, contact 0 of the
/// dial, motor terminal 17, ...).
pub open spec fn parse_port_spec(s: Seq<char>) -> Option<ComponentPort> {
    if starts1(s, '+') {
        Some(ComponentPort::PowerPlus(parse_or(s.skip(1), 0)))
    } else if starts1(s, '-') {
        Some(ComponentPort::PowerMinus(parse_or(s.skip(1), 0)))
    } else if starts2(s, 'P', 'B') {
        Some(ComponentPort::Pushbutton(unit_number(s, 2), if s.len() > 4 { s[4] } else { 'Y' }))
    } else if starts2(s, 'S', 'W') {
        Some(ComponentPort::SlideSwitch(unit_number(s, 2), if s.len() > 4 { s[4] } else { 'S' }))
    } else if starts3(s, 'R', 'L', 'Y') {
        if mentions_coil(s) {
            Some(ComponentPort::RelayCoil(unit_number(s, 3), s.last()))
        } else {
            Some(ComponentPort::RelayContact(unit_number(s, 3), s.last()))
        }
    } else if starts3(s, 'L', 'G', 'T') {
        Some(ComponentPort::BinaryLight(unit_number(s, 3), s.last()))
    } else if starts3(s, 'D', '1', '6') {
        Some(ComponentPort::DialWiper)
    } else if starts1(s, 'D') {
        Some(ComponentPort::DialContact(parse_or(s.skip(1), 0)))
    } else if starts2(s, 'M', 'X') {
        Some(ComponentPort::MatrixPoint(unit_number(s, 2), s.last()))
    } else if starts1(s, 'M') {
        Some(ComponentPort::DialMotor(parse_or(s.skip(1), 17)))
    } else if starts3(s, 'C', 'O', 'M') {
        Some(
            ComponentPort::TiePoint(
                unit_number(s, 3),
                if is_digit(s.last()) { digit_value(s.last()) as usize } else { 0 },
            ),
        )
    } else {
        None
    }
}

proof fn lemma_digits_prefix_le(t: Seq<char>, k: int)
    requires
        all_digits(t),
        0 <= k <= t.len(),
    ensures
        digits_value(t.subrange(0, k)) <= digits_value(t),
    decreases t.len(),
{
    if k < t.len() {
        let u = t.drop_last();
        assert(all_digits(u)) by {
            assert forall|i: int| 0 <= i < u.len() implies #[trigger] is_digit(u[i]) by {
                assert(u[i] == t[i]);
            }
        }
        assert(u.subrange(0, k) =~= t.subrange(0, k));
        lemma_digits_prefix_le(u, k);
    } else {
        assert(t.subrange(0, k) =~= t);
    }
}

/// The characters of `s`, in order.
pub fn chars_of(s: &str) -> (v: Vec<char>)
    ensures
        v@ == s@,
{
    let n = s.unicode_len();
    let mut v: Vec<char> = Vec::new();
    for i in 0..n
        invariant
            n == s@.len(),
            v@ == s@.subrange(0, i as int),
    {
        v.push(s.get_char(i));
        proof {
            assert(v@ =~= s@.subrange(0, i + 1));
        }
    }
    proof {
        assert(s@.subrange(0, n as int) =~= s@);
    }
    v
}

fn is_digit_char(c: char) -> (r: bool)
    ensures
        r == is_digit(c),
{
    let code = c as u32;
    48 <= code && code <= 57
}

fn digit_of(c: char) -> (d: usize)
    requires
        is_digit(c),
    ensures
        d == digit_value(c),
        d < 10,
{
    (c as u32 - 48) as usize
}

/// Reads `v[lo..]` as `str::parse::<usize>` does.
pub fn parse_decimal(v: &Vec<char>, lo: usize) -> (r: Option<usize>)
    requires
        lo <= v@.len(),
    ensures
        match parse_usize(v@.subrange(lo as int, v@.len() as int)) {
            Some(n) => r == Some(n as usize),
            None => r is None,
        },
{
    let ghost s = v@.subrange(lo as int, v@.len() as int);
    let mut start = lo;
    if start < v.len() && v[start] == '+' {
        start = start + 1;
    }
    let ghost t = v@.subrange(start as int, v@.len() as int);
    proof {
        if s.len() > 0 && s[0] == '+' {
            assert(t =~= s.skip(1));
        } else {
            assert(t =~= s);
        }
    }
    if start == v.len() {
        return None;
    }
    let mut acc: usize = 0;
    let mut i = start;
    while i < v.len()
        invariant
            lo <= start < v@.len(),
            start <= i <= v@.len(),
            t == v@.subrange(start as int, v@.len() as int),
            s == v@.subrange(lo as int, v@.len() as int),
            t == if s.len() > 0 && s[0] == '+' { s.skip(1) } else { s },
            all_digits(v@.subrange(start as int, i as int)),
            acc == digits_value(v@.subrange(start as int, i as int)),
        decreases v@.len() - i,
    {
        let c = v[i];
        let ghost pre = v@.subrange(start as int, i as int);
        let ghost next = v@.subrange(start as int, i + 1);
        proof {
            assert(next.drop_last() =~= pre);
            assert(next.last() == c);
            assert(next =~= t.subrange(0, i + 1 - start));
        }
        if !is_digit_char(c) {
            proof {
                assert(t[i - start] == c);
            }
            return None;
        }
        let d = digit_of(c);
        proof {
            assert(all_digits(next)) by {
                assert forall|j: int| 0 <= j < next.len() implies #[trigger] is_digit(next[j]) by {
                    if j < pre.len() {
                        assert(next[j] == pre[j]);
                    }
                }
            }
            assert(digits_value(next) == acc * 10 + d);
        }
        match acc.checked_mul(10) {
            Some(m) => match m.checked_add(d) {
                Some(a) => {
                    acc = a;
                },
                None => {
                    proof {
                        if all_digits(t) {
                            lemma_digits_prefix_le(t, i + 1 - start);
                        }
                    }
                    return None;
                },
            },
            None => {
                proof {
                    if all_digits(t) {
                        lemma_digits_prefix_le(t, i + 1 - start);
                    }
                }
                return None;
            },
        }
        i = i + 1;
    }
    proof {
        assert(v@.subrange(start as int, i as int) =~= t);
    }
    Some(acc)
}

/// Reads the port name `spec`, as `parse_port_spec` describes.
pub fn port_from_spec(spec: &str) -> (r: Option<ComponentPort>)
    requires
        spec_readable(spec@),
    ensures
        r == parse_port_spec(spec@),
{
    let v = chars_of(spec);
    let n = v.len();
    proof {
        assert(v@.subrange(1, n as int) =~= v@.skip(1)) by {}
    }
    if n >= 1 && v[0] == '+' {
        proof { assert(v@.subrange(1, n as int) =~= spec@.skip(1)); }
        let idx = match parse_decimal(&v, 1) { Some(k) => k, None => 0 };
        Some(ComponentPort::PowerPlus(idx))
    } else if n >= 1 && v[0] == '-' {
        proof { assert(v@.subrange(1, n as int) =~= spec@.skip(1)); }
        let idx = match parse_decimal(&v, 1) { Some(k) => k, None => 0 };
        Some(ComponentPort::PowerMinus(idx))
    } else if n >= 2 && v[0] == 'P' && v[1] == 'B' {
        let num = unit_at(&v, 2);
        let term = if n > 4 { v[4] } else { 'Y' };
        Some(ComponentPort::Pushbutton(num, term))
    } else if n >= 2 && v[0] == 'S' && v[1] == 'W' {
        let num = unit_at(&v, 2);
        let term = if n > 4 { v[4] } else { 'S' };
        Some(ComponentPort::SlideSwitch(num, term))
    } else if n >= 3 && v[0] == 'R' && v[1] == 'L' && v[2] == 'Y' {
        let num = unit_at(&v, 3);
        let term = v[n - 1];
        if has_coil(&v) {
            Some(ComponentPort::RelayCoil(num, term))
        } else {
            Some(ComponentPort::RelayContact(num, term))
        }
    } else if n >= 3 && v[0] == 'L' && v[1] == 'G' && v[2] == 'T' {
        let num = unit_at(&v, 3);
        Some(ComponentPort::BinaryLight(num, v[n - 1]))
    } else if n >= 3 && v[0] == 'D' && v[1] == '1' && v[2] == '6' {
        Some(ComponentPort::DialWiper)
    } else if n >= 1 && v[0] == 'D' {
        proof { assert(v@.subrange(1, n as int) =~= spec@.skip(1)); }
        let num = match parse_decimal(&v, 1) { Some(k) => k, None => 0 };
        Some(ComponentPort::DialContact(num))
    } else if n >= 2 && v[0] == 'M' && v[1] == 'X' {
        let num = unit_at(&v, 2);
        Some(ComponentPort::MatrixPoint(num, v[n - 1]))
    } else if n >= 1 && v[0] == 'M' {
        proof { assert(v@.subrange(1, n as int) =~= spec@.skip(1)); }
        let num = match parse_decimal(&v, 1) { Some(k) => k, None => 17 };
        Some(ComponentPort::DialMotor(num))
    } else if n >= 3 && v[0] == 'C' && v[1] == 'O' && v[2] == 'M' {
        let num = unit_at(&v, 3);
        let last = v[n - 1];
        let hole = if is_digit_char(last) { digit_of(last) } else { 0 };
        Some(ComponentPort::TiePoint(num, hole))
    } else {
        None
    }
}

/// The component number written by the character `v[at]`, counted from one.
fn unit_at(v: &Vec<char>, at: usize) -> (r: usize)
    requires
        unit_readable(v@, at as int),
    ensures
        r == unit_number(v@, at as int),
{
    let c = v[at];
    if is_digit_char(c) {
        digit_of(c) - 1
    } else {
        0
    }
}

/// `v` holds the word "coil".
fn has_coil(v: &Vec<char>) -> (r: bool)
    ensures
        r == mentions_coil(v@),
{
    let n = v.len();
    if n < 4 {
        return false;
    }
    for i in 0..n - 3
        invariant
            n == v@.len(),
            n >= 4,
            forall|j: int|
                0 <= j < i ==> !(#[trigger] v@[j] == 'c' && v@[j + 1] == 'o' && v@[j + 2] == 'i'
                    && v@[j + 3] == 'l'),
    {
        if v[i] == 'c' && v[i + 1] == 'o' && v[i + 2] == 'i' && v[i + 3] == 'l' {
            return true;
        }
    }
    false
}

fn unit_ok(v: &Vec<char>, at: usize) -> (b: bool)
    ensures
        b == unit_readable(v@, at as int),
{
    at < v.len() && v[at] < '\u{80}' && v[at] != '0'
}

/// Whether the port name `spec` can be read without a fault.
pub fn port_spec_readable(spec: &str) -> (r: bool)
    ensures
        r == spec_readable(spec@),
{
    let v = chars_of(spec);
    let n = v.len();
    if n >= 1 && (v[0] == '+' || v[0] == '-') {
        true
    } else if n >= 2 && ((v[0] == 'P' && v[1] == 'B') || (v[0] == 'S' && v[1] == 'W')) {
        unit_ok(&v, 2)
    } else if n >= 3 && ((v[0] == 'R' && v[1] == 'L' && v[2] == 'Y') || (v[0] == 'L' && v[1] == 'G'
        && v[2] == 'T')) {
        unit_ok(&v, 3)
    } else if n >= 1 && v[0] == 'D' {
        true
    } else if n >= 2 && v[0] == 'M' && v[1] == 'X' {
        unit_ok(&v, 2)
    } else if n >= 1 && v[0] == 'M' {
        true
    } else if n >= 3 && v[0] == 'C' && v[1] == 'O' && v[2] == 'M' {
        unit_ok(&v, 3)
    } else {
        true
    }
}

impl MinivacSimulation {
    /// The identifier of the port that the name `spec` designates, if the
    /// machine has that port.
    pub fn port_uuid_by_spec(&self, spec: &str) -> (r: Option<u128>)
        requires
            self.wf(),
            spec_readable(spec@),
        ensures
            r == match parse_port_spec(spec@) {
                Some(p) => if on_panel(p) { Some(self.id_of(p)) } else { None::<u128> },
                None => None::<u128>,
            },
    {
        match port_from_spec(spec) {
            Some(p) => self.port_id(p),
            None => None,
        }
    }
}

/// The identifier of the port named `name`, given the catalogue's
/// identifiers `ids`; `None` for a name that designates no port of the
/// machine.
pub open spec fn lookup_name(ids: Seq<u128>, name: Seq<char>) -> Option<u128> {
    match parse_port_spec(name) {
        Some(p) => if on_panel(p) { Some(ids[port_index(p)->0]) } else { None },
        None => None,
    }
}

/// One line of a wiring sheet, by its view: a port name and hole at each
/// end of a cord.
pub open spec fn sheet_line(e: (&str, usize, &str, usize)) -> (Seq<char>, usize, Seq<char>, usize) {
    (e.0@, e.1, e.2@, e.3)
}

/// The cords that the wiring sheet `sheet` plugs, in order: one per line
/// whose two names designate two different ports of the machine.
pub open spec fn sheet_cords(
    ids: Seq<u128>,
    sheet: Seq<(Seq<char>, usize, Seq<char>, usize)>,
    color: [u8; 4],
) -> Seq<Connection>
    decreases sheet.len(),
{
    if sheet.len() == 0 {
        Seq::empty()
    } else {
        let prev = sheet_cords(ids, sheet.drop_last(), color);
        let (a, ha, b, hb) = sheet.last();
        match (lookup_name(ids, a), lookup_name(ids, b)) {
            (Some(x), Some(y)) => if x != y {
                prev.push(Connection { from: x, from_hole: ha, to: y, to_hole: hb, color })
            } else {
                prev
            },
            _ => prev,
        }
    }
}

/// One end of a sheet line, by its view: the identifier of the port it
/// names and its hole (`first` picks the left-hand end); `None` where the
/// name designates no port of the machine.
pub open spec fn line_end(ids: Seq<u128>, line: (Seq<char>, usize, Seq<char>, usize), first: bool) -> Option<
    (u128, usize),
> {
    let (name, hole) = if first { (line.0, line.1) } else { (line.2, line.3) };
    match lookup_name(ids, name) {
        Some(x) => Some((x, hole)),
        None => None,
    }
}

/// Every hole of the machine that the sheet names is named only once.
pub open spec fn sheet_ends_distinct(ids: Seq<u128>, sheet: Seq<(Seq<char>, usize, Seq<char>, usize)>) -> bool {
    forall|i: int, j: int, s: bool, t: bool|
        0 <= i < sheet.len() && 0 <= j < sheet.len() && (i != j || s != t) && (#[trigger] line_end(
            ids,
            sheet[i],
            s,
        )) is Some ==> line_end(ids, sheet[i], s) != #[trigger] line_end(ids, sheet[j], t)
}

/// Each end of a cord that a sheet plugs is an end named by one of its lines.
proof fn lemma_sheet_cord_ends(ids: Seq<u128>, sheet: Seq<(Seq<char>, usize, Seq<char>, usize)>, color: [u8; 4])
    ensures
        forall|k: int, port: u128, hole: usize|
            0 <= k < sheet_cords(ids, sheet, color).len() && #[trigger] plugs(
                sheet_cords(ids, sheet, color)[k],
                port,
                hole,
            ) ==> exists|i: int, s: bool|
                0 <= i < sheet.len() && #[trigger] line_end(ids, sheet[i], s) == Some((port, hole)),
    decreases sheet.len(),
{
    if sheet.len() > 0 {
        let prev_sheet = sheet.drop_last();
        let n = sheet.len() - 1;
        lemma_sheet_cord_ends(ids, prev_sheet, color);
        let prev = sheet_cords(ids, prev_sheet, color);
        let cords = sheet_cords(ids, sheet, color);
        assert forall|k: int, port: u128, hole: usize|
            0 <= k < cords.len() && #[trigger] plugs(cords[k], port, hole) implies exists|i: int, s: bool|
                0 <= i < sheet.len() && #[trigger] line_end(ids, sheet[i], s) == Some((port, hole)) by {
            if k < prev.len() {
                assert(cords[k] == prev[k]);
                let (i, s) = choose|i: int, s: bool|
                    0 <= i < prev_sheet.len() && #[trigger] line_end(ids, prev_sheet[i], s) == Some((port, hole));
                assert(prev_sheet[i] == sheet[i]);
            } else {
                let c = cords[k];
                if c.from == port && c.from_hole == hole {
                    assert(line_end(ids, sheet[n], true) == Some((port, hole)));
                } else {
                    assert(line_end(ids, sheet[n], false) == Some((port, hole)));
                }
            }
        }
    }
}

/// A sheet that names each hole of the machine at most once plugs at most
/// one cord into each hole.
pub proof fn lemma_sheet_one_cord_per_hole(
    ids: Seq<u128>,
    sheet: Seq<(Seq<char>, usize, Seq<char>, usize)>,
    color: [u8; 4],
)
    requires
        sheet_ends_distinct(ids, sheet),
    ensures
        one_cord_per_hole(sheet_cords(ids, sheet, color)),
    decreases sheet.len(),
{
    if sheet.len() > 0 {
        let prev_sheet = sheet.drop_last();
        let n = sheet.len() - 1;
        assert(sheet_ends_distinct(ids, prev_sheet)) by {
            assert forall|i: int, j: int, s: bool, t: bool|
                0 <= i < prev_sheet.len() && 0 <= j < prev_sheet.len() && (i != j || s != t) && (
                #[trigger] line_end(ids, prev_sheet[i], s)) is Some implies line_end(ids, prev_sheet[i], s)
                != #[trigger] line_end(ids, prev_sheet[j], t) by {
                assert(prev_sheet[i] == sheet[i] && prev_sheet[j] == sheet[j]);
                assert(line_end(ids, sheet[i], s) != line_end(ids, sheet[j], t));
            }
        }
        lemma_sheet_one_cord_per_hole(ids, prev_sheet, color);
        lemma_sheet_cord_ends(ids, prev_sheet, color);
        let prev = sheet_cords(ids, prev_sheet, color);
        let cords = sheet_cords(ids, sheet, color);
        if cords != prev {
            assert forall|a: int, b: int, port: u128, hole: usize|
                0 <= a < b < cords.len() && #[trigger] plugs(cords[a], port, hole) implies !#[trigger] plugs(
                    cords[b],
                    port,
                    hole,
                ) by {
                assert(cords[a] == prev[a]);
                if b < prev.len() {
                    assert(cords[b] == prev[b]);
                } else if plugs(cords[b], port, hole) {
                    let (i, s) = choose|i: int, s: bool|
                        0 <= i < prev_sheet.len() && #[trigger] line_end(ids, prev_sheet[i], s) == Some((port, hole));
                    assert(prev_sheet[i] == sheet[i]);
                    let c = cords[b];
                    if c.from == port && c.from_hole == hole {
                        assert(line_end(ids, sheet[n], true) == Some((port, hole)));
                        assert(line_end(ids, sheet[i], s) != line_end(ids, sheet[n], true));
                    } else {
                        assert(line_end(ids, sheet[n], false) == Some((port, hole)));
                        assert(line_end(ids, sheet[i], s) != line_end(ids, sheet[n], false));
                    }
                }
            }
        }
    }
}

/// A sheet each of whose lines names two different ports of the machine
/// plugs one cord per line, in the order of the lines: from the hole and
/// port named on the left to the hole and port named on the right, in the
/// given colour.
pub proof fn law_sheet_cords_by_line(
    ids: Seq<u128>,
    sheet: Seq<(Seq<char>, usize, Seq<char>, usize)>,
    color: [u8; 4],
)
    requires
        forall|k: int|
            0 <= k < sheet.len() ==> ((#[trigger] lookup_name(ids, sheet[k].0)) is Some && (lookup_name(
                ids,
                sheet[k].2,
            ) is Some) && lookup_name(ids, sheet[k].0) != lookup_name(ids, sheet[k].2)),
    ensures
        sheet_cords(ids, sheet, color).len() == sheet.len(),
        forall|k: int|
            0 <= k < sheet.len() ==> #[trigger] sheet_cords(ids, sheet, color)[k] == (Connection {
                from: lookup_name(ids, sheet[k].0)->0,
                from_hole: sheet[k].1,
                to: lookup_name(ids, sheet[k].2)->0,
                to_hole: sheet[k].3,
                color,
            }),
    decreases sheet.len(),
{
    if sheet.len() > 0 {
        let pre = sheet.drop_last();
        assert forall|k: int| 0 <= k < pre.len() implies #[trigger] lookup_name(ids, pre[k].0) is Some
            && lookup_name(ids, pre[k].2) is Some && lookup_name(ids, pre[k].0) != lookup_name(
            ids,
            pre[k].2,
        ) by {
            assert(pre[k] == sheet[k]);
            assert(lookup_name(ids, sheet[k].0) is Some);
        }
        law_sheet_cords_by_line(ids, pre, color);
        let n = sheet.len() - 1;
        assert(lookup_name(ids, sheet[n].0) is Some);
        let cords = sheet_cords(ids, sheet, color);
        assert forall|k: int| 0 <= k < sheet.len() implies #[trigger] cords[k] == Connection {
            from: lookup_name(ids, sheet[k].0)->0,
            from_hole: sheet[k].1,
            to: lookup_name(ids, sheet[k].2)->0,
            to_hole: sheet[k].3,
            color,
        } by {
            if k < n {
                assert(pre[k] == sheet[k]);
                assert(sheet_cords(ids, pre, color)[k] == cords[k]);
            }
        }
    }
}

impl MinivacSimulation {
    /// Unplugs every cord, then plugs the cords of the wiring sheet `sheet`
    /// in the colour `color`.
    pub fn auto_wire(&mut self, sheet: &[(&str, usize, &str, usize)], color: [u8; 4])
        requires
            old(self).wf(),
            forall|i: int|
                0 <= i < sheet@.len() ==> spec_readable(#[trigger] sheet@[i].0@) && spec_readable(
                    sheet@[i].2@,
                ),
        ensures
            final(self).wf(),
            no_self_cords(final(self).connections@),
            final(self).port_ids@ == old(self).port_ids@,
            final(self).buttons_pressed == old(self).buttons_pressed,
            final(self).switches_right == old(self).switches_right,
            final(self).relay_state == old(self).relay_state,
            final(self).motor_running == old(self).motor_running,
            final(self).breaker_tripped == old(self).breaker_tripped,
            final(self).power_on == old(self).power_on,
            final(self).connections@ == sheet_cords(
                old(self).port_ids@,
                sheet@.map_values(|e: (&str, usize, &str, usize)| sheet_line(e)),
                color,
            ),
            sheet_ends_distinct(
                old(self).port_ids@,
                sheet@.map_values(|e: (&str, usize, &str, usize)| sheet_line(e)),
            ) ==> one_cord_per_hole(final(self).connections@),
    {
        let ghost lines = sheet@.map_values(|e: (&str, usize, &str, usize)| sheet_line(e));
        self.connections.clear();
        for n in 0..sheet.len()
            invariant
                self.wf(),
                self.port_ids@ == old(self).port_ids@,
                self.buttons_pressed == old(self).buttons_pressed,
                self.switches_right == old(self).switches_right,
                self.relay_state == old(self).relay_state,
                self.motor_running == old(self).motor_running,
                self.breaker_tripped == old(self).breaker_tripped,
                self.power_on == old(self).power_on,
                lines == sheet@.map_values(|e: (&str, usize, &str, usize)| sheet_line(e)),
                forall|i: int|
                    0 <= i < sheet@.len() ==> spec_readable(#[trigger] sheet@[i].0@) && spec_readable(
                        sheet@[i].2@,
                    ),
                self.connections@ == sheet_cords(self.port_ids@, lines.subrange(0, n as int), color),
                no_self_cords(self.connections@),
        {
            let (a, ha, b, hb) = sheet[n];
            proof {
                assert(sheet@[n as int] == (a, ha, b, hb));
                assert(lines.subrange(0, n + 1).drop_last() =~= lines.subrange(0, n as int));
                assert(lines.subrange(0, n + 1).last() == (a@, ha, b@, hb));
            }
            let from = self.port_uuid_by_spec(a);
            let to = self.port_uuid_by_spec(b);
            if let (Some(x), Some(y)) = (from, to) {
                self.add_connection(x, ha, y, hb, color);
            }
        }
        proof {
            assert(lines.subrange(0, sheet@.len() as int) =~= lines);
            if sheet_ends_distinct(self.port_ids@, lines) {
                lemma_sheet_one_cord_per_hole(self.port_ids@, lines, color);
            }
        }
    }
}

} // verus!
