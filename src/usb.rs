//! The USB resource address: its value type, its error type, the grammar as
//! spec functions, and the scanner that implements it.
//!
//! The scanner runs through its states in order, one field at a time, each
//! field ending at the next "::" or at the end of the input:
//! the "USB" prefix, the optional board number, the manufacturer code, the
//! model code, the serial number, then either the interface number (which
//! may be followed by the marker) or, when the segment starts with `I`/`i`,
//! the "INSTR" marker. Each state has a spec function (`parse_board`,
//! `parse_hex_field`, `parse_serial`, `parse_tail`, `parse_instr`) and an
//! executable counterpart proved equal to it. The first violation ends the
//! scan.
use vstd::prelude::*;
use vstd::string::*;
use crate::text::{byte_len, chars_and_offsets, digit_char, digits_of, read_number, read_number_at, NumErrorKind};

verus! {

/// A parsed USB instrument address. Every value of this type holds all of
/// its fields: it is only ever built from a complete, valid address.
#[derive(Clone, Debug, PartialEq, Eq, Hash)]
pub struct UsbAddress {
    board: Option<u32>,
    manufacturer_id: u16,
    model_code: u16,
    serial_number: String,
    interface_number: Option<u16>,
    instr: bool,
}

/// The mathematical content of a [`UsbAddress`].
pub struct AddressView {
    pub board: Option<u32>,
    pub manufacturer_id: u16,
    pub model_code: u16,
    pub serial_number: Seq<char>,
    pub interface_number: Option<u16>,
    pub instr: bool,
}

impl View for UsbAddress {
    type V = AddressView;

    closed spec fn view(&self) -> AddressView {
        AddressView {
            board: self.board,
            manufacturer_id: self.manufacturer_id,
            model_code: self.model_code,
            serial_number: self.serial_number@,
            interface_number: self.interface_number,
            instr: self.instr,
        }
    }
}

/// Errors that can come from parsing a USB address. A span's `start` is the
/// byte offset where the offending field starts (for a hexadecimal code, at
/// its "0x" marker); its `end` is the byte offset of the delimiter that ends
/// the field or, when the field runs to the end of the input, the byte
/// offset of the input's last character.
#[derive(Clone, Debug, PartialEq, Eq)]
pub enum UsbParseError {
    /// The address does not start with "USB"; holds the (up to three)
    /// characters found there.
    NotUSB(String),
    /// A decimal or hexadecimal field could not be read as a number.
    NumParseError { found: String, addr: String, start: usize, end: usize, source: NumErrorKind },
    /// A field that must start with "0x" or "0X" does not.
    NotHex { found: String, addr: String, start: usize, end: usize },
    /// The address ended before all required fields were given; holds the
    /// address and the list of missing elements.
    IncompleteAddress(String, String),
    /// The last segment is not the literal "INSTR" (in any letter case).
    NotInstr { found: String, addr: String, start: usize, end: usize },
}

/// The mathematical content of a [`UsbParseError`].
pub enum ParseErrorView {
    NotUSB(Seq<char>),
    NumParseError { found: Seq<char>, addr: Seq<char>, start: nat, end: nat, source: NumErrorKind },
    NotHex { found: Seq<char>, addr: Seq<char>, start: nat, end: nat },
    IncompleteAddress(Seq<char>, Seq<char>),
    NotInstr { found: Seq<char>, addr: Seq<char>, start: nat, end: nat },
}

impl View for UsbParseError {
    type V = ParseErrorView;

    open spec fn view(&self) -> ParseErrorView {
        match self {
            UsbParseError::NotUSB(p) => ParseErrorView::NotUSB(p@),
            UsbParseError::NumParseError { found, addr, start, end, source } => ParseErrorView::NumParseError {
                found: found@,
                addr: addr@,
                start: *start as nat,
                end: *end as nat,
                source: *source,
            },
            UsbParseError::NotHex { found, addr, start, end } => ParseErrorView::NotHex {
                found: found@,
                addr: addr@,
                start: *start as nat,
                end: *end as nat,
            },
            UsbParseError::IncompleteAddress(a, m) => ParseErrorView::IncompleteAddress(a@, m@),
            UsbParseError::NotInstr { found, addr, start, end } => ParseErrorView::NotInstr {
                found: found@,
                addr: addr@,
                start: *start as nat,
                end: *end as nat,
            },
        }
    }
}

// ----- the grammar -----

/// Missing elements when the input ends inside the "USB" prefix.
pub open spec fn missing_all() -> Seq<char> {
    "USB flag, Manufacture Code, Model Number, Serial number"@
}

/// Missing elements when the input ends in the board or manufacturer field.
pub open spec fn missing_codes() -> Seq<char> {
    "Manufacture Code, Model Number, Serial number"@
}

/// Missing elements when the input ends in the model code field.
pub open spec fn missing_model() -> Seq<char> {
    "Model Number, Serial number"@
}

/// Missing element when the serial number is empty.
pub open spec fn missing_serial() -> Seq<char> {
    "Serial Number"@
}

/// A field delimiter "::" starts at index `k` of `s`.
pub open spec fn is_delim_at(s: Seq<char>, k: int) -> bool {
    0 <= k && k + 1 < s.len() && s[k] == ':' && s[k + 1] == ':'
}

/// Where the field that starts at `from` ends: the first delimiter at or
/// after `from`, or the end of `s`.
pub open spec fn field_end(s: Seq<char>, from: int) -> int
    decreases s.len() - from,
{
    if from >= s.len() {
        s.len() as int
    } else if is_delim_at(s, from) {
        from
    } else {
        field_end(s, from + 1)
    }
}

/// The characters present of "USB" agree with the start of `s`.
pub open spec fn usb_prefix_ok(s: Seq<char>) -> bool {
    &&& s.len() >= 1 ==> s[0] == 'U'
    &&& s.len() >= 2 ==> s[1] == 'S'
    &&& s.len() >= 3 ==> s[2] == 'B'
}

/// The characters present of a "0x" / "0X" marker agree with the start of `f`.
pub open spec fn hex_marker_ok(f: Seq<char>) -> bool {
    &&& f.len() >= 1 ==> f[0] == '0'
    &&& f.len() >= 2 ==> (f[1] == 'x' || f[1] == 'X')
}

/// `g` is "INSTR" in any ASCII letter case: each letter matches its
/// upper- or lower-case ASCII form and nothing else.
pub open spec fn is_instr_marker(g: Seq<char>) -> bool {
    &&& g.len() == 5
    &&& g[0] == 'I' || g[0] == 'i'
    &&& g[1] == 'N' || g[1] == 'n'
    &&& g[2] == 'S' || g[2] == 's'
    &&& g[3] == 'T' || g[3] == 't'
    &&& g[4] == 'R' || g[4] == 'r'
}

/// Byte offset of character index `i` in `s`.
pub open spec fn byte_at(s: Seq<char>, i: int) -> nat {
    byte_len(s.take(i))
}

/// The `end` of a span for a field that ends at index `b`: the delimiter's
/// byte offset, or the last character's when the field ends the input.
pub open spec fn span_end(s: Seq<char>, b: int) -> nat {
    if b < s.len() {
        byte_at(s, b)
    } else {
        byte_at(s, s.len() - 1)
    }
}

/// A number that could not be read: the text `s[a..b]`, in the field that
/// starts at `f`.
pub open spec fn num_error(s: Seq<char>, f: int, a: int, b: int, kind: NumErrorKind) -> ParseErrorView {
    ParseErrorView::NumParseError {
        found: s.subrange(a, b),
        addr: s,
        start: byte_at(s, f),
        end: span_end(s, b),
        source: kind,
    }
}

pub open spec fn hex_error(s: Seq<char>, a: int, b: int) -> ParseErrorView {
    ParseErrorView::NotHex { found: s.subrange(a, b), addr: s, start: byte_at(s, a), end: span_end(s, b) }
}

pub open spec fn instr_error(s: Seq<char>, a: int, b: int) -> ParseErrorView {
    ParseErrorView::NotInstr { found: s.subrange(a, b), addr: s, start: byte_at(s, a), end: span_end(s, b) }
}

/// The resource-class segment that starts at `q` and runs to the end:
/// empty means no marker, otherwise it must be "INSTR".
pub open spec fn parse_instr(s: Seq<char>, q: int) -> Result<bool, ParseErrorView> {
    if q >= s.len() {
        Ok(false)
    } else if is_instr_marker(s.skip(q)) {
        Ok(true)
    } else {
        Err(instr_error(s, q, s.len() as int))
    }
}

/// What follows the serial number, which ends at `d`: an optional interface
/// number and an optional resource-class marker. A segment that starts with
/// `I` or `i` is taken as the marker.
pub open spec fn parse_tail(s: Seq<char>, d: int) -> Result<(Option<u16>, bool), ParseErrorView> {
    if d >= s.len() {
        Ok((None, false))
    } else {
        let q = d + 2;
        if q < s.len() && (s[q] == 'I' || s[q] == 'i') {
            match parse_instr(s, q) {
                Ok(b) => Ok((None, b)),
                Err(e) => Err(e),
            }
        } else {
            let e = field_end(s, q);
            if e == s.len() && e == q {
                Ok((None, false))
            } else {
                match read_number(s.subrange(q, e), 10, 0xFFFF) {
                    Err(kind) => Err(num_error(s, q, q, e, kind)),
                    Ok(v) => if e == s.len() {
                        Ok((Some(v as u16), false))
                    } else {
                        match parse_instr(s, e + 2) {
                            Ok(b) => Ok((Some(v as u16), b)),
                            Err(x) => Err(x),
                        }
                    },
                }
            }
        }
    }
}

/// The serial number, which starts at `p`, and what follows it.
pub open spec fn parse_serial(s: Seq<char>, p: int, board: Option<u32>, m: u16, c: u16) -> Result<
    AddressView,
    ParseErrorView,
> {
    let d = field_end(s, p);
    if d == p {
        Err(ParseErrorView::IncompleteAddress(s, missing_serial()))
    } else {
        match parse_tail(s, d) {
            Ok((iface, instr)) => Ok(
                AddressView {
                    board,
                    manufacturer_id: m,
                    model_code: c,
                    serial_number: s.subrange(p, d),
                    interface_number: iface,
                    instr,
                },
            ),
            Err(e) => Err(e),
        }
    }
}

/// A hexadecimal field that starts at `p`; on success its value and the
/// index after its delimiter. `missing` names what is missing if the input
/// ends inside it.
pub open spec fn parse_hex_field(s: Seq<char>, p: int, missing: Seq<char>) -> Result<(u16, int), ParseErrorView> {
    let d = field_end(s, p);
    let f = s.subrange(p, d);
    if !hex_marker_ok(f) || (d < s.len() && f.len() < 2) {
        Err(hex_error(s, p, d))
    } else if d == s.len() {
        Err(ParseErrorView::IncompleteAddress(s, missing))
    } else {
        match read_number(f.skip(2), 16, 0xFFFF) {
            Ok(v) => Ok((v as u16, d + 2)),
            Err(kind) => Err(num_error(s, p, p + 2, d, kind)),
        }
    }
}

/// The two hexadecimal codes from `p` on, then the rest.
pub open spec fn parse_codes(s: Seq<char>, p: int, board: Option<u32>) -> Result<AddressView, ParseErrorView> {
    match parse_hex_field(s, p, missing_codes()) {
        Err(e) => Err(e),
        Ok((m, model_at)) => match parse_hex_field(s, model_at, missing_model()) {
            Err(e) => Err(e),
            Ok((c, serial_at)) => parse_serial(s, serial_at, board, m, c),
        },
    }
}

/// The board number (after "USB"), then the rest.
pub open spec fn parse_board(s: Seq<char>) -> Result<AddressView, ParseErrorView> {
    let d = field_end(s, 3);
    if d == s.len() {
        Err(ParseErrorView::IncompleteAddress(s, missing_codes()))
    } else if d == 3 {
        parse_codes(s, d + 2, None)
    } else {
        match read_number(s.subrange(3, d), 10, 0xFFFF_FFFF) {
            Ok(v) => parse_codes(s, d + 2, Some(v as u32)),
            Err(kind) => Err(num_error(s, 3, 3, d, kind)),
        }
    }
}

/// The outcome of parsing the address `s`: one address or the first error.
pub open spec fn parse_address(s: Seq<char>) -> Result<AddressView, ParseErrorView> {
    if !usb_prefix_ok(s) {
        Err(ParseErrorView::NotUSB(s.take(if s.len() < 3 { s.len() as int } else { 3 })))
    } else if s.len() < 3 {
        Err(ParseErrorView::IncompleteAddress(s, missing_all()))
    } else {
        parse_board(s)
    }
}


// ----- the scanner -----

/// `chars` and `offs` are the characters of `s` and their byte offsets.
spec fn scanned(s: Seq<char>, chars: Seq<char>, offs: Seq<usize>) -> bool {
    &&& chars == s
    &&& offs.len() == s.len() + 1
    &&& forall|i: int| 0 <= i <= s.len() ==> offs[i] as nat == byte_at(s, i)
}

/// The index of the first delimiter at or after `from`, or the length.
fn find_field_end(chars: &Vec<char>, from: usize) -> (r: usize)
    requires
        from <= chars@.len(),
    ensures
        r as int == field_end(chars@, from as int),
        from <= r <= chars@.len(),
        r < chars@.len() ==> is_delim_at(chars@, r as int),
{
    let mut i = from;
    while i < chars.len()
        invariant
            from <= i <= chars@.len(),
            field_end(chars@, i as int) == field_end(chars@, from as int),
        decreases chars@.len() - i,
    {
        if i + 1 < chars.len() && chars[i] == ':' && chars[i + 1] == ':' {
            return i;
        }
        i = i + 1;
    }
    i
}

fn text_of(addr: &str, a: usize, b: usize) -> (r: String)
    requires
        a <= b <= addr@.len(),
    ensures
        r@ == addr@.subrange(a as int, b as int),
{
    addr.substring_char(a, b).to_owned()
}

fn end_offset(addr: &str, offs: &Vec<usize>, b: usize) -> (r: usize)
    requires
        b <= addr@.len(),
        0 < addr@.len(),
        scanned(addr@, addr@, offs@),
    ensures
        r as nat == span_end(addr@, b as int),
{
    let n = offs.len() - 1;
    if b < n {
        offs[b]
    } else {
        offs[n - 1]
    }
}

fn make_num_error(addr: &str, offs: &Vec<usize>, f: usize, a: usize, b: usize, kind: NumErrorKind) -> (e: UsbParseError)
    requires
        f <= a <= b <= addr@.len(),
        0 < addr@.len(),
        scanned(addr@, addr@, offs@),
    ensures
        e@ == num_error(addr@, f as int, a as int, b as int, kind),
{
    UsbParseError::NumParseError {
        found: text_of(addr, a, b),
        addr: addr.to_owned(),
        start: offs[f],
        end: end_offset(addr, offs, b),
        source: kind,
    }
}

fn make_hex_error(addr: &str, offs: &Vec<usize>, a: usize, b: usize) -> (e: UsbParseError)
    requires
        a <= b <= addr@.len(),
        0 < addr@.len(),
        scanned(addr@, addr@, offs@),
    ensures
        e@ == hex_error(addr@, a as int, b as int),
{
    UsbParseError::NotHex { found: text_of(addr, a, b), addr: addr.to_owned(), start: offs[a], end: end_offset(addr, offs, b) }
}

fn make_instr_error(addr: &str, offs: &Vec<usize>, a: usize, b: usize) -> (e: UsbParseError)
    requires
        a <= b <= addr@.len(),
        0 < addr@.len(),
        scanned(addr@, addr@, offs@),
    ensures
        e@ == instr_error(addr@, a as int, b as int),
{
    UsbParseError::NotInstr { found: text_of(addr, a, b), addr: addr.to_owned(), start: offs[a], end: end_offset(addr, offs, b) }
}

fn incomplete(addr: &str, missing: &str) -> (e: UsbParseError)
    ensures
        e@ == ParseErrorView::IncompleteAddress(addr@, missing@),
{
    UsbParseError::IncompleteAddress(addr.to_owned(), missing.to_owned())
}

fn scan_instr(addr: &str, chars: &Vec<char>, offs: &Vec<usize>, q: usize) -> (r: Result<bool, UsbParseError>)
    requires
        scanned(addr@, chars@, offs@),
        0 < chars@.len(),
        q <= chars@.len(),
    ensures
        r matches Ok(b) ==> parse_instr(addr@, q as int) == Ok::<bool, ParseErrorView>(b),
        r matches Err(e) ==> parse_instr(addr@, q as int) == Err::<bool, ParseErrorView>(e@),
{
    let n = chars.len();
    if q >= n {
        return Ok(false);
    }
    let ghost g = chars@.skip(q as int);
    let is_marker = n - q == 5
        && (chars[q] == 'I' || chars[q] == 'i')
        && (chars[q + 1] == 'N' || chars[q + 1] == 'n')
        && (chars[q + 2] == 'S' || chars[q + 2] == 's')
        && (chars[q + 3] == 'T' || chars[q + 3] == 't')
        && (chars[q + 4] == 'R' || chars[q + 4] == 'r');
    assert(is_marker == is_instr_marker(g));
    if is_marker {
        Ok(true)
    } else {
        Err(make_instr_error(addr, offs, q, n))
    }
}

fn scan_tail(addr: &str, chars: &Vec<char>, offs: &Vec<usize>, d: usize) -> (r: Result<(Option<u16>, bool), UsbParseError>)
    requires
        scanned(addr@, chars@, offs@),
        0 < chars@.len(),
        d <= chars@.len(),
        d < chars@.len() ==> is_delim_at(chars@, d as int),
    ensures
        r matches Ok(t) ==> parse_tail(addr@, d as int) == Ok::<(Option<u16>, bool), ParseErrorView>(t),
        r matches Err(e) ==> parse_tail(addr@, d as int) == Err::<(Option<u16>, bool), ParseErrorView>(e@),
{
    let n = chars.len();
    if d >= n {
        return Ok((None, false));
    }
    let q = d + 2;
    if q < n && (chars[q] == 'I' || chars[q] == 'i') {
        return match scan_instr(addr, chars, offs, q) {
            Ok(b) => Ok((None, b)),
            Err(e) => Err(e),
        };
    }
    let e = find_field_end(chars, q);
    if e == n && e == q {
        return Ok((None, false));
    }
    match read_number_at(chars, q, e, 10, 0xFFFF) {
        Err(kind) => Err(make_num_error(addr, offs, q, q, e, kind)),
        Ok(v) => {
            if e == n {
                Ok((Some(v as u16), false))
            } else {
                match scan_instr(addr, chars, offs, e + 2) {
                    Ok(b) => Ok((Some(v as u16), b)),
                    Err(x) => Err(x),
                }
            }
        },
    }
}

fn scan_hex_field(addr: &str, chars: &Vec<char>, offs: &Vec<usize>, p: usize, missing: &str) -> (r: Result<(u16, usize), UsbParseError>)
    requires
        scanned(addr@, chars@, offs@),
        0 < chars@.len(),
        p <= chars@.len(),
    ensures
        r matches Ok((v, q)) ==> parse_hex_field(addr@, p as int, missing@) == Ok::<(u16, int), ParseErrorView>((v, q as int)) && q <= chars@.len(),
        r matches Err(e) ==> parse_hex_field(addr@, p as int, missing@) == Err::<(u16, int), ParseErrorView>(e@),
{
    let n = chars.len();
    let d = find_field_end(chars, p);
    let ghost f = chars@.subrange(p as int, d as int);
    let len = d - p;
    let marker_ok = (len < 1 || chars[p] == '0') && (len < 2 || chars[p + 1] == 'x' || chars[p + 1] == 'X');
    assert(marker_ok == hex_marker_ok(f));
    if !marker_ok || (d < n && len < 2) {
        return Err(make_hex_error(addr, offs, p, d));
    }
    if d == n {
        return Err(incomplete(addr, missing));
    }
    assert(f.skip(2) =~= chars@.subrange(p + 2, d as int));
    match read_number_at(chars, p + 2, d, 16, 0xFFFF) {
        Ok(v) => Ok((v as u16, d + 2)),
        Err(kind) => Err(make_num_error(addr, offs, p, p + 2, d, kind)),
    }
}

impl UsbAddress {
    /// Parses `addr`, which must be a valid address.
    pub fn new(addr: &str) -> (r: UsbAddress)
        requires
            parse_address(addr@) is Ok,
        ensures
            parse_address(addr@) == Ok::<AddressView, ParseErrorView>(r@),
    {
        match UsbAddress::try_new(addr) {
            Ok(a) => a,
            Err(_) => {
                unreached()
            },
        }
    }

    /// Parses `addr` into an address, or reports the first violation of the
    /// grammar.
    pub fn try_new(addr: &str) -> (r: Result<UsbAddress, UsbParseError>)
        ensures
            r matches Ok(a) ==> parse_address(addr@) == Ok::<AddressView, ParseErrorView>(a@),
            r matches Err(e) ==> parse_address(addr@) == Err::<AddressView, ParseErrorView>(e@),
    {
        let (chars, offs) = chars_and_offsets(addr);
        assert(scanned(addr@, chars@, offs@));
        let n = chars.len();
        let prefix_ok = (n < 1 || chars[0] == 'U') && (n < 2 || chars[1] == 'S') && (n < 3 || chars[2] == 'B');
        if !prefix_ok {
            let k: usize = if n < 3 { n } else { 3 };
            return Err(UsbParseError::NotUSB(text_of(addr, 0, k)));
        }
        if n < 3 {
            return Err(incomplete(addr, "USB flag, Manufacture Code, Model Number, Serial number"));
        }
        // the board number
        let d = find_field_end(&chars, 3);
        if d == n {
            return Err(incomplete(addr, "Manufacture Code, Model Number, Serial number"));
        }
        let board = if d == 3 {
            None
        } else {
            match read_number_at(&chars, 3, d, 10, 0xFFFF_FFFF) {
                Ok(v) => Some(v),
                Err(kind) => {
                    return Err(make_num_error(addr, &offs, 3, 3, d, kind));
                },
            }
        };
        // the two codes
        let (manufacturer_id, model_at) = match scan_hex_field(addr, &chars, &offs, d + 2, "Manufacture Code, Model Number, Serial number") {
            Ok(x) => x,
            Err(e) => {
                return Err(e);
            },
        };
        let (model_code, serial_at) = match scan_hex_field(addr, &chars, &offs, model_at, "Model Number, Serial number") {
            Ok(x) => x,
            Err(e) => {
                return Err(e);
            },
        };
        // the serial number and what follows it
        let e = find_field_end(&chars, serial_at);
        if e == serial_at {
            return Err(incomplete(addr, "Serial Number"));
        }
        let serial_number = text_of(addr, serial_at, e);
        match scan_tail(addr, &chars, &offs, e) {
            Ok((interface_number, instr)) => Ok(
                UsbAddress { board, manufacturer_id, model_code, serial_number, interface_number, instr },
            ),
            Err(x) => Err(x),
        }
    }
}


// ----- the canonical form -----

/// The field delimiter.
pub open spec fn delim() -> Seq<char> {
    seq![':', ':']
}

/// A hexadecimal code as written: "0x" and upper-case digits.
pub open spec fn hex_text(v: u16) -> Seq<char> {
    seq!['0', 'x'] + digits_of(v as nat, 16)
}

/// The optional board number as written after "USB".
pub open spec fn board_text(board: Option<u32>) -> Seq<char> {
    match board {
        Some(b) => digits_of(b as nat, 10),
        None => Seq::empty(),
    }
}

/// The optional interface number segment, with its delimiter.
pub open spec fn interface_text(iface: Option<u16>) -> Seq<char> {
    match iface {
        Some(i) => delim() + digits_of(i as nat, 10),
        None => Seq::empty(),
    }
}

/// The optional resource-class segment, with its delimiter.
pub open spec fn instr_text(instr: bool) -> Seq<char> {
    if instr {
        delim() + seq!['I', 'N', 'S', 'T', 'R']
    } else {
        Seq::empty()
    }
}

/// The canonical string form of an address.
pub open spec fn format_address(a: AddressView) -> Seq<char> {
    seq!['U', 'S', 'B'] + board_text(a.board) + delim() + hex_text(a.manufacturer_id) + delim() + hex_text(
        a.model_code,
    ) + delim() + a.serial_number + interface_text(a.interface_number) + instr_text(a.instr)
}

/// Relies on `String::push`, which appends one character.
#[verifier::external_body]
fn push_char(out: &mut String, c: char)
    ensures
        final(out)@ == old(out)@.push(c),
{
    out.push(c);
}

fn digit_char_of(d: u32) -> (c: char)
    requires
        d < 16,
    ensures
        c == digit_char(d as nat),
{
    if d < 10 {
        ((d + 48) as u8) as char
    } else {
        ((d + 55) as u8) as char
    }
}

/// Appends the canonical digits of `n` in `radix`.
fn push_digits(out: &mut String, n: u32, radix: u32)
    requires
        2 <= radix <= 16,
    ensures
        final(out)@ == old(out)@ + digits_of(n as nat, radix as nat),
    decreases n,
{
    if n >= radix {
        assert(n / radix < n) by (nonlinear_arith)
            requires
                n >= radix,
                radix >= 2,
        ;
        push_digits(out, n / radix, radix);
    }
    push_char(out, digit_char_of(n % radix));
    proof {
        if n < radix {
            assert(n % radix == n) by (nonlinear_arith)
                requires
                    n < radix,
            ;
            assert(out@ =~= old(out)@ + digits_of(n as nat, radix as nat));
        } else {
            assert(out@ =~= old(out)@ + digits_of(n as nat, radix as nat));
        }
    }
}

fn push_delim(out: &mut String)
    ensures
        final(out)@ == old(out)@ + delim(),
{
    push_char(out, ':');
    push_char(out, ':');
    assert(out@ =~= old(out)@ + delim());
}

fn push_hex(out: &mut String, v: u16)
    ensures
        final(out)@ == old(out)@ + hex_text(v),
{
    push_char(out, '0');
    push_char(out, 'x');
    push_digits(out, v as u32, 16);
    assert(out@ =~= old(out)@ + hex_text(v));
}

impl UsbAddress {
    /// The canonical string form of this address.
    pub fn to_string(&self) -> (r: String)
        ensures
            r@ == format_address(self@),
    {
        let mut out = String::new();
        push_char(&mut out, 'U');
        push_char(&mut out, 'S');
        push_char(&mut out, 'B');
        assert(out@ =~= seq!['U', 'S', 'B']);
        match self.board {
            Some(b) => push_digits(&mut out, b, 10),
            None => {
                assert(out@ =~= out@ + board_text(self.board));
            },
        }
        push_delim(&mut out);
        push_hex(&mut out, self.manufacturer_id);
        push_delim(&mut out);
        push_hex(&mut out, self.model_code);
        push_delim(&mut out);
        let serial = self.serial_number.as_str();
        out.append(serial);
        let ghost before_tail = out@;
        match self.interface_number {
            Some(i) => {
                push_delim(&mut out);
                push_digits(&mut out, i as u32, 10);
                assert(out@ =~= before_tail + interface_text(self.interface_number));
            },
            None => {
                assert(out@ =~= before_tail + interface_text(self.interface_number));
            },
        }
        let ghost before_instr = out@;
        if self.instr {
            push_delim(&mut out);
            push_char(&mut out, 'I');
            push_char(&mut out, 'N');
            push_char(&mut out, 'S');
            push_char(&mut out, 'T');
            push_char(&mut out, 'R');
            assert(out@ =~= before_instr + instr_text(self.instr));
        } else {
            assert(out@ =~= before_instr + instr_text(self.instr));
        }
        out
    }

    /// The board number, absent when none was given.
    pub fn board(&self) -> (r: Option<u32>)
        ensures
            r == self@.board,
    {
        self.board
    }

    /// The manufacturer code.
    pub fn manufacturer_id(&self) -> (r: u16)
        ensures
            r == self@.manufacturer_id,
    {
        self.manufacturer_id
    }

    /// The model code.
    pub fn model_code(&self) -> (r: u16)
        ensures
            r == self@.model_code,
    {
        self.model_code
    }

    /// The serial number, as written in the address.
    pub fn serial_number(&self) -> (r: &str)
        ensures
            r@ == self@.serial_number,
    {
        self.serial_number.as_str()
    }

    /// The interface number, absent when none was given.
    pub fn interface_number(&self) -> (r: Option<u16>)
        ensures
            r == self@.interface_number,
    {
        self.interface_number
    }

    /// Whether the address carries the "INSTR" resource-class marker.
    pub fn instr(&self) -> (r: bool)
        ensures
            r == self@.instr,
    {
        self.instr
    }
}


impl std::str::FromStr for UsbAddress {
    type Err = UsbParseError;

    /// Same as [`UsbAddress::try_new`].
    fn from_str(addr: &str) -> (r: Result<UsbAddress, UsbParseError>)
        ensures
            r matches Ok(a) ==> parse_address(addr@) == Ok::<AddressView, ParseErrorView>(a@),
            r matches Err(e) ==> parse_address(addr@) == Err::<AddressView, ParseErrorView>(e@),
    {
        UsbAddress::try_new(addr)
    }
}

} // verus!
