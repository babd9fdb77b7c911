//! What holds of every parse: a success is a complete, well-formed address,
//! and formatting it then parsing the result gives the same address back.
use vstd::prelude::*;
use crate::text::{digit_char, digit_of, digits_of, digits_value, is_digit_in, read_number};
use crate::usb::{
    board_text, delim, field_end, format_address, hex_marker_ok, hex_text, instr_text,
    interface_text, is_delim_at, parse_address, parse_board, parse_codes,
    parse_hex_field, parse_serial, parse_tail, byte_at, parse_instr, span_end, AddressView,
    ParseErrorView,
};

verus! {

/// No field delimiter "::" occurs inside `f`.
pub open spec fn no_delim_within(f: Seq<char>) -> bool {
    forall|k: int| 0 <= k && k + 1 < f.len() ==> !(#[trigger] f[k] == ':' && f[k + 1] == ':')
}

/// The addresses that parsing can produce: the serial number is not empty,
/// holds no delimiter, and does not end in ':' when a segment follows it.
pub open spec fn address_wf(a: AddressView) -> bool {
    &&& a.serial_number.len() > 0
    &&& no_delim_within(a.serial_number)
    &&& (a.interface_number is Some || a.instr) ==> a.serial_number.last() != ':'
}

/// The field that starts at `from` ends at the first delimiter, or at the end.
pub proof fn lemma_field_end(s: Seq<char>, from: int)
    requires
        0 <= from <= s.len(),
    ensures
        from <= field_end(s, from) <= s.len(),
        forall|k: int| from <= k < field_end(s, from) ==> !is_delim_at(s, k),
        field_end(s, from) < s.len() ==> is_delim_at(s, field_end(s, from)),
    decreases s.len() - from,
{
    if from < s.len() && !is_delim_at(s, from) {
        lemma_field_end(s, from + 1);
    }
}

proof fn lemma_field_end_at(s: Seq<char>, from: int, e: int)
    requires
        0 <= from <= e <= s.len(),
        forall|k: int| from <= k < e ==> !is_delim_at(s, k),
        e == s.len() || is_delim_at(s, e),
    ensures
        field_end(s, from) == e,
    decreases e - from,
{
    if from < e {
        lemma_field_end_at(s, from + 1, e);
    }
}

/// A field `f` placed at `p` and followed by a delimiter or the end is read
/// back whole.
proof fn lemma_segment(s: Seq<char>, p: int, f: Seq<char>)
    requires
        0 <= p,
        p + f.len() <= s.len(),
        s.subrange(p, p + f.len()) == f,
        no_delim_within(f),
        p + f.len() == s.len() || (is_delim_at(s, p + f.len()) && (f.len() > 0 ==> f.last() != ':')),
    ensures
        field_end(s, p) == p + f.len(),
{
    let e = p + f.len();
    assert forall|k: int| p <= k < e implies !is_delim_at(s, k) by {
        assert(s[k] == f[k - p]);
        if k + 1 < e {
            assert(s[k + 1] == f[k - p + 1]);
        }
    }
    lemma_field_end_at(s, p, e);
}

proof fn lemma_digit_char(d: nat)
    requires
        d < 16,
    ensures
        digit_of(digit_char(d)) == Some(d),
{
}

/// The canonical digits of `n` are digits of the radix and read back as `n`.
proof fn lemma_digits_of(n: nat, radix: nat)
    requires
        radix == 10 || radix == 16,
    ensures
        digits_of(n, radix).len() > 0,
        forall|i: int| 0 <= i < digits_of(n, radix).len() ==> is_digit_in(#[trigger] digits_of(n, radix)[i], radix),
        digits_value(digits_of(n, radix), radix) == n,
    decreases n,
{
    let t = digits_of(n, radix);
    if n < radix {
        lemma_digit_char(n);
        assert(t.drop_last() =~= Seq::<char>::empty());
        assert(digits_value(t.drop_last(), radix) == 0);
        assert(t.last() == digit_char(n));
        assert(digits_value(t, radix) == 0 * radix + n);
    } else {
        assert(n / radix < n) by (nonlinear_arith)
            requires
                n >= radix,
                radix >= 2,
        ;
        lemma_digits_of(n / radix, radix);
        assert(n % radix < radix) by (nonlinear_arith)
            requires
                radix >= 2,
        ;
        lemma_digit_char(n % radix);
        assert(t.drop_last() == digits_of(n / radix, radix));
        assert(t.last() == digit_char(n % radix));
        assert((n / radix) * radix + n % radix == n) by (nonlinear_arith)
            requires
                radix >= 2,
        ;
        assert(digits_value(t, radix) == (n / radix) * radix + n % radix);
    }
}

/// Reading the canonical digits of `n` gives `n`.
proof fn lemma_read_digits(n: nat, radix: nat, max: nat)
    requires
        radix == 10 || radix == 16,
        n <= max,
    ensures
        read_number(digits_of(n, radix), radix, max) == Ok::<nat, crate::text::NumErrorKind>(n),
        no_delim_within(digits_of(n, radix)),
        digits_of(n, radix).last() != ':',
        digits_of(n, radix)[0] != 'I' && digits_of(n, radix)[0] != 'i',
        forall|k: int| 0 <= k < digits_of(n, radix).len() ==> #[trigger] digits_of(n, radix)[k] != ':',
        digits_of(n, radix).len() > 0,
{
    lemma_digits_of(n, radix);
    let t = digits_of(n, radix);
    assert forall|k: int| 0 <= k < t.len() implies t[k] != ':' && t[k] != 'I' && t[k] != 'i' by {
        assert(is_digit_in(t[k], radix));
    }
}

/// Every success of the parser is a well-formed address.
proof fn lemma_serial_wf(s: Seq<char>, p: int, board: Option<u32>, m: u16, c: u16)
    requires
        0 <= p <= s.len(),
        parse_serial(s, p, board, m, c) is Ok,
    ensures
        address_wf(parse_serial(s, p, board, m, c)->Ok_0),
{
    let d = field_end(s, p);
    lemma_field_end(s, p);
    let sn = s.subrange(p, d);
    let a = parse_serial(s, p, board, m, c)->Ok_0;
    assert(a.serial_number == sn);
    assert forall|k: int| 0 <= k && k + 1 < sn.len() implies !(#[trigger] sn[k] == ':' && sn[k + 1] == ':') by {
        assert(!is_delim_at(s, p + k));
    }
    if a.interface_number is Some || a.instr {
        assert(d < s.len());
        assert(!is_delim_at(s, d - 1));
    }
}

proof fn lemma_hex_field_next(s: Seq<char>, p: int, missing: Seq<char>)
    requires
        0 <= p <= s.len(),
        parse_hex_field(s, p, missing) is Ok,
    ensures
        0 <= parse_hex_field(s, p, missing)->Ok_0.1 <= s.len(),
{
    lemma_field_end(s, p);
}

/// Every successful parse yields exactly one complete address: non-empty
/// serial number free of delimiters, and every optional part decided.
pub proof fn lemma_parse_wf(s: Seq<char>)
    requires
        parse_address(s) is Ok,
    ensures
        address_wf(parse_address(s)->Ok_0),
{
    lemma_field_end(s, 3);
    let d = field_end(s, 3);
    let board = if d == 3 {
        None
    } else {
        Some(read_number(s.subrange(3, d), 10, 0xFFFF_FFFF)->Ok_0 as u32)
    };
    let manu_at: int = d + 2;
    assert(parse_board(s) == parse_codes(s, manu_at, board));
    let h1 = parse_hex_field(s, manu_at, crate::usb::missing_codes());
    lemma_hex_field_next(s, manu_at, crate::usb::missing_codes());
    let model_at: int = h1->Ok_0.1;
    let h2 = parse_hex_field(s, model_at, crate::usb::missing_model());
    lemma_hex_field_next(s, model_at, crate::usb::missing_model());
    let serial_at: int = h2->Ok_0.1;
    lemma_serial_wf(s, serial_at, board, h1->Ok_0.0, h2->Ok_0.0);
}


/// Index where the manufacturer field starts in the canonical form.
spec fn pos_manufacturer(a: AddressView) -> int {
    3 + board_text(a.board).len() as int + 2
}

/// Index where the model field starts in the canonical form.
spec fn pos_model(a: AddressView) -> int {
    pos_manufacturer(a) + hex_text(a.manufacturer_id).len() as int + 2
}

/// Index where the serial number starts in the canonical form.
spec fn pos_serial(a: AddressView) -> int {
    pos_model(a) + hex_text(a.model_code).len() as int + 2
}

/// Where each part of an address stands in its canonical form.
proof fn lemma_layout(a: AddressView)
    ensures
        ({
            let s = format_address(a);
            let manu_at = pos_manufacturer(a);
            let model_at = pos_model(a);
            let serial_at = pos_serial(a);
            let e3 = serial_at + a.serial_number.len();
            &&& e3 <= s.len()
            &&& s[0] == 'U' && s[1] == 'S' && s[2] == 'B'
            &&& s.subrange(3, manu_at - 2) == board_text(a.board)
            &&& is_delim_at(s, manu_at - 2)
            &&& s.subrange(manu_at, model_at - 2) == hex_text(a.manufacturer_id)
            &&& is_delim_at(s, model_at - 2)
            &&& s.subrange(model_at, serial_at - 2) == hex_text(a.model_code)
            &&& is_delim_at(s, serial_at - 2)
            &&& s.subrange(serial_at, e3) == a.serial_number
            &&& s.subrange(e3, s.len() as int) == interface_text(a.interface_number) + instr_text(a.instr)
        }),
{
    let s = format_address(a);
    let dl = delim();
    let l1 = seq!['U', 'S', 'B'] + board_text(a.board);
    let l2 = l1 + dl;
    let l3 = l2 + hex_text(a.manufacturer_id);
    let l4 = l3 + dl;
    let l5 = l4 + hex_text(a.model_code);
    let l6 = l5 + dl;
    let l7 = l6 + a.serial_number;
    let tail = interface_text(a.interface_number) + instr_text(a.instr);
    assert(s =~= l7 + tail);
    assert(s.subrange(0, l7.len() as int) =~= l7);
    assert(s.subrange(l7.len() as int, s.len() as int) =~= tail);
    assert(l7.subrange(0, l6.len() as int) =~= l6);
    assert(l6.subrange(0, l5.len() as int) =~= l5);
    assert(l5.subrange(0, l4.len() as int) =~= l4);
    assert(l4.subrange(0, l3.len() as int) =~= l3);
    assert(l3.subrange(0, l2.len() as int) =~= l2);
    assert(l2.subrange(0, l1.len() as int) =~= l1);
    assert(s[0] == l1[0] && s[1] == l1[1] && s[2] == l1[2]);
    assert(s.subrange(3, l1.len() as int) =~= board_text(a.board));
    assert(s[l1.len() as int] == ':' && s[l1.len() as int + 1] == ':');
    assert(s.subrange(l2.len() as int, l3.len() as int) =~= hex_text(a.manufacturer_id));
    assert(s[l3.len() as int] == ':' && s[l3.len() as int + 1] == ':');
    assert(s.subrange(l4.len() as int, l5.len() as int) =~= hex_text(a.model_code));
    assert(s[l5.len() as int] == ':' && s[l5.len() as int + 1] == ':');
    assert(s.subrange(l6.len() as int, l7.len() as int) =~= a.serial_number);
}

/// A canonical hexadecimal field at `p`, followed by a delimiter, is read back.
proof fn lemma_hex_stage(s: Seq<char>, p: int, v: u16, missing: Seq<char>)
    requires
        0 <= p,
        p + hex_text(v).len() <= s.len(),
        s.subrange(p, p + hex_text(v).len()) == hex_text(v),
        is_delim_at(s, p + hex_text(v).len()),
    ensures
        parse_hex_field(s, p, missing) == Ok::<(u16, int), ParseErrorView>((v, p + hex_text(v).len() + 2)),
{
    let h = hex_text(v);
    lemma_read_digits(v as nat, 16, 0xFFFF);
    lemma_hex_text(v);
    lemma_segment(s, p, h);
    assert(h.skip(2) =~= digits_of(v as nat, 16));
}

/// What follows a serial number ending at `e` in the canonical form is read back.
proof fn lemma_tail_stage(s: Seq<char>, e: int, iface: Option<u16>, instr: bool)
    requires
        0 <= e <= s.len(),
        s.subrange(e, s.len() as int) == interface_text(iface) + instr_text(instr),
    ensures
        parse_tail(s, e) == Ok::<(Option<u16>, bool), ParseErrorView>((iface, instr)),
{
    let t1 = interface_text(iface);
    let t2 = instr_text(instr);
    let instr_lit = seq!['I', 'N', 'S', 'T', 'R'];
    let q = e + 2;
    let e4 = e + t1.len();
    let rest = s.subrange(e, s.len() as int);
    assert(s.subrange(e, e4) =~= rest.subrange(0, t1.len() as int));
    assert(rest.subrange(0, t1.len() as int) =~= t1);
    assert(s.subrange(e4, s.len() as int) =~= rest.subrange(t1.len() as int, rest.len() as int));
    assert(rest.subrange(t1.len() as int, rest.len() as int) =~= t2);
    match iface {
        Some(i) => {
            let di = digits_of(i as nat, 10);
            lemma_read_digits(i as nat, 10, 0xFFFF);
            assert(t1.subrange(2, t1.len() as int) =~= di);
            assert(s.subrange(q, e4) =~= t1.subrange(2, t1.len() as int));
            assert(s[q] == di[0]);
            if instr {
                assert(s[e4] == t2[0] && s[e4 + 1] == t2[1]);
                assert(t2.subrange(2, t2.len() as int) =~= instr_lit);
                assert(s.skip(e4 + 2) =~= t2.subrange(2, t2.len() as int));
            }
            lemma_segment(s, q, di);
        },
        None => {
            if instr {
                assert(t2.subrange(2, t2.len() as int) =~= instr_lit);
                assert(s.skip(q) =~= t2.subrange(2, t2.len() as int));
                assert(s[q] == 'I');
            }
        },
    }
}

/// Formatting a well-formed address and parsing the text gives it back.
#[verifier::rlimit(100)]
pub proof fn lemma_format_parse(a: AddressView)
    requires
        address_wf(a),
    ensures
        parse_address(format_address(a)) == Ok::<AddressView, ParseErrorView>(a),
{
    let s = format_address(a);
    lemma_layout(a);
    let manu_at = pos_manufacturer(a);
    let model_at = pos_model(a);
    let serial_at = pos_serial(a);
    let e3 = serial_at + a.serial_number.len();
    let b = board_text(a.board);
    assert(parse_board(s) == parse_codes(s, manu_at, a.board)) by {
        match a.board {
            Some(v) => {
                lemma_read_digits(v as nat, 10, 0xFFFF_FFFF);
            },
            None => {},
        }
        lemma_segment(s, 3, b);
    }
    assert(parse_serial(s, serial_at, a.board, a.manufacturer_id, a.model_code) == Ok::<AddressView, ParseErrorView>(a)) by {
        let tail = interface_text(a.interface_number) + instr_text(a.instr);
        if e3 < s.len() {
            assert(tail.len() > 0);
            assert(a.interface_number is Some || a.instr);
            assert(s[e3] == tail[0] && s[e3 + 1] == tail[1]);
        }
        lemma_segment(s, serial_at, a.serial_number);
        lemma_tail_stage(s, e3, a.interface_number, a.instr);
    }
    assert(parse_codes(s, manu_at, a.board) == Ok::<AddressView, ParseErrorView>(a)) by {
        lemma_hex_stage(s, manu_at, a.manufacturer_id, crate::usb::missing_codes());
        lemma_hex_stage(s, model_at, a.model_code, crate::usb::missing_model());
    }
}

proof fn lemma_hex_text(v: u16)
    requires
        forall|k: int| 0 <= k < digits_of(v as nat, 16).len() ==> #[trigger] digits_of(v as nat, 16)[k] != ':',
        digits_of(v as nat, 16).len() > 0,
    ensures
        no_delim_within(hex_text(v)),
        hex_text(v).last() != ':',
        hex_text(v).len() >= 3,
        hex_marker_ok(hex_text(v)),
{
    let h = hex_text(v);
    let t = digits_of(v as nat, 16);
    assert forall|k: int| 0 <= k < h.len() implies h[k] != ':' by {
        if k >= 2 {
            assert(h[k] == t[k - 2]);
        }
    }
}

/// Round trip: every address that parsing produces formats to a text that
/// parses back to an equal address.
pub proof fn lemma_round_trip(s: Seq<char>)
    requires
        parse_address(s) is Ok,
    ensures
        parse_address(format_address(parse_address(s)->Ok_0)) == parse_address(s),
{
    lemma_parse_wf(s);
    lemma_format_parse(parse_address(s)->Ok_0);
}


/// `found` is the text of `s` between character indices `a` and `b`, in the
/// field that starts at index `f`; `start` is the byte offset of `f` and `end`
/// is the span end for `b` (see `span_end`).
pub open spec fn located_at(s: Seq<char>, found: Seq<char>, start: nat, end: nat, f: int, a: int, b: int) -> bool {
    &&& 0 <= f <= a <= b <= s.len()
    &&& found == s.subrange(a, b)
    &&& start == byte_at(s, f)
    &&& end == span_end(s, b)
}

/// The error names the address `s`; one that carries a span cites the text
/// of `s` between character indices `a` and `b`, in the field starting at `f`.
pub open spec fn error_located(s: Seq<char>, e: ParseErrorView, f: int, a: int, b: int) -> bool {
    match e {
        ParseErrorView::NotUSB(p) => p == s.take(if s.len() < 3 { s.len() as int } else { 3 }),
        ParseErrorView::IncompleteAddress(addr, _) => addr == s,
        ParseErrorView::NumParseError { found, addr, start, end, .. } => addr == s && located_at(s, found, start, end, f, a, b),
        ParseErrorView::NotHex { found, addr, start, end } => addr == s && f == a && located_at(s, found, start, end, f, a, b),
        ParseErrorView::NotInstr { found, addr, start, end } => addr == s && f == a && b == s.len() && located_at(s, found, start, end, f, a, b),
    }
}

proof fn lemma_instr_located(s: Seq<char>, q: int) -> (r: (int, int, int))
    requires
        0 <= q <= s.len(),
        parse_instr(s, q) is Err,
    ensures
        error_located(s, parse_instr(s, q)->Err_0, r.0, r.1, r.2),
{
    (q, q, s.len() as int)
}

proof fn lemma_tail_located(s: Seq<char>, d: int) -> (r: (int, int, int))
    requires
        0 <= d <= s.len(),
        d < s.len() ==> is_delim_at(s, d),
        parse_tail(s, d) is Err,
    ensures
        error_located(s, parse_tail(s, d)->Err_0, r.0, r.1, r.2),
{
    let q = d + 2;
    if q < s.len() && (s[q] == 'I' || s[q] == 'i') {
        lemma_instr_located(s, q)
    } else {
        lemma_field_end(s, q);
        let e = field_end(s, q);
        if read_number(s.subrange(q, e), 10, 0xFFFF) is Err {
            (q, q, e)
        } else {
            lemma_instr_located(s, e + 2)
        }
    }
}

proof fn lemma_hex_field_located(s: Seq<char>, p: int, missing: Seq<char>) -> (r: (int, int, int))
    requires
        0 <= p <= s.len(),
        parse_hex_field(s, p, missing) is Err,
    ensures
        error_located(s, parse_hex_field(s, p, missing)->Err_0, r.0, r.1, r.2),
{
    lemma_field_end(s, p);
    let d = field_end(s, p);
    let f = s.subrange(p, d);
    if !hex_marker_ok(f) || (d < s.len() && f.len() < 2) {
        (p, p, d)
    } else if d < s.len() {
        assert(f.skip(2) =~= s.subrange(p + 2, d));
        (p, p + 2, d)
    } else {
        (0, 0, 0)
    }
}

proof fn lemma_codes_located(s: Seq<char>, p: int, board: Option<u32>) -> (r: (int, int, int))
    requires
        0 <= p <= s.len(),
        parse_codes(s, p, board) is Err,
    ensures
        error_located(s, parse_codes(s, p, board)->Err_0, r.0, r.1, r.2),
{
    let h1 = parse_hex_field(s, p, crate::usb::missing_codes());
    if h1 is Err {
        lemma_hex_field_located(s, p, crate::usb::missing_codes())
    } else {
        lemma_hex_field_next(s, p, crate::usb::missing_codes());
        let model_at = h1->Ok_0.1;
        let h2 = parse_hex_field(s, model_at, crate::usb::missing_model());
        if h2 is Err {
            lemma_hex_field_located(s, model_at, crate::usb::missing_model())
        } else {
            lemma_hex_field_next(s, model_at, crate::usb::missing_model());
            let serial_at = h2->Ok_0.1;
            lemma_field_end(s, serial_at);
            let d = field_end(s, serial_at);
            assert(parse_codes(s, p, board) == parse_serial(s, serial_at, board, h1->Ok_0.0, h2->Ok_0.0));
            if d != serial_at {
                lemma_tail_located(s, d)
            } else {
                (0, 0, 0)
            }
        }
    }
}

/// Every failed parse reports the address it was given, and each error that
/// carries a span cites the exact text of the address that it found: the
/// returned character indices are the start of the offending field and the
/// bounds of the cited text, and the byte span is read from them. A
/// hexadecimal number's span starts at its "0x" marker while the cited text
/// is its digits; a marker error's text runs to the end of the input.
pub proof fn lemma_error_located(s: Seq<char>) -> (r: (int, int, int))
    requires
        parse_address(s) is Err,
    ensures
        error_located(s, parse_address(s)->Err_0, r.0, r.1, r.2),
{
    if crate::usb::usb_prefix_ok(s) && s.len() >= 3 {
        lemma_field_end(s, 3);
        let d = field_end(s, 3);
        if d < s.len() {
            if d == 3 {
                lemma_codes_located(s, d + 2, None)
            } else {
                let n = read_number(s.subrange(3, d), 10, 0xFFFF_FFFF);
                if n is Err {
                    (3, 3, d)
                } else {
                    lemma_codes_located(s, d + 2, Some(n->Ok_0 as u32))
                }
            }
        } else {
            (0, 0, 0)
        }
    } else {
        (0, 0, 0)
    }
}

} // verus!
