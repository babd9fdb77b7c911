//! Character-level facts: UTF-8 byte offsets, digits, and numbers written
//! in a radix.
use vstd::prelude::*;
use vstd::std_specs::iter::IteratorSpec;
use vstd::utf8::*;

verus! {

/// Number of bytes in the UTF-8 encoding of `s`.
pub open spec fn byte_len(s: Seq<char>) -> nat {
    encode_utf8(s).len()
}

/// The value of a digit character in radix up to 16 (either letter case).
pub open spec fn digit_of(c: char) -> Option<nat> {
    let v = c as u32;
    if 48 <= v <= 57 {
        Some((v - 48) as nat)
    } else if 65 <= v <= 70 {
        Some((v - 55) as nat)
    } else if 97 <= v <= 102 {
        Some((v - 87) as nat)
    } else {
        None
    }
}

/// `c` is a digit of the given radix.
pub open spec fn is_digit_in(c: char, radix: nat) -> bool {
    &&& digit_of(c) is Some
    &&& digit_of(c)->0 < radix
}

/// The value of the digit string `t` in the given radix, most significant first.
pub open spec fn digits_value(t: Seq<char>, radix: nat) -> nat
    decreases t.len(),
{
    if t.len() == 0 {
        0
    } else {
        digits_value(t.drop_last(), radix) * radix + digit_of(t.last())->0
    }
}

/// Why a digit string could not be read as a number.
#[derive(Clone, Copy, Debug, PartialEq, Eq, Hash)]
pub enum NumErrorKind {
    /// The text was empty.
    Empty,
    /// The text held a character that is not a digit of the radix.
    InvalidDigit,
    /// The value is larger than the target type can hold.
    Overflow,
}

/// Reading the text `t` as an unsigned number in `radix`, at most `max`.
pub open spec fn read_number(t: Seq<char>, radix: nat, max: nat) -> Result<nat, NumErrorKind> {
    if t.len() == 0 {
        Err(NumErrorKind::Empty)
    } else if exists|i: int| 0 <= i < t.len() && !is_digit_in(#[trigger] t[i], radix) {
        Err(NumErrorKind::InvalidDigit)
    } else if digits_value(t, radix) > max {
        Err(NumErrorKind::Overflow)
    } else {
        Ok(digits_value(t, radix))
    }
}

/// The digit character for `d` (upper-case letters above nine).
pub open spec fn digit_char(d: nat) -> char {
    if d < 10 {
        (d + 48) as char
    } else {
        (d + 55) as char
    }
}

/// The canonical digits of `n` in `radix`: no leading zeros, "0" for zero.
pub open spec fn digits_of(n: nat, radix: nat) -> Seq<char>
    decreases n
    via lemma_digits_of_decreases
{
    if n < radix || radix < 2 {
        seq![digit_char(n)]
    } else {
        digits_of(n / radix, radix).push(digit_char(n % radix))
    }
}

#[via_fn]
proof fn lemma_digits_of_decreases(n: nat, radix: nat) {
    if !(n < radix || radix < 2) {
        assert(n / radix < n) by (nonlinear_arith)
            requires
                n >= radix,
                radix >= 2,
        ;
    }
}

pub proof fn lemma_encode_utf8_concat(a: Seq<char>, b: Seq<char>)
    ensures
        encode_utf8(a + b) == encode_utf8(a) + encode_utf8(b),
    decreases a.len(),
{
    if a.len() == 0 {
        assert(a + b =~= b);
        assert(encode_utf8(a) + encode_utf8(b) =~= encode_utf8(b));
    } else {
        lemma_encode_utf8_concat(a.drop_first(), b);
        assert((a + b).drop_first() =~= a.drop_first() + b);
        assert(encode_utf8(a + b) =~= encode_utf8(a) + encode_utf8(b));
    }
}

proof fn lemma_byte_len_step(s: Seq<char>, i: int)
    requires
        0 <= i < s.len(),
    ensures
        byte_len(s.take(i + 1)) == byte_len(s.take(i)) + encode_scalar(s[i] as u32).len(),
        byte_len(s.take(i + 1)) <= byte_len(s),
{
    let one = seq![s[i]];
    lemma_encode_utf8_concat(s.take(i), one);
    assert(s.take(i + 1) =~= s.take(i) + one);
    assert(one.drop_first() =~= Seq::<char>::empty());
    assert(one[0] == s[i]);
    assert(encode_utf8(one.drop_first()) =~= Seq::<u8>::empty());
    assert(encode_utf8(one) =~= encode_scalar(s[i] as u32));
    lemma_encode_utf8_concat(s.take(i + 1), s.skip(i + 1));
    assert(s.take(i + 1) + s.skip(i + 1) =~= s);
}

fn char_width(c: char) -> (w: usize)
    ensures
        w as nat == encode_scalar(c as u32).len(),
{
    proof {
        char_is_scalar(c);
    }
    let v = c as u32;
    if v <= 0x7F {
        1
    } else if v <= 0x7FF {
        2
    } else if v <= 0xFFFF {
        3
    } else {
        4
    }
}

/// The characters of `s`, and the byte offset at which each character
/// starts (with the total length as the last entry).
pub fn chars_and_offsets(s: &str) -> (r: (Vec<char>, Vec<usize>))
    ensures
        r.0@ == s@,
        r.1@.len() == s@.len() + 1,
        forall|i: int| 0 <= i <= s@.len() ==> r.1@[i] as nat == byte_len(#[trigger] s@.take(i)),
{
    let bytes = s.as_bytes();
    let total = bytes.len();
    let mut chars: Vec<char> = Vec::new();
    let mut offsets: Vec<usize> = Vec::new();
    let mut pos: usize = 0;
    offsets.push(0);
    proof {
        assert(s@.take(0) =~= Seq::<char>::empty());
    }
    let mut it = s.chars();
    loop
        invariant
            it.remaining() == s@.skip(chars@.len() as int),
            chars@ == s@.take(chars@.len() as int),
            chars@.len() <= s@.len(),
            offsets@.len() == chars@.len() + 1,
            forall|i: int| 0 <= i <= chars@.len() ==> offsets@[i] as nat == byte_len(#[trigger] s@.take(i)),
            pos == offsets@[chars@.len() as int],
            total as nat == byte_len(s@),
        ensures
            chars@ == s@,
            offsets@.len() == chars@.len() + 1,
            forall|i: int| 0 <= i <= chars@.len() ==> offsets@[i] as nat == byte_len(#[trigger] s@.take(i)),
        decreases s@.len() - chars@.len(),
    {
        match it.next() {
            Some(c) => {
                let ghost k = chars@.len() as int;
                assert(s@.skip(k)[0] == s@[k]);
                proof {
                    lemma_byte_len_step(s@, k);
                }
                let w = char_width(c);
                pos = pos + w;
                chars.push(c);
                offsets.push(pos);
                assert(s@.skip(k).drop_first() =~= s@.skip(k + 1));
                assert(chars@ =~= s@.take(k + 1));
            },
            None => {
                assert(s@.skip(chars@.len() as int).len() == 0);
                assert(chars@ =~= s@);
                break;
            },
        }
    }
    (chars, offsets)
}

fn digit_value(c: char) -> (r: Option<u32>)
    ensures
        r matches Some(d) ==> digit_of(c) == Some(d as nat),
        r is None ==> digit_of(c) is None,
{
    let v = c as u32;
    if 48 <= v && v <= 57 {
        Some(v - 48)
    } else if 65 <= v && v <= 70 {
        Some(v - 55)
    } else if 97 <= v && v <= 102 {
        Some(v - 87)
    } else {
        None
    }
}

/// Reads `chars[from..to]` as a number in `radix`, at most `max`.
pub fn read_number_at(chars: &Vec<char>, from: usize, to: usize, radix: u32, max: u32) -> (r: Result<u32, NumErrorKind>)
    requires
        from <= to <= chars@.len(),
        2 <= radix <= 16,
    ensures
        r matches Ok(v) ==> read_number(chars@.subrange(from as int, to as int), radix as nat, max as nat) == Ok::<nat, NumErrorKind>(v as nat),
        r matches Err(e) ==> read_number(chars@.subrange(from as int, to as int), radix as nat, max as nat) == Err::<nat, NumErrorKind>(e),
{
    let ghost t = chars@.subrange(from as int, to as int);
    if from == to {
        return Err(NumErrorKind::Empty);
    }
    let mut i: usize = from;
    let mut acc: u32 = 0;
    let mut overflow = false;
    proof {
        assert(chars@.subrange(from as int, from as int) =~= Seq::<char>::empty());
    }
    while i < to
        invariant
            from <= i <= to <= chars@.len(),
            2 <= radix <= 16,
            t == chars@.subrange(from as int, to as int),
            forall|k: int| from <= k < i ==> is_digit_in(#[trigger] chars@[k], radix as nat),
            !overflow ==> acc as nat == digits_value(chars@.subrange(from as int, i as int), radix as nat) && acc <= max,
            overflow ==> digits_value(chars@.subrange(from as int, i as int), radix as nat) > max,
        decreases to - i,
    {
        let c = chars[i];
        let ghost prev = chars@.subrange(from as int, i as int);
        let ghost next = chars@.subrange(from as int, i + 1);
        assert(next.drop_last() =~= prev);
        assert(next.last() == c);
        match digit_value(c) {
            Some(d) if d < radix => {
                let ghost pv = digits_value(prev, radix as nat);
                assert(digits_value(next, radix as nat) == pv * radix as nat + d as nat);
                if overflow {
                    assert(pv * radix as nat + d as nat >= pv) by (nonlinear_arith)
                        requires radix >= 2;
                } else {
                    assert(acc as nat * radix as nat <= 0xFFFF_FFFF * 16) by (nonlinear_arith)
                        requires acc <= 0xFFFF_FFFFu32, radix <= 16;
                    let n: u64 = acc as u64 * radix as u64 + d as u64;
                    if n > max as u64 {
                        overflow = true;
                    } else {
                        acc = n as u32;
                    }
                }
            },
            _ => {
                assert(!is_digit_in(t[i - from], radix as nat));
                return Err(NumErrorKind::InvalidDigit);
            },
        }
        i = i + 1;
    }
    assert(chars@.subrange(from as int, i as int) == t);
    if overflow {
        Err(NumErrorKind::Overflow)
    } else {
        Ok(acc)
    }
}

} // verus!
