//! 160-bit git object identifiers and their hexadecimal form.
use vstd::prelude::*;
use crate::text::push_char;

verus! {

/// A git object id: twenty bytes, written as forty hexadecimal digits.
#[derive(Clone, Debug, PartialEq, Eq)]
pub struct Oid {
    pub bytes: [u8; 20],
}

pub open spec fn hex_char(d: int) -> char {
    if d == 0 { '0' } else if d == 1 { '1' } else if d == 2 { '2' } else if d == 3 { '3' }
    else if d == 4 { '4' } else if d == 5 { '5' } else if d == 6 { '6' } else if d == 7 { '7' }
    else if d == 8 { '8' } else if d == 9 { '9' } else if d == 10 { 'a' } else if d == 11 { 'b' }
    else if d == 12 { 'c' } else if d == 13 { 'd' } else if d == 14 { 'e' } else { 'f' }
}

/// A hexadecimal digit, in either case.
pub open spec fn is_hex(c: char) -> bool {
    (48 <= (c as u32) && (c as u32) <= 57) || (97 <= (c as u32) && (c as u32) <= 102)
        || (65 <= (c as u32) && (c as u32) <= 70)
}

pub open spec fn hex_value(c: char) -> int {
    if (c as u32) <= 57 {
        (c as u32) - 48
    } else if (c as u32) <= 70 {
        (c as u32) - 55
    } else {
        (c as u32) - 87
    }
}

/// Two lower-case hexadecimal digits for each byte, high half first.
pub open spec fn hex_of(b: Seq<u8>) -> Seq<char> {
    Seq::new(2 * b.len(), |i: int| if i % 2 == 0 { hex_char(b[i / 2] as int / 16) } else { hex_char(b[i / 2] as int % 16) })
}

/// What `Oid::from_hex` accepts: forty hexadecimal digits, and the bytes they spell.
pub open spec fn bytes_of_hex(s: Seq<char>) -> Option<Seq<u8>> {
    if s.len() == 40 && forall|i: int| 0 <= i < 40 ==> is_hex(#[trigger] s[i]) {
        Some(Seq::new(20, |i: int| (hex_value(s[2 * i]) * 16 + hex_value(s[2 * i + 1])) as u8))
    } else {
        None
    }
}

fn hex_digit(d: u8) -> (c: char)
    requires
        d < 16,
    ensures
        c == hex_char(d as int),
{
    match d {
        0 => '0',
        1 => '1',
        2 => '2',
        3 => '3',
        4 => '4',
        5 => '5',
        6 => '6',
        7 => '7',
        8 => '8',
        9 => '9',
        10 => 'a',
        11 => 'b',
        12 => 'c',
        13 => 'd',
        14 => 'e',
        _ => 'f',
    }
}

fn hex_digit_value(c: char) -> (r: Option<u8>)
    ensures
        r is Some <==> is_hex(c),
        r is Some ==> r->0 as int == hex_value(c) && r->0 < 16,
{
    let code = c as u32;
    if 48 <= code && code <= 57 {
        Some((code - 48) as u8)
    } else if 97 <= code && code <= 102 {
        Some((code - 87) as u8)
    } else if 65 <= code && code <= 70 {
        Some((code - 55) as u8)
    } else {
        None
    }
}

pub proof fn lemma_hex_char(d: int)
    requires
        0 <= d < 16,
    ensures
        is_hex(hex_char(d)),
        hex_value(hex_char(d)) == d,
{
}

/// The hexadecimal form of a byte sequence reads back as that sequence.
pub proof fn lemma_hex_round_trip(b: Seq<u8>)
    requires
        b.len() == 20,
    ensures
        bytes_of_hex(hex_of(b)) == Some(b),
{
    let s = hex_of(b);
    assert forall|i: int| 0 <= i < 40 implies is_hex(#[trigger] s[i]) by {
        if i % 2 == 0 {
            lemma_hex_char(b[i / 2] as int / 16);
        } else {
            lemma_hex_char(b[i / 2] as int % 16);
        }
    }
    let r = Seq::new(20, |i: int| (hex_value(s[2 * i]) * 16 + hex_value(s[2 * i + 1])) as u8);
    assert forall|i: int| 0 <= i < 20 implies r[i] == b[i] by {
        assert((2 * i) % 2 == 0 && (2 * i) / 2 == i);
        assert((2 * i + 1) % 2 == 1 && (2 * i + 1) / 2 == i);
        lemma_hex_char(b[i] as int / 16);
        lemma_hex_char(b[i] as int % 16);
    }
    assert(r =~= b);
}

impl Oid {
    /// The canonical form: forty lower-case hexadecimal digits.
    pub fn to_hex(&self) -> (r: String)
        ensures
            r@ == hex_of(self.bytes@),
    {
        let mut out = String::new();
        let mut i: usize = 0;
        while i < 20
            invariant
                self.bytes@.len() == 20,
                i <= 20,
                out@ == hex_of(self.bytes@.subrange(0, i as int)),
            decreases 20 - i,
        {
            let b = self.bytes[i];
            let ghost before = out@;
            push_char(&mut out, hex_digit(b / 16));
            push_char(&mut out, hex_digit(b % 16));
            assert(out@ =~= hex_of(self.bytes@.subrange(0, i + 1))) by {
                let t = self.bytes@.subrange(0, i + 1);
                assert forall|k: int| 0 <= k < 2 * i implies #[trigger] hex_of(t)[k] == before[k] by {
                    assert(t[k / 2] == self.bytes@.subrange(0, i as int)[k / 2]);
                }
            }
            i += 1;
        }
        assert(self.bytes@.subrange(0, self.bytes@.len() as int) =~= self.bytes@);
        out
    }

    /// Reads forty hexadecimal digits.
    pub fn from_hex(s: &str) -> (r: Option<Oid>)
        ensures
            match bytes_of_hex(s@) {
                Some(b) => r is Some && r->0.bytes@ == b,
                None => r is None,
            },
    {
        if s.unicode_len() != 40 {
            return None;
        }
        let mut bytes: [u8; 20] = [0u8; 20];
        let mut i: usize = 0;
        while i < 20
            invariant
                s@.len() == 40,
                i <= 20,
                bytes@.len() == 20,
                forall|k: int| 0 <= k < 2 * i ==> is_hex(#[trigger] s@[k]),
                forall|k: int| 0 <= k < i ==> (#[trigger] bytes@[k]) == (hex_value(s@[2 * k]) * 16
                    + hex_value(s@[2 * k + 1])) as u8,
            decreases 20 - i,
        {
            let hi = match hex_digit_value(s.get_char(2 * i)) {
                Some(v) => v,
                None => {
                    return None;
                },
            };
            let lo = match hex_digit_value(s.get_char(2 * i + 1)) {
                Some(v) => v,
                None => {
                    return None;
                },
            };
            bytes.set(i, hi * 16 + lo);
            i += 1;
        }
        let r = Oid { bytes };
        assert(r.bytes@ =~= bytes_of_hex(s@)->0);
        Some(r)
    }
}

} // verus!
