use vstd::prelude::*;
use crate::cli::{drop_hashes, drop_hashes_exec};
use crate::text::{chars_of, is_ws, trim, trim_seq};

verus! {

/// An opaque color given by its red, green and blue channels.
#[derive(Debug, Clone, Copy, PartialEq, Eq, Structural)]
pub struct Rgb {
    pub r: u8,
    pub g: u8,
    pub b: u8,
}

impl Rgb {
    /// The color with the given channels.
    pub fn from_rgb(r: u8, g: u8, b: u8) -> (c: Rgb)
        ensures
            c == (Rgb { r, g, b }),
    {
        Rgb { r, g, b }
    }
}

/// An ASCII hexadecimal digit, either case.
pub open spec fn is_hex_digit(c: char) -> bool {
    ('0' <= c && c <= '9') || ('a' <= c && c <= 'f') || ('A' <= c && c <= 'F')
}

/// The value of a hexadecimal digit.
pub open spec fn hex_val(c: char) -> int {
    if '0' <= c && c <= '9' {
        c as int - '0' as int
    } else if 'a' <= c && c <= 'f' {
        c as int - 'a' as int + 10
    } else {
        c as int - 'A' as int + 10
    }
}

/// The byte written by the two hexadecimal digits at `i` and `i + 1`.
pub open spec fn hex_byte(t: Seq<char>, i: int) -> int {
    hex_val(t[i]) * 16 + hex_val(t[i + 1])
}

/// What is left of a color text once trimmed and stripped of leading `#`.
pub open spec fn hex_body(s: Seq<char>) -> Seq<char> {
    drop_hashes(trim_seq(s))
}

/// `#rrggbb` (or `rrggbb`, any number of `#`, surrounding whitespace allowed):
/// exactly six hexadecimal digits after the `#`, read as red, green, blue.
pub open spec fn parse_hex_spec(s: Seq<char>) -> Option<Rgb> {
    let t = hex_body(s);
    if t.len() == 6 && forall|i: int| 0 <= i < 6 ==> is_hex_digit(#[trigger] t[i]) {
        Some(Rgb { r: hex_byte(t, 0) as u8, g: hex_byte(t, 2) as u8, b: hex_byte(t, 4) as u8 })
    } else {
        None
    }
}

/// The lowercase hexadecimal digit of `d` (`0 <= d < 16`).
pub open spec fn hex_digit_char(d: int) -> char {
    if d < 10 { ((d + 48) as u32) as char } else { ((d + 87) as u32) as char }
}

/// Two lowercase hexadecimal digits of a byte.
pub open spec fn hex_pair(b: u8) -> Seq<char> {
    seq![hex_digit_char(b as int / 16), hex_digit_char(b as int % 16)]
}

/// `#rrggbb` in lowercase.
pub open spec fn format_hex_spec(c: Rgb) -> Seq<char> {
    seq!['#'] + hex_pair(c.r) + hex_pair(c.g) + hex_pair(c.b)
}

fn hex_digit_value(c: char) -> (r: Option<u8>)
    ensures
        match r {
            Some(v) => is_hex_digit(c) && v == hex_val(c),
            None => !is_hex_digit(c),
        },
{
    let u = c as u32;
    if '0' <= c && c <= '9' {
        Some((u - 48) as u8)
    } else if 'a' <= c && c <= 'f' {
        Some((u - 87) as u8)
    } else if 'A' <= c && c <= 'F' {
        Some((u - 55) as u8)
    } else {
        None
    }
}

/// Parses `#rrggbb` (or `rrggbb`) into an opaque color.
pub fn parse_hex(s: &str) -> (r: Option<Rgb>)
    ensures
        r == parse_hex_spec(s@),
{
    let body = drop_hashes_exec(trim(s));
    let t = chars_of(body.as_str());
    assert(t@ == hex_body(s@));
    if t.len() != 6 {
        return None;
    }
    let mut vals: Vec<u8> = Vec::new();
    let mut i: usize = 0;
    while i < 6
        invariant
            t.len() == 6,
            t@ == hex_body(s@),
            i <= 6,
            vals.len() == i,
            forall|k: int| 0 <= k < i ==> is_hex_digit(#[trigger] t@[k]) && vals@[k] == hex_val(t@[k]),
        decreases 6 - i,
    {
        match hex_digit_value(t[i]) {
            Some(v) => vals.push(v),
            None => {
                assert(!is_hex_digit(hex_body(s@)[i as int]));
                return None;
            },
        }
        i = i + 1;
    }
    let r = vals[0] * 16 + vals[1];
    let g = vals[2] * 16 + vals[3];
    let b = vals[4] * 16 + vals[5];
    Some(Rgb { r, g, b })
}

fn hex_digit(d: u8) -> (c: char)
    requires
        d < 16,
    ensures
        c == hex_digit_char(d as int),
{
    if d < 10 { ((d + 48) as char) } else { ((d + 87) as char) }
}

fn push_hex_pair(out: &mut String, b: u8)
    ensures
        final(out)@ == old(out)@ + hex_pair(b),
{
    out.push(hex_digit(b / 16));
    out.push(hex_digit(b % 16));
    assert(final(out)@ =~= old(out)@ + hex_pair(b));
}

/// Formats an opaque color as `#rrggbb`.
pub fn format_hex(c: Rgb) -> (s: String)
    ensures
        s@ == format_hex_spec(c),
{
    let mut s = String::new();
    s.push('#');
    push_hex_pair(&mut s, c.r);
    push_hex_pair(&mut s, c.g);
    push_hex_pair(&mut s, c.b);
    assert(s@ =~= format_hex_spec(c));
    s
}

proof fn lemma_hex_pair(b: u8)
    ensures
        is_hex_digit(hex_pair(b)[0]),
        is_hex_digit(hex_pair(b)[1]),
        hex_val(hex_pair(b)[0]) * 16 + hex_val(hex_pair(b)[1]) == b,
{
    let hi = b as int / 16;
    let lo = b as int % 16;
    assert(b as int == hi * 16 + lo);
}

/// Reading back a formatted color gives the same color.
pub proof fn lemma_hex_roundtrip(c: Rgb)
    ensures
        parse_hex_spec(format_hex_spec(c)) == Some(c),
{
    let s = format_hex_spec(c);
    lemma_hex_pair(c.r);
    lemma_hex_pair(c.g);
    lemma_hex_pair(c.b);
    let t = s.drop_first();
    assert(t =~= hex_pair(c.r) + hex_pair(c.g) + hex_pair(c.b));
    assert(!is_ws(s[0]));
    assert(!is_ws(s.last())) by {
        assert(s.last() == hex_pair(c.b)[1]);
    }
    crate::text::lemma_trim_noop(s);
    assert(drop_hashes(t) == t) by {
        assert(t[0] == hex_pair(c.r)[0]);
    }
    assert(hex_body(s) == t);
    assert forall|i: int| 0 <= i < 6 implies is_hex_digit(#[trigger] t[i]) by {
        if i < 2 {
            assert(t[i] == hex_pair(c.r)[i]);
        } else if i < 4 {
            assert(t[i] == hex_pair(c.g)[i - 2]);
        } else {
            assert(t[i] == hex_pair(c.b)[i - 4]);
        }
    }
    assert(t[0] == hex_pair(c.r)[0] && t[1] == hex_pair(c.r)[1]);
    assert(t[2] == hex_pair(c.g)[0] && t[3] == hex_pair(c.g)[1]);
    assert(t[4] == hex_pair(c.b)[0] && t[5] == hex_pair(c.b)[1]);
}

} // verus!
