//! Colors written as `#rrggbb` or `#rrggbbaa`: reading the channel bytes out
//! of such text and writing bytes back. Turning bytes into float channels is
//! left to the caller.
use vstd::prelude::*;
use vstd::string::*;

verus! {

pub open spec fn hex_digit_value(c: char) -> Option<u8> {
    if '0' <= c <= '9' {
        Some((c as int - '0' as int) as u8)
    } else if 'a' <= c <= 'f' {
        Some((c as int - 'a' as int + 10) as u8)
    } else if 'A' <= c <= 'F' {
        Some((c as int - 'A' as int + 10) as u8)
    } else {
        None
    }
}

/// The byte that two characters spell in base 16; a leading `+` sign is
/// allowed before a single digit.
pub open spec fn hex_pair(a: char, b: char) -> Option<u8> {
    match (hex_digit_value(a), hex_digit_value(b)) {
        (Some(x), Some(y)) => Some((16 * x + y) as u8),
        (None, Some(y)) => if a == '+' {
            Some(y)
        } else {
            None
        },
        _ => None,
    }
}

/// `s` without its leading `#` characters.
pub open spec fn strip_hashes(s: Seq<char>) -> Seq<char>
    decreases s.len(),
{
    if s.len() > 0 && s[0] == '#' {
        strip_hashes(s.drop_first())
    } else {
        s
    }
}

pub open spec fn byte_or(v: Option<u8>, default: u8) -> u8 {
    match v {
        Some(b) => b,
        None => default,
    }
}

/// The channel bytes of a hex color: after the leading `#`s, six or eight
/// ASCII characters, read in pairs; a pair that is no number reads as 0 (or
/// 255 for alpha), and a missing alpha is 255. `None` for any other text.
pub open spec fn hex_channels(s: Seq<char>) -> Option<(u8, u8, u8, u8)> {
    let h = strip_hashes(s);
    if (h.len() == 6 || h.len() == 8) && (forall|i: int| 0 <= i < h.len() ==> (#[trigger] h[i] as int) < 128) {
        Some((
            byte_or(hex_pair(h[0], h[1]), 0),
            byte_or(hex_pair(h[2], h[3]), 0),
            byte_or(hex_pair(h[4], h[5]), 0),
            if h.len() == 8 {
                byte_or(hex_pair(h[6], h[7]), 255)
            } else {
                255
            },
        ))
    } else {
        None
    }
}

pub open spec fn hex_char(d: u8) -> char {
    if d < 10 {
        (d + '0' as u8) as char
    } else {
        (d - 10 + 'a' as u8) as char
    }
}

/// `#` and two lowercase hex digits per byte.
pub open spec fn hex_text(r: u8, g: u8, b: u8, a: u8) -> Seq<char> {
    seq!['#', hex_char(r / 16), hex_char(r % 16), hex_char(g / 16), hex_char(g % 16), hex_char(b / 16), hex_char(b % 16), hex_char(a / 16), hex_char(a % 16)]
}

fn digit_value(c: char) -> (r: Option<u8>)
    ensures
        r == hex_digit_value(c),
{
    if '0' <= c && c <= '9' {
        Some((c as u32 - '0' as u32) as u8)
    } else if 'a' <= c && c <= 'f' {
        Some((c as u32 - 'a' as u32 + 10) as u8)
    } else if 'A' <= c && c <= 'F' {
        Some((c as u32 - 'A' as u32 + 10) as u8)
    } else {
        None
    }
}

fn pair(a: char, b: char, default: u8) -> (r: u8)
    ensures
        r == byte_or(hex_pair(a, b), default),
{
    match (digit_value(a), digit_value(b)) {
        (Some(x), Some(y)) => 16 * x + y,
        (None, Some(y)) => if a == '+' {
            y
        } else {
            default
        },
        _ => default,
    }
}

/// Reads the channel bytes of a hex color (see `hex_channels`).
pub fn parse_hex_channels(hex: &str) -> (r: Option<(u8, u8, u8, u8)>)
    ensures
        r == hex_channels(hex@),
{
    let n = hex.unicode_len();
    let mut start: usize = 0;
    assert(hex@.skip(0) == hex@);
    while start < n && hex.get_char(start) == '#'
        invariant
            start <= n == hex@.len(),
            strip_hashes(hex@) == strip_hashes(hex@.skip(start as int)),
        decreases n - start,
    {
        assert(hex@.skip(start as int).drop_first() == hex@.skip(start + 1));
        start = start + 1;
    }
    let ghost h = hex@.skip(start as int);
    assert(strip_hashes(h) == h);
    let len = n - start;
    if len != 6 && len != 8 {
        return None;
    }
    let mut i: usize = start;
    while i < n
        invariant
            start <= i <= n == hex@.len(),
            h == hex@.skip(start as int),
            strip_hashes(hex@) == h,
            len == h.len(),
            len == 6 || len == 8,
            forall|j: int| 0 <= j < i - start ==> (#[trigger] h[j] as int) < 128,
        decreases n - i,
    {
        let ch = hex.get_char(i);
        assert(h[i - start] == ch);
        if ch as u32 >= 128 {
            assert((h[i - start] as int) >= 128);
            assert(!(forall|j: int| 0 <= j < h.len() ==> (#[trigger] h[j] as int) < 128));
            return None;
        }
        i = i + 1;
    }
    proof {
        assert forall|k: int| 0 <= k < len implies h[k] == hex@[start + k] by {}
    }
    let r = pair(hex.get_char(start), hex.get_char(start + 1), 0);
    let g = pair(hex.get_char(start + 2), hex.get_char(start + 3), 0);
    let b = pair(hex.get_char(start + 4), hex.get_char(start + 5), 0);
    let a = if len == 8 {
        pair(hex.get_char(start + 6), hex.get_char(start + 7), 255)
    } else {
        255
    };
    Some((r, g, b, a))
}

fn hex_char_text(d: u8) -> (r: &'static str)
    requires
        d < 16,
    ensures
        r@ == seq![hex_char(d)],
{
    proof {
        reveal_strlit("0");
        reveal_strlit("1");
        reveal_strlit("2");
        reveal_strlit("3");
        reveal_strlit("4");
        reveal_strlit("5");
        reveal_strlit("6");
        reveal_strlit("7");
        reveal_strlit("8");
        reveal_strlit("9");
        reveal_strlit("a");
        reveal_strlit("b");
        reveal_strlit("c");
        reveal_strlit("d");
        reveal_strlit("e");
        reveal_strlit("f");
    }
    if d == 0 { "0" }
    else if d == 1 { "1" }
    else if d == 2 { "2" }
    else if d == 3 { "3" }
    else if d == 4 { "4" }
    else if d == 5 { "5" }
    else if d == 6 { "6" }
    else if d == 7 { "7" }
    else if d == 8 { "8" }
    else if d == 9 { "9" }
    else if d == 10 { "a" }
    else if d == 11 { "b" }
    else if d == 12 { "c" }
    else if d == 13 { "d" }
    else if d == 14 { "e" }
    else { "f" }
}

/// Writes channel bytes as `#rrggbbaa` in lowercase.
pub fn hex_of_channels(r: u8, g: u8, b: u8, a: u8) -> (t: String)
    ensures
        t@ == hex_text(r, g, b, a),
{
    proof {
        reveal_strlit("#");
    }
    let mut t = String::from_str("#");
    t.append(hex_char_text(r / 16));
    t.append(hex_char_text(r % 16));
    t.append(hex_char_text(g / 16));
    t.append(hex_char_text(g % 16));
    t.append(hex_char_text(b / 16));
    t.append(hex_char_text(b % 16));
    t.append(hex_char_text(a / 16));
    t.append(hex_char_text(a % 16));
    t
}

} // verus!
