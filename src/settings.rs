use vstd::prelude::*;
use vstd::string::StringSliceAdditionalSpecFns;

verus! {

/// The colour value that asks the desktop for its default border colour.
pub const COLOR_DEFAULT: u32 = 0xFFFFFFFF;

/// The value of a lower-case hexadecimal digit; any other byte counts as 0.
pub open spec fn hex_value(c: u8) -> u8 {
    if 48 <= c <= 57 {
        (c - 48) as u8
    } else if 97 <= c <= 102 {
        (c - 97 + 10) as u8
    } else {
        0
    }
}

/// See `hex_value`.
pub fn hex_to_decimal(c: u8) -> (r: u8)
    ensures
        r == hex_value(c),
        r < 16,
{
    if c >= 48 && c <= 57 {
        c - 48
    } else if c >= 97 && c <= 102 {
        c - 97 + 10
    } else {
        0
    }
}

/// The colour written as six hexadecimal digits `rrggbb` at the start of `b`,
/// as the desktop stores it: red in the low byte, then green, then blue.
pub open spec fn colour_of(b: Seq<u8>) -> u32 {
    let r = hex_value(b[0]) * 16 + hex_value(b[1]);
    let g = hex_value(b[2]) * 16 + hex_value(b[3]);
    let bl = hex_value(b[4]) * 16 + hex_value(b[5]);
    (r + g * 256 + bl * 65536) as u32
}

/// See `colour_of`.
pub fn hex_string_to_colorref(s: &str) -> (r: u32)
    requires
        s.spec_bytes().len() >= 6,
    ensures
        r == colour_of(s.spec_bytes()),
{
    let b = s.as_bytes();
    let red = hex_to_decimal(b[0]) as u32 * 16 + hex_to_decimal(b[1]) as u32;
    let green = hex_to_decimal(b[2]) as u32 * 16 + hex_to_decimal(b[3]) as u32;
    let blue = hex_to_decimal(b[4]) as u32 * 16 + hex_to_decimal(b[5]) as u32;
    red + green * 256 + blue * 65536
}

/// Whether every byte of `b` is a space, tab, carriage return or line feed.
pub open spec fn blank(b: Seq<u8>) -> bool {
    forall|i: int| 0 <= i < b.len() ==> (b[i] == 32 || b[i] == 9 || b[i] == 10 || b[i] == 13)
}

fn is_blank_byte(c: u8) -> (r: bool)
    ensures
        r == (c == 32 || c == 9 || c == 10 || c == 13),
{
    c == 32 || c == 9 || c == 10 || c == 13
}

/// A configured border colour: the desktop's default for a blank string or one
/// too short to hold six digits, else the colour its first six digits give.
pub fn parse_border_colour(s: &str) -> (r: u32)
    ensures
        r == if blank(s.spec_bytes()) || s.spec_bytes().len() < 6 {
            COLOR_DEFAULT
        } else {
            colour_of(s.spec_bytes())
        },
{
    let b = s.as_bytes();
    let mut i: usize = 0;
    while i < b.len() && is_blank_byte(b[i])
        invariant
            i <= b@.len(),
            b@ == s.spec_bytes(),
            forall|j: int| 0 <= j < i ==> (b@[j] == 32 || b@[j] == 9 || b@[j] == 10 || b@[j] == 13),
        decreases b@.len() - i,
    {
        i = i + 1;
    }
    if i == b.len() || b.len() < 6 {
        COLOR_DEFAULT
    } else {
        proof {
            assert(!blank(s.spec_bytes())) by {
                assert(!(b@[i as int] == 32 || b@[i as int] == 9 || b@[i as int] == 10 || b@[i as int] == 13));
            }
        }
        hex_string_to_colorref(s)
    }
}

} // verus!
