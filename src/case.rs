//! ASCII case conversion of bytes, and why it keeps UTF-8 valid.
use vstd::prelude::*;
use vstd::utf8::*;

verus! {

/// ASCII lower case of a byte: `A`..=`Z` become `a`..=`z`, every other byte stays.
pub open spec fn ascii_lower(b: u8) -> u8 {
    if 0x41 <= b <= 0x5a {
        (b + 0x20) as u8
    } else {
        b
    }
}

/// ASCII upper case of a byte: `a`..=`z` become `A`..=`Z`, every other byte stays.
pub open spec fn ascii_upper(b: u8) -> u8 {
    if 0x61 <= b <= 0x7a {
        (b - 0x20) as u8
    } else {
        b
    }
}

/// One byte converted to ASCII upper (`upper`) or lower case.
pub open spec fn ascii_case(b: u8, upper: bool) -> u8 {
    if upper {
        ascii_upper(b)
    } else {
        ascii_lower(b)
    }
}

/// Every byte of `s` converted to ASCII upper (`upper`) or lower case.
pub open spec fn map_case(s: Seq<u8>, upper: bool) -> Seq<u8> {
    Seq::new(s.len(), |i: int| ascii_case(s[i], upper))
}

/// Converts one byte to ASCII upper (`upper`) or lower case.
pub fn to_ascii_case(b: u8, upper: bool) -> (r: u8)
    ensures
        r == ascii_case(b, upper),
{
    if upper {
        if 0x61 <= b && b <= 0x7a {
            b - 0x20
        } else {
            b
        }
    } else {
        if 0x41 <= b && b <= 0x5a {
            b + 0x20
        } else {
            b
        }
    }
}

proof fn lemma_low_bits(b: u8)
    requires
        b <= 0x7f,
    ensures
        (b & 0x7f) as u32 <= 0x7f,
{
    assert((b & 0x7f) <= 0x7f) by (bit_vector);
}

/// Converting the ASCII letters of valid UTF-8 leaves it valid UTF-8: every byte of a
/// multi-byte character is outside the ASCII range and stays as it is.
pub proof fn lemma_map_case_valid(s: Seq<u8>, upper: bool)
    requires
        valid_utf8(s),
    ensures
        valid_utf8(map_case(s, upper)),
    decreases s.len(),
{
    if s.len() > 0 {
        let m = map_case(s, upper);
        let w = length_of_first_scalar(s);
        if is_leading_byte_width_1(s[0]) {
            lemma_low_bits(m[0]);
        } else {
            assert(m.subrange(0, w) =~= s.subrange(0, w));
        }
        assert(pop_first_scalar(m) =~= map_case(pop_first_scalar(s), upper));
        lemma_map_case_valid(pop_first_scalar(s), upper);
    }
}

} // verus!
