//! Reading characters out of UTF-8 bytes, white space, and trimming.
use vstd::prelude::*;
use vstd::slice::slice_subrange;
use vstd::string::{StrSliceExecFns, StringSliceAdditionalSpecFns};
use vstd::utf8::*;

verus! {

broadcast use vstd::utf8::group_utf8_lib;

/// Whether `c` has the Unicode `White_Space` property.
pub uninterp spec fn white_space(c: char) -> bool;

/// Relies on `char::is_whitespace`: the answer depends on the character alone.
#[verifier::external_body]
pub(crate) fn is_white(c: char) -> (r: bool)
    ensures
        r == white_space(c),
{
    c.is_whitespace()
}

/// Relies on `core::str::from_utf8`: valid UTF-8 is accepted, and the text holds exactly the
/// given bytes.
#[verifier::external_body]
pub(crate) fn utf8_str(b: &[u8]) -> (r: &str)
    requires
        valid_utf8(b@),
    ensures
        r.spec_bytes() == b@,
{
    match core::str::from_utf8(b) {
        Ok(s) => s,
        Err(_) => "",
    }
}

/// `s` without its leading white space characters.
pub open spec fn trim_start_chars(s: Seq<char>) -> Seq<char>
    decreases s.len(),
{
    if s.len() > 0 && white_space(s[0]) {
        trim_start_chars(s.drop_first())
    } else {
        s
    }
}

/// `s` without its trailing white space characters.
pub open spec fn trim_end_chars(s: Seq<char>) -> Seq<char>
    decreases s.len(),
{
    if s.len() > 0 && white_space(s.last()) {
        trim_end_chars(s.drop_last())
    } else {
        s
    }
}

/// `s` without white space characters at either end.
pub open spec fn trim_chars(s: Seq<char>) -> Seq<char> {
    trim_end_chars(trim_start_chars(s))
}

proof fn lemma_trim_start_shape(s: Seq<char>)
    ensures
        trim_start_chars(s).len() == 0 || !white_space(trim_start_chars(s)[0]),
    decreases s.len(),
{
    if s.len() > 0 && white_space(s[0]) {
        lemma_trim_start_shape(s.drop_first());
    }
}

proof fn lemma_trim_end_shape(s: Seq<char>)
    ensures
        trim_end_chars(s).len() <= s.len(),
        trim_end_chars(s) == s.take(trim_end_chars(s).len() as int),
        trim_end_chars(s).len() == 0 || !white_space(trim_end_chars(s).last()),
    decreases s.len(),
{
    if s.len() > 0 && white_space(s.last()) {
        lemma_trim_end_shape(s.drop_last());
        let t = trim_end_chars(s.drop_last());
        assert(s.drop_last().take(t.len() as int) =~= s.take(t.len() as int));
    } else {
        assert(s.take(s.len() as int) =~= s);
    }
}

/// Trimming white space from both ends a second time changes nothing.
pub proof fn lemma_trim_idempotent(s: Seq<char>)
    ensures
        trim_chars(trim_chars(s)) == trim_chars(s),
{
    let t = trim_start_chars(s);
    let u = trim_end_chars(t);
    lemma_trim_start_shape(s);
    lemma_trim_end_shape(t);
    if u.len() > 0 {
        assert(u[0] == t.take(u.len() as int)[0]);
    }
    assert(trim_start_chars(u) == u);
    assert(trim_end_chars(u) == u);
}

/// Number of bytes of the UTF-8 encoding that starts with the leading byte `b`.
fn width_of_lead(b: u8) -> (r: usize)
    ensures
        is_leading_byte_width_1(b) ==> r == 1,
        is_leading_byte_width_2(b) ==> r == 2,
        is_leading_byte_width_3(b) ==> r == 3,
        is_leading_byte_width_4(b) ==> r == 4,
{
    if b <= 0x7f {
        1
    } else if b <= 0xdf {
        2
    } else if b <= 0xef {
        3
    } else {
        4
    }
}

/// Decodes the one character whose encoding is exactly `b[from..to]`.
fn decode_one(b: &[u8], from: usize, to: usize) -> (c: char)
    requires
        from < to <= b@.len(),
        valid_utf8(b@.subrange(from as int, to as int)),
        length_of_first_scalar(b@.subrange(from as int, to as int)) == to - from,
    ensures
        decode_utf8(b@.subrange(from as int, to as int)) == seq![c],
{
    let piece = slice_subrange(b, from, to);
    let s = utf8_str(piece);
    proof {
        let t = b@.subrange(from as int, to as int);
        assert(piece@ =~= t);
        assert(pop_first_scalar(t) =~= Seq::<u8>::empty());
        reveal_with_fuel(decode_utf8, 2);
        assert(decode_utf8(t) =~= seq![decode_first_scalar(t) as char]);
        assert(s@ == decode_utf8(t));
    }
    s.get_char(0)
}

/// The first character of valid UTF-8 `b[i..end]` and the width of its encoding.
pub(crate) fn first_char(b: &[u8], i: usize, end: usize) -> (r: (usize, char))
    requires
        i < end <= b@.len(),
        valid_utf8(b@.subrange(i as int, end as int)),
    ensures
        0 < r.0 <= end - i,
        valid_utf8(b@.subrange(i + r.0, end as int)),
        decode_utf8(b@.subrange(i as int, end as int)) == seq![r.1] + decode_utf8(
            b@.subrange(i + r.0, end as int),
        ),
{
    let ghost t = b@.subrange(i as int, end as int);
    let w = width_of_lead(b[i]);
    proof {
        assert(t[0] == b@[i as int]);
        assert(w == length_of_first_scalar(t));
        let sub = b@.subrange(i as int, i + w);
        assert(sub =~= take_first_scalar(t));
        decode_utf8_first_scalar(t);
        let x = decode_first_scalar(t) as char;
        assert(seq![x].drop_first() =~= Seq::<char>::empty());
        reveal_with_fuel(encode_utf8, 2);
        assert(encode_utf8(seq![x]) =~= encode_scalar(x as u32));
        assert(sub == encode_utf8(seq![x]));
        assert(sub[0] == t[0]);
        assert(pop_first_scalar(t) =~= b@.subrange(i + w, end as int));
    }
    let c = decode_one(b, i, i + w);
    proof {
        let sub = b@.subrange(i as int, i + w);
        let x = decode_first_scalar(t) as char;
        assert(decode_utf8(encode_utf8(seq![x])) == seq![x]);
        assert(c == x);
    }
    (w, c)
}

/// A non-empty valid encoding whose bytes after the first are all continuation bytes holds
/// exactly one character.
proof fn lemma_single_scalar(t: Seq<u8>)
    requires
        valid_utf8(t),
        t.len() > 0,
        forall|m: int| 0 < m < t.len() ==> is_continuation_byte(#[trigger] t[m]),
    ensures
        length_of_first_scalar(t) == t.len(),
{
    let w = length_of_first_scalar(t);
    assert(valid_first_scalar(t));
    assert(w <= t.len());
    if w < t.len() {
        let rest = pop_first_scalar(t);
        assert(valid_utf8(rest));
        assert(valid_first_scalar(rest));
        assert(rest[0] == t[w]);
        assert(is_continuation_byte(t[w]));
    }
}

/// The last character of valid UTF-8 `b[lo..j]` and the offset where its encoding starts.
pub(crate) fn last_char(b: &[u8], lo: usize, j: usize) -> (r: (usize, char))
    requires
        lo < j <= b@.len(),
        valid_utf8(b@.subrange(lo as int, j as int)),
    ensures
        lo <= r.0 < j,
        valid_utf8(b@.subrange(lo as int, r.0 as int)),
        decode_utf8(b@.subrange(lo as int, j as int)) == decode_utf8(
            b@.subrange(lo as int, r.0 as int),
        ) + seq![r.1],
{
    let ghost s = b@.subrange(lo as int, j as int);
    proof {
        is_char_boundary_start_end_of_seq(s);
        is_char_boundary_iff_not_is_continuation_byte(s, 0);
        assert(s[0] == b@[lo as int]);
    }
    let mut k = j - 1;
    while 0x80 <= b[k] && b[k] <= 0xbf
        invariant
            lo <= k < j <= b@.len(),
            s == b@.subrange(lo as int, j as int),
            !is_continuation_byte(b@[lo as int]),
            forall|m: int| k < m < j ==> is_continuation_byte(#[trigger] b@[m]),
        decreases k,
    {
        k = k - 1;
    }
    let ghost kk = k - lo;
    proof {
        assert(s[kk] == b@[k as int]);
        is_char_boundary_iff_not_is_continuation_byte(s, kk);
        valid_utf8_split(s, kk);
        decode_utf8_split(s, kk);
        assert(s.subrange(0, kk) =~= b@.subrange(lo as int, k as int));
        assert(s.subrange(kk, s.len() as int) =~= b@.subrange(k as int, j as int));
        let t = b@.subrange(k as int, j as int);
        assert forall|m: int| 0 < m < t.len() implies is_continuation_byte(#[trigger] t[m]) by {
            assert(t[m] == b@[k + m]);
        }
        lemma_single_scalar(t);
    }
    let c = decode_one(b, k, j);
    (k, c)
}

} // verus!
