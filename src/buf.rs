//! The buffer type and its operations.
use vstd::prelude::*;
use vstd::slice::slice_subrange;
use vstd::string::StringSliceAdditionalSpecFns;
use vstd::utf8::*;

use crate::case::{lemma_map_case_valid, map_case, to_ascii_case};
use crate::chars::{
    first_char, is_white, last_char, trim_chars, trim_end_chars, trim_start_chars, utf8_str,
};
use crate::layout::{le_value, marker_width, CAPACITY_U16, CAPACITY_U8};

verus! {

broadcast use vstd::array::group_array_axioms, vstd::utf8::group_utf8_lib;

/// `k` is the longest prefix length of `s`, at most `room`, that ends on a character boundary.
pub open spec fn longest_fit(s: Seq<u8>, room: int, k: int) -> bool {
    &&& 0 <= k <= s.len()
    &&& k <= room
    &&& is_char_boundary(s, k)
    &&& forall|j: int| k < j <= s.len() && j <= room ==> !is_char_boundary(s, j)
}

/// Error returned when text does not fit in a buffer.
#[derive(Debug, Clone, Copy, PartialEq, Eq, Structural)]
pub enum StrBufError {
    /// Not enough space for the text.
    Overflow,
}

/// A UTF-8 string held in `N` bytes of inline storage.
///
/// The first bytes of the storage hold the content length in little-endian order
/// (none when `N` is 0, one byte up to 256, two bytes up to 65537, eight bytes beyond);
/// the content follows.
#[derive(Clone, Copy, Debug)]
pub struct StrBuf<const N: usize> {
    inner: [u8; N],
}

impl<const N: usize> View for StrBuf<N> {
    type V = Seq<u8>;

    /// The content bytes: the first `shown_len` bytes after the length marker.
    open spec fn view(&self) -> Seq<u8> {
        self.data().take(self.shown_len() as int)
    }
}

impl<const N: usize> StrBuf<N> {
    /// Width of the length marker in this buffer's storage.
    pub open spec fn marker() -> nat {
        marker_width(N as nat)
    }

    /// Largest number of content bytes.
    pub open spec fn cap() -> nat {
        (N - Self::marker()) as nat
    }

    /// The bytes of the storage array, length marker included.
    pub closed spec fn storage(&self) -> Seq<u8> {
        self.inner@
    }

    /// Content length recorded in the length marker.
    pub open spec fn stored_len(&self) -> nat {
        le_value(self.storage(), Self::marker())
    }

    /// Content length: the recorded length, at most the capacity.
    pub open spec fn shown_len(&self) -> nat {
        if self.stored_len() <= Self::cap() {
            self.stored_len()
        } else {
            Self::cap()
        }
    }

    /// The storage bytes that follow the length marker.
    pub open spec fn data(&self) -> Seq<u8> {
        self.storage().subrange(Self::marker() as int, N as int)
    }

    /// Well-formedness: the recorded length fits the capacity and the content is valid UTF-8.
    pub open spec fn wf(&self) -> bool {
        &&& self.stored_len() <= Self::cap()
        &&& valid_utf8(self@)
    }

    /// The content decoded as characters.
    pub open spec fn text(&self) -> Seq<char> {
        decode_utf8(self@)
    }

    /// Returns the width of the length marker.
    pub fn len_offset() -> (r: usize)
        ensures
            r == Self::marker(),
    {
        if N == 0 {
            0
        } else if N <= CAPACITY_U8 {
            1
        } else if N <= CAPACITY_U16 {
            2
        } else {
            8
        }
    }

    /// Returns the largest number of content bytes the buffer can hold.
    pub fn capacity() -> (r: usize)
        ensures
            r == Self::cap(),
    {
        N - Self::len_offset()
    }

    /// Returns the number of content bytes.
    pub fn len(&self) -> (r: usize)
        ensures
            r == self@.len(),
    {
        let cap = Self::capacity();
        let v: u64 = if N == 0 {
            0
        } else if N <= CAPACITY_U8 {
            self.inner[0] as u64
        } else if N <= CAPACITY_U16 {
            self.inner[0] as u64 + 0x100 * (self.inner[1] as u64)
        } else {
            let a = &self.inner;
            a[0] as u64 + 0x100 * (a[1] as u64) + 0x1_0000 * (a[2] as u64) + 0x100_0000 * (
            a[3] as u64) + 0x1_0000_0000 * (a[4] as u64) + 0x100_0000_0000 * (a[5] as u64)
                + 0x1_0000_0000_0000 * (a[6] as u64) + 0x100_0000_0000_0000 * (a[7] as u64)
        };
        if v > cap as u64 {
            cap
        } else {
            v as usize
        }
    }

    /// Returns the number of bytes that can still be written.
    pub fn remaining(&self) -> (r: usize)
        ensures
            r == Self::cap() - self@.len(),
    {
        Self::capacity() - self.len()
    }

    /// Creates an empty buffer.
    pub fn new() -> (r: Self)
        ensures
            r.wf(),
            r@ == Seq::<u8>::empty(),
    {
        let mut r = StrBuf { inner: [0u8; N] };
        r.write_len(0);
        proof {
            assert(r@ =~= Seq::<u8>::empty());
        }
        r
    }

    /// Creates a buffer over `storage`, whose length marker and content must be well formed.
    pub fn from_storage(storage: [u8; N]) -> (r: Self)
        requires
            le_value(storage@, Self::marker()) <= Self::cap(),
            valid_utf8(
                storage@.subrange(Self::marker() as int, N as int).take(
                    le_value(storage@, Self::marker()) as int,
                ),
            ),
        ensures
            r.wf(),
            r.storage() == storage@,
    {
        StrBuf { inner: storage }
    }

    /// Creates a buffer holding `text`.
    pub fn from_str(text: &str) -> (r: Self)
        requires
            text.spec_bytes().len() <= Self::cap(),
        ensures
            r.wf(),
            r@ == text.spec_bytes(),
            r.text() == text@,
    {
        let mut r = Self::new();
        r.push_str_unchecked(text);
        r
    }

    /// Creates a buffer holding `text`, or reports that it does not fit.
    pub fn from_str_checked(text: &str) -> (r: Result<Self, StrBufError>)
        ensures
            text.spec_bytes().len() <= Self::cap() <==> r is Ok,
            r matches Ok(b) ==> b.wf() && b@ == text.spec_bytes() && b.text() == text@,
            r matches Err(e) ==> e == StrBufError::Overflow,
    {
        if text.as_bytes().len() <= Self::capacity() {
            Ok(Self::from_str(text))
        } else {
            Err(StrBufError::Overflow)
        }
    }

    /// Returns the content byte at `idx`, if there is one.
    pub fn get(&self, idx: usize) -> (r: Option<u8>)
        ensures
            r == if idx < self@.len() { Some(self@[idx as int]) } else { None::<u8> },
    {
        if idx < self.len() {
            Some(self.inner[Self::len_offset() + idx])
        } else {
            None
        }
    }

    /// Returns the content byte at `idx`, which must be below the length.
    pub fn get_unchecked(&self, idx: usize) -> (r: u8)
        requires
            idx < self@.len(),
        ensures
            r == self@[idx as int],
    {
        self.inner[Self::len_offset() + idx]
    }

    /// Returns the storage array as it is, length marker included.
    pub fn as_storage(&self) -> (r: &[u8; N])
        ensures
            r@ == self.storage(),
    {
        &self.inner
    }

    /// Returns the storage array for writing, length marker included.
    pub fn as_mut_storage(&mut self) -> (r: &mut [u8; N])
        ensures
            r@ == old(self).storage(),
            final(self).storage() == final(r)@,
    {
        &mut self.inner
    }

    /// Returns the content bytes.
    pub fn as_slice(&self) -> (r: &[u8])
        ensures
            r@ == self@,
    {
        let off = Self::len_offset();
        let len = self.len();
        let all = vstd::array::array_as_slice(&self.inner);
        let r = slice_subrange(all, off, off + len);
        proof {
            assert(r@ =~= self@);
        }
        r
    }

    /// Returns the content bytes for writing; the length marker stays as it is.
    pub fn as_mut_slice(&mut self) -> (r: &mut [u8])
        ensures
            r@ == old(self)@,
            final(self).storage() == old(self).storage().take(Self::marker() as int) + final(r)@
                + old(self).storage().skip((Self::marker() + old(self)@.len()) as int),
    {
        let off = Self::len_offset();
        let len = self.len();
        let all = vstd::array::ref_mut_array_unsizing_coercion(&mut self.inner);
        let (_, after_marker) = all.split_at_mut(off);
        let (content, _) = after_marker.split_at_mut(len);
        content
    }

    /// Returns the storage after the content, for writing; the content and the length marker
    /// stay as they are.
    pub fn as_write_slice(&mut self) -> (r: &mut [u8])
        ensures
            r@ == old(self).data().skip(old(self)@.len() as int),
            final(self).storage() == old(self).storage().take((Self::marker() + old(self)@.len()) as int)
                + final(r)@,
            final(self)@ == old(self)@,
            old(self).wf() ==> final(self).wf(),
    {
        let start = Self::len_offset() + self.len();
        let all = vstd::array::ref_mut_array_unsizing_coercion(&mut self.inner);
        let (_, rest) = all.split_at_mut(start);
        rest
    }

    /// Returns the content as text.
    pub fn as_str(&self) -> (r: &str)
        requires
            self.wf(),
        ensures
            r.spec_bytes() == self@,
            r@ == self.text(),
    {
        utf8_str(self.as_slice())
    }

    /// Records `len` in the length marker, leaving the bytes after it untouched.
    fn write_len(&mut self, len: usize)
        requires
            len <= Self::cap(),
        ensures
            final(self).stored_len() == len,
            final(self).data() == old(self).data(),
    {
        let ghost d = self.data();
        if N == 0 {
        } else if N <= CAPACITY_U8 {
            self.inner[0] = len as u8;
        } else if N <= CAPACITY_U16 {
            self.inner[0] = (len % 256) as u8;
            self.inner[1] = (len / 256) as u8;
        } else {
            let v0: u64 = len as u64;
            let v1 = v0 / 256;
            let v2 = v1 / 256;
            let v3 = v2 / 256;
            let v4 = v3 / 256;
            let v5 = v4 / 256;
            let v6 = v5 / 256;
            let v7 = v6 / 256;
            self.inner[0] = (v0 % 256) as u8;
            self.inner[1] = (v1 % 256) as u8;
            self.inner[2] = (v2 % 256) as u8;
            self.inner[3] = (v3 % 256) as u8;
            self.inner[4] = (v4 % 256) as u8;
            self.inner[5] = (v5 % 256) as u8;
            self.inner[6] = (v6 % 256) as u8;
            self.inner[7] = (v7 % 256) as u8;
            assert(v7 < 256);
        }
        assert(self.data() =~= d);
    }

    /// Sets the content length to `len`; the first `len` bytes after the marker must be valid
    /// UTF-8.
    pub fn set_len(&mut self, len: usize)
        requires
            len <= Self::cap(),
            valid_utf8(old(self).data().take(len as int)),
        ensures
            final(self).wf(),
            final(self)@ == old(self).data().take(len as int),
            final(self).data() == old(self).data(),
    {
        self.write_len(len);
    }

    /// Removes all content.
    pub fn clear(&mut self)
        requires
            old(self).wf(),
        ensures
            final(self).wf(),
            final(self)@.len() == 0,
            final(self).text() == Seq::<char>::empty(),
    {
        self.write_len(0);
    }

    /// Returns the buffer with its content removed.
    pub fn empty(self) -> (r: Self)
        requires
            self.wf(),
        ensures
            r.wf(),
            r@.len() == 0,
    {
        let mut r = self;
        r.clear();
        r
    }

    /// Keeps the first `len` content bytes; does nothing unless `len` is below the length.
    pub fn truncate(&mut self, len: usize)
        requires
            old(self).wf(),
            len < old(self)@.len() ==> is_char_boundary(old(self)@, len as int),
        ensures
            final(self).wf(),
            final(self)@ == if len < old(self)@.len() { old(self)@.take(len as int) } else { old(self)@ },
    {
        if len < self.len() {
            proof {
                valid_utf8_split(self@, len as int);
                assert(self.data().take(len as int) =~= self@.take(len as int));
            }
            self.set_len(len);
        }
    }

    /// Writes `bytes[0..count]` into the content area at offset `at`; nothing else changes.
    fn copy_in(&mut self, at: usize, bytes: &[u8], count: usize)
        requires
            at + count <= Self::cap(),
            count <= bytes@.len(),
        ensures
            final(self).stored_len() == old(self).stored_len(),
            final(self).data() == old(self).data().subrange(0, at as int) + bytes@.subrange(
                0,
                count as int,
            ) + old(self).data().subrange(at + count, Self::cap() as int),
    {
        let off = Self::len_offset();
        let ghost d = self.data();
        let mut i: usize = 0;
        while i < count
            invariant
                off == Self::marker(),
                at + count <= Self::cap(),
                count <= bytes@.len(),
                i <= count,
                d.len() == Self::cap(),
                self.stored_len() == old(self).stored_len(),
                self.data() =~= d.subrange(0, at as int) + bytes@.subrange(0, i as int)
                    + d.subrange(at + i, Self::cap() as int),
            decreases count - i,
        {
            let ghost prev = self.data();
            self.inner[off + at + i] = bytes[i];
            assert(self.data() =~= prev.update(at + i, bytes@[i as int]));
            assert(self.data() =~= d.subrange(0, at as int) + bytes@.subrange(0, i + 1)
                + d.subrange(at + i + 1, Self::cap() as int));
            i = i + 1;
        }
    }

    /// Appends `bytes[0..count]`, which must be valid UTF-8 and fit.
    fn append_bytes(&mut self, bytes: &[u8], count: usize)
        requires
            old(self).wf(),
            count <= bytes@.len(),
            old(self)@.len() + count <= Self::cap(),
            valid_utf8(bytes@.take(count as int)),
        ensures
            final(self).wf(),
            final(self)@ == old(self)@ + bytes@.take(count as int),
    {
        let len = self.len();
        self.copy_in(len, bytes, count);
        self.write_len(len + count);
        proof {
            assert(self@ =~= old(self)@ + bytes@.take(count as int));
        }
    }

    /// Appends all of `text`, which must fit.
    pub fn push_str_unchecked(&mut self, text: &str)
        requires
            old(self).wf(),
            old(self)@.len() + text.spec_bytes().len() <= Self::cap(),
        ensures
            final(self).wf(),
            final(self)@ == old(self)@ + text.spec_bytes(),
    {
        let bytes = text.as_bytes();
        proof {
            assert(bytes@.take(bytes@.len() as int) =~= bytes@);
        }
        self.append_bytes(bytes, bytes.len());
    }

    /// Appends the longest prefix of `text` that fits in the remaining space and ends on a
    /// character boundary of `text`; returns the number of bytes written.
    pub fn push_str(&mut self, text: &str) -> (r: usize)
        requires
            old(self).wf(),
        ensures
            final(self).wf(),
            longest_fit(text.spec_bytes(), Self::cap() - old(self)@.len(), r as int),
            final(self)@ == old(self)@ + text.spec_bytes().take(r as int),
    {
        let bytes = text.as_bytes();
        let rem = self.remaining();
        let mut size = if bytes.len() < rem {
            bytes.len()
        } else {
            rem
        };
        if !text.is_char_boundary(size) {
            size = boundary_at_or_below(text, size - 1);
        }
        proof {
            valid_utf8_split(bytes@, size as int);
        }
        self.append_bytes(bytes, size);
        size
    }

    /// Appends as much of `text` as `push_str` does; fails with `Overflow` when not all of it
    /// fit, keeping what was written.
    pub fn write_str(&mut self, text: &str) -> (r: Result<(), StrBufError>)
        requires
            old(self).wf(),
        ensures
            final(self).wf(),
            longest_fit(
                text.spec_bytes(),
                Self::cap() - old(self)@.len(),
                final(self)@.len() - old(self)@.len(),
            ),
            final(self)@ == old(self)@ + text.spec_bytes().take(
                final(self)@.len() - old(self)@.len(),
            ),
            r is Ok <==> old(self)@.len() + text.spec_bytes().len() <= Self::cap(),
            r matches Err(e) ==> e == StrBufError::Overflow,
    {
        let written = self.push_str(text);
        proof {
            is_char_boundary_start_end_of_seq(text.spec_bytes());
        }
        if written == text.as_bytes().len() {
            Ok(())
        } else {
            Err(StrBufError::Overflow)
        }
    }

    /// Appends all of `text` when it fits; otherwise fails with `Overflow` and changes nothing.
    pub fn push_str_exact(&mut self, text: &str) -> (r: Result<(), StrBufError>)
        requires
            old(self).wf(),
        ensures
            final(self).wf(),
            r is Ok <==> old(self)@.len() + text.spec_bytes().len() <= Self::cap(),
            r is Ok ==> final(self)@ == old(self)@ + text.spec_bytes(),
            r matches Err(e) ==> e == StrBufError::Overflow && final(self)@ == old(self)@,
    {
        if self.remaining() < text.as_bytes().len() {
            Err(StrBufError::Overflow)
        } else {
            self.push_str_unchecked(text);
            Ok(())
        }
    }

    /// Returns the buffer with `text` appended; `text` must fit.
    pub fn and(self, text: &str) -> (r: Self)
        requires
            self.wf(),
            self@.len() + text.spec_bytes().len() <= Self::cap(),
        ensures
            r.wf(),
            r@ == self@ + text.spec_bytes(),
    {
        self.and_unsafe(text.as_bytes())
    }

    /// Returns the buffer with `bytes` appended; `bytes` must be valid UTF-8 and fit.
    pub fn and_unsafe(self, bytes: &[u8]) -> (r: Self)
        requires
            self.wf(),
            valid_utf8(bytes@),
            self@.len() + bytes@.len() <= Self::cap(),
        ensures
            r.wf(),
            r@ == self@ + bytes@,
    {
        let mut r = self;
        proof {
            assert(bytes@.take(bytes@.len() as int) =~= bytes@);
        }
        r.append_bytes(bytes, bytes.len());
        r
    }

    /// Converts every content byte to ASCII upper (`upper`) or lower case.
    fn convert_case(&mut self, upper: bool)
        requires
            old(self).wf(),
        ensures
            final(self).wf(),
            final(self)@ == map_case(old(self)@, upper),
    {
        let off = Self::len_offset();
        let len = self.len();
        let ghost d = self.data();
        let mut i: usize = 0;
        while i < len
            invariant
                off == Self::marker(),
                len == old(self)@.len(),
                len <= Self::cap(),
                i <= len,
                d == old(self).data(),
                d.len() == Self::cap(),
                self.stored_len() == old(self).stored_len(),
                self.data() =~= map_case(d.take(i as int), upper) + d.skip(i as int),
            decreases len - i,
        {
            let ghost prev = self.data();
            let b = self.inner[off + i];
            assert(prev[i as int] == d[i as int]);
            assert(b == prev[i as int]);
            let c = to_ascii_case(b, upper);
            self.inner[off + i] = c;
            assert(self.data() =~= prev.update(i as int, c));
            i = i + 1;
            assert(self.data() =~= map_case(d.take(i as int), upper) + d.skip(i as int));
        }
        proof {
            assert(self@ =~= map_case(old(self)@, upper));
            lemma_map_case_valid(old(self)@, upper);
        }
    }

    /// Returns the buffer with its content converted to ASCII lower case.
    pub fn into_ascii_lowercase(self) -> (r: Self)
        requires
            self.wf(),
        ensures
            r.wf(),
            r@ == map_case(self@, false),
    {
        let mut r = self;
        r.convert_case(false);
        r
    }

    /// Converts the content to ASCII lower case in place.
    pub fn make_ascii_lowercase(&mut self)
        requires
            old(self).wf(),
        ensures
            final(self).wf(),
            final(self)@ == map_case(old(self)@, false),
    {
        self.convert_case(false);
    }

    /// Returns the buffer with its content converted to ASCII upper case.
    pub fn into_ascii_uppercase(self) -> (r: Self)
        requires
            self.wf(),
        ensures
            r.wf(),
            r@ == map_case(self@, true),
    {
        let mut r = self;
        r.convert_case(true);
        r
    }

    /// Converts the content to ASCII upper case in place.
    pub fn make_ascii_uppercase(&mut self)
        requires
            old(self).wf(),
        ensures
            final(self).wf(),
            final(self)@ == map_case(old(self)@, true),
    {
        self.convert_case(true);
    }

    /// Removes the last character and returns it, or returns `None` when the buffer is empty.
    pub fn pop(&mut self) -> (r: Option<char>)
        requires
            old(self).wf(),
        ensures
            final(self).wf(),
            old(self)@.len() == 0 ==> r is None && final(self)@ == old(self)@,
            old(self)@.len() > 0 ==> r == Some(old(self).text().last()) && final(self).text()
                == old(self).text().drop_last() && final(self)@ == old(self)@.take(
                final(self)@.len() as int,
            ),
    {
        let len = self.len();
        if len == 0 {
            return None;
        }
        let content = self.as_slice();
        proof {
            assert(content@.subrange(0, len as int) =~= self@);
        }
        let (k, c) = last_char(content, 0, len);
        proof {
            assert(self.data().take(k as int) =~= content@.subrange(0, k as int));
        }
        self.set_len(k);
        Some(c)
    }

    /// Byte length of the leading white space of the content; the content after it is
    /// the content with its leading white space trimmed.
    fn white_prefix_len(&self) -> (i: usize)
        requires
            self.wf(),
        ensures
            i <= self@.len(),
            valid_utf8(self@.subrange(i as int, self@.len() as int)),
            decode_utf8(self@.subrange(i as int, self@.len() as int)) == trim_start_chars(
                self.text(),
            ),
    {
        let content = self.as_slice();
        let len = content.len();
        let mut i: usize = 0;
        proof {
            assert(content@.subrange(0, len as int) =~= content@);
        }
        while i < len
            invariant
                content@ == self@,
                len == content@.len(),
                i <= len,
                valid_utf8(content@.subrange(i as int, len as int)),
                trim_start_chars(self.text()) == trim_start_chars(
                    decode_utf8(content@.subrange(i as int, len as int)),
                ),
            ensures
                i <= len,
                valid_utf8(content@.subrange(i as int, len as int)),
                trim_start_chars(self.text()) == decode_utf8(content@.subrange(i as int, len as int)),
            decreases len - i,
        {
            let (w, c) = first_char(content, i, len);
            let ghost rest = decode_utf8(content@.subrange(i + w, len as int));
            proof {
                assert((seq![c] + rest).drop_first() =~= rest);
            }
            if !is_white(c) {
                break;
            }
            i = i + w;
        }
        proof {
            if i == len {
                assert(content@.subrange(i as int, len as int) =~= Seq::<u8>::empty());
            }
        }
        i
    }

    /// Start of the trailing white space of the content from `lo` on; the bytes from `lo` up
    /// to it are that content with its trailing white space trimmed.
    fn white_suffix_start(&self, lo: usize) -> (j: usize)
        requires
            self.wf(),
            lo <= self@.len(),
            valid_utf8(self@.subrange(lo as int, self@.len() as int)),
        ensures
            lo <= j <= self@.len(),
            valid_utf8(self@.subrange(lo as int, j as int)),
            decode_utf8(self@.subrange(lo as int, j as int)) == trim_end_chars(
                decode_utf8(self@.subrange(lo as int, self@.len() as int)),
            ),
    {
        let content = self.as_slice();
        let len = content.len();
        let mut j: usize = len;
        while j > lo
            invariant
                content@ == self@,
                len == content@.len(),
                lo <= j <= len,
                valid_utf8(content@.subrange(lo as int, j as int)),
                trim_end_chars(decode_utf8(content@.subrange(lo as int, len as int)))
                    == trim_end_chars(decode_utf8(content@.subrange(lo as int, j as int))),
            ensures
                lo <= j <= len,
                valid_utf8(content@.subrange(lo as int, j as int)),
                trim_end_chars(decode_utf8(content@.subrange(lo as int, len as int)))
                    == decode_utf8(content@.subrange(lo as int, j as int)),
            decreases j,
        {
            let (k, c) = last_char(content, lo, j);
            let ghost front = decode_utf8(content@.subrange(lo as int, k as int));
            proof {
                assert((front + seq![c]).drop_last() =~= front);
                assert((front + seq![c]).last() == c);
            }
            if !is_white(c) {
                break;
            }
            j = k;
        }
        proof {
            if j == lo {
                assert(content@.subrange(lo as int, j as int) =~= Seq::<u8>::empty());
            }
        }
        j
    }

    /// Replaces the content with its bytes `from..to`, which must be valid UTF-8.
    fn keep_range(&mut self, from: usize, to: usize)
        requires
            old(self).wf(),
            from <= to <= old(self)@.len(),
            valid_utf8(old(self)@.subrange(from as int, to as int)),
        ensures
            final(self).wf(),
            final(self)@ == old(self)@.subrange(from as int, to as int),
    {
        let off = Self::len_offset();
        let count = to - from;
        let ghost d = self.data();
        let mut i: usize = 0;
        while i < count
            invariant
                off == Self::marker(),
                from <= to <= old(self)@.len(),
                count == to - from,
                old(self)@.len() <= Self::cap(),
                i <= count,
                d == old(self).data(),
                d.len() == Self::cap(),
                self.data() =~= d.subrange(from as int, from + i) + d.skip(i as int),
            decreases count - i,
        {
            let ghost prev = self.data();
            let b = self.inner[off + from + i];
            assert(prev[from + i] == d[from + i]);
            self.inner[off + i] = b;
            assert(self.data() =~= prev.update(i as int, b));
            i = i + 1;
            assert(self.data() =~= d.subrange(from as int, from + i) + d.skip(i as int));
        }
        proof {
            assert(self.data().take(count as int) =~= old(self)@.subrange(from as int, to as int));
        }
        self.set_len(count);
    }

    /// Removes white space from both ends of the content.
    pub fn make_trim(&mut self)
        requires
            old(self).wf(),
        ensures
            final(self).wf(),
            final(self).text() == trim_chars(old(self).text()),
    {
        let left = self.white_prefix_len();
        let right = self.white_suffix_start(left);
        self.keep_range(left, right);
    }

    /// Removes white space from the start of the content.
    pub fn make_trim_left(&mut self)
        requires
            old(self).wf(),
        ensures
            final(self).wf(),
            final(self).text() == trim_start_chars(old(self).text()),
    {
        let left = self.white_prefix_len();
        let len = self.len();
        self.keep_range(left, len);
    }

    /// Removes white space from the end of the content.
    pub fn make_trim_right(&mut self)
        requires
            old(self).wf(),
        ensures
            final(self).wf(),
            final(self).text() == trim_end_chars(old(self).text()),
    {
        proof {
            assert(self@.subrange(0, self@.len() as int) =~= self@);
        }
        let right = self.white_suffix_start(0);
        proof {
            assert(self.data().take(right as int) =~= self@.subrange(0, right as int));
        }
        self.set_len(right);
    }
}

impl<const N: usize> PartialEq for StrBuf<N> {
    fn eq(&self, other: &Self) -> bool {
        let a = self.as_slice();
        let b = other.as_slice();
        if a.len() != b.len() {
            return false;
        }
        let mut i: usize = 0;
        while i < a.len()
            invariant
                a@ == self@,
                b@ == other@,
                a@.len() == b@.len(),
                i <= a@.len(),
                forall|k: int| 0 <= k < i ==> a@[k] == b@[k],
            decreases a@.len() - i,
        {
            if a[i] != b[i] {
                return false;
            }
            i = i + 1;
        }
        proof {
            assert(a@ =~= b@);
        }
        true
    }
}

impl<const N: usize> vstd::std_specs::cmp::PartialEqSpecImpl for StrBuf<N> {
    open spec fn obeys_eq_spec() -> bool {
        true
    }

    open spec fn eq_spec(&self, other: &Self) -> bool {
        self@ == other@
    }
}

impl<const N: usize> Eq for StrBuf<N> {

}

/// A buffer that holds the bytes of a text reads back as exactly that text.
pub proof fn lemma_round_trip<const N: usize>(b: StrBuf<N>, t: &str)
    requires
        b@ == t.spec_bytes(),
    ensures
        b.text() == t@,
{
}

/// A buffer of no storage has no capacity: only empty text fits in it.
pub proof fn lemma_zero_capacity(t: Seq<u8>)
    ensures
        StrBuf::<0>::cap() == 0,
        t.len() <= StrBuf::<0>::cap() <==> t.len() == 0,
{
}

/// Returns the largest character boundary of `text` at or below `size`.
fn boundary_at_or_below(text: &str, start: usize) -> (r: usize)
    requires
        start <= text.spec_bytes().len(),
    ensures
        r <= start,
        is_char_boundary(text.spec_bytes(), r as int),
        forall|j: int| r < j <= start ==> !is_char_boundary(text.spec_bytes(), j),
{
    let mut size = start;
    while !text.is_char_boundary(size)
        invariant
            size <= start,
            valid_utf8(text.spec_bytes()),
            forall|j: int| size < j <= start ==> !is_char_boundary(text.spec_bytes(), j),
        decreases size,
    {
        size = size - 1;
    }
    size
}
} // verus!
