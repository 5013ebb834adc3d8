use str_buf::{capacity, StrBuf, StrBufError};

#[test]
fn push_str_stops_at_character_boundary_of_capacity_five() {
    let mut buf = StrBuf::<6>::new();
    assert_eq!(StrBuf::<6>::capacity(), 5);
    assert_eq!(buf.push_str("ロ"), 3);
    assert_eq!(buf.push_str("リ"), 0);
    assert_eq!(buf.push_str("r"), 1);
    assert_eq!(buf.push_str("i"), 1);
    assert_eq!(buf.push_str("."), 0);
    assert_eq!(buf.as_str(), "ロri");
    assert_eq!(buf.len(), 5);
    assert_eq!(buf.remaining(), 0);
}

#[test]
fn push_str_appends_prefix_and_reports_its_length() {
    let mut buf = StrBuf::<10>::from_str("ab");
    let written = buf.push_str("cdefghéj");
    assert_eq!(written, 6);
    assert_eq!(buf.as_str(), "abcdefgh");
    assert!("cdefghéj".starts_with(&buf.as_str()[2..]));
    assert_eq!(buf.remaining(), 1);
}

#[test]
fn push_str_never_exceeds_remaining() {
    let mut buf = StrBuf::<4>::new();
    let written = buf.push_str("abcdef");
    assert_eq!(written, 3);
    assert_eq!(buf.remaining(), 0);
    assert_eq!(buf.push_str("x"), 0);
    assert_eq!(buf.as_str(), "abc");
}

#[test]
fn clear_leaves_empty_content() {
    let mut buf = StrBuf::<16>::from_str("hello");
    buf.clear();
    assert_eq!(buf.len(), 0);
    assert_eq!(buf.as_str(), "");
    let buf = StrBuf::<16>::from_str("again").empty();
    assert_eq!(buf.len(), 0);
}

#[test]
fn trim_is_idempotent() {
    let mut buf = StrBuf::<32>::from_str(" \t ab c \n ");
    buf.make_trim();
    assert_eq!(buf.as_str(), "ab c");
    let once = buf;
    buf.make_trim();
    assert_eq!(buf, once);
    assert_eq!(buf.as_str(), "ab c");
}

#[test]
fn trims_unicode_white_space() {
    let mut buf = StrBuf::<32>::from_str("\u{3000} x\u{a0}y \u{2003}");
    buf.make_trim();
    assert_eq!(buf.as_str(), "x\u{a0}y");

    let mut left = StrBuf::<32>::from_str("\u{3000} ロ ");
    left.make_trim_left();
    assert_eq!(left.as_str(), "ロ ");

    let mut right = StrBuf::<32>::from_str(" ロ\u{2003}\n");
    right.make_trim_right();
    assert_eq!(right.as_str(), " ロ");
}

#[test]
fn trim_of_only_white_space_is_empty() {
    let mut buf = StrBuf::<8>::from_str("  \t ");
    buf.make_trim();
    assert_eq!(buf.as_str(), "");
    let mut left = StrBuf::<8>::from_str("   ");
    left.make_trim_left();
    assert_eq!(left.len(), 0);
    let mut right = StrBuf::<8>::from_str("   ");
    right.make_trim_right();
    assert_eq!(right.len(), 0);
}

#[test]
fn round_trip_through_constructors() {
    let text = "héllo ロ";
    let buf = StrBuf::<16>::from_str(text);
    assert_eq!(buf.as_str(), text);
    assert_eq!(buf.as_slice(), text.as_bytes());
    let checked = StrBuf::<16>::from_str_checked(text).expect("fits");
    assert_eq!(checked.as_str(), text);
    assert_eq!(checked, buf);
}

#[test]
fn checked_constructor_reports_overflow() {
    assert_eq!(StrBuf::<5>::from_str_checked("lolka"), Err(StrBufError::Overflow));
    assert_eq!(StrBuf::<6>::from_str_checked("lolka").map(|b| b.len()), Ok(5));
}

#[test]
fn pop_returns_characters_in_reverse() {
    let mut buf = StrBuf::<8>::from_str("ロri");
    assert_eq!(buf.pop(), Some('i'));
    assert_eq!(buf.len(), 4);
    assert_eq!(buf.pop(), Some('r'));
    assert_eq!(buf.len(), 3);
    assert_eq!(buf.pop(), Some('ロ'));
    assert_eq!(buf.len(), 0);
    assert_eq!(buf.pop(), None);
    let mut four = StrBuf::<8>::from_str("a😀");
    assert_eq!(four.pop(), Some('😀'));
    assert_eq!(four.as_str(), "a");
}

#[test]
fn case_conversion_keeps_non_ascii() {
    let mut buf = StrBuf::<8>::from_str("ロri");
    buf.make_ascii_uppercase();
    assert_eq!(buf.as_str(), "ロRI");
    buf.make_ascii_lowercase();
    assert_eq!(buf.as_str(), "ロri");
    let mixed = StrBuf::<16>::from_str("ÄbC-z").into_ascii_uppercase();
    assert_eq!(mixed.as_str(), "ÄBC-Z");
    let lower = mixed.into_ascii_lowercase();
    assert_eq!(lower.as_str(), "Äbc-z");
}

#[test]
fn zero_capacity_buffer() {
    assert_eq!(StrBuf::<0>::capacity(), 0);
    assert_eq!(StrBuf::<0>::from_str_checked("a"), Err(StrBufError::Overflow));
    let empty = StrBuf::<0>::from_str_checked("").expect("empty fits");
    assert_eq!(empty.as_str(), "");
    assert_eq!(empty.remaining(), 0);
}

#[test]
fn storage_size_for_desired_capacity() {
    assert_eq!(capacity(0), 0);
    assert_eq!(capacity(1), 2);
    assert_eq!(capacity(255), 256);
    assert_eq!(capacity(256), 258);
    assert_eq!(capacity(65535), 65537);
    assert_eq!(capacity(65536), 65544);
    assert_eq!(capacity(usize::MAX), usize::MAX);
    assert_eq!(StrBuf::<256>::capacity(), 255);
    assert_eq!(StrBuf::<258>::capacity(), 256);
    assert_eq!(StrBuf::<65537>::capacity(), 65535);
    assert_eq!(StrBuf::<65544>::capacity(), 65536);
}

#[test]
fn length_marker_is_little_endian() {
    let mut buf = StrBuf::<300>::new();
    for _ in 0..260 {
        buf.push_str("x");
    }
    let storage = buf.as_storage();
    assert_eq!(storage[0], 4);
    assert_eq!(storage[1], 1);
    assert_eq!(storage[2], b'x');
    let small = StrBuf::<4>::from_str("ab");
    assert_eq!(small.as_storage()[0], 2);
    assert_eq!(&small.as_storage()[1..3], b"ab");
}

#[test]
fn write_str_reports_truncation() {
    let mut buf = StrBuf::<6>::new();
    assert_eq!(buf.write_str("abc"), Ok(()));
    assert_eq!(buf.write_str("déf"), Err(StrBufError::Overflow));
    assert_eq!(buf.as_str(), "abcd");
}

#[test]
fn push_str_exact_keeps_content_on_overflow() {
    let mut buf = StrBuf::<6>::from_str("abc");
    assert_eq!(buf.push_str_exact("def"), Err(StrBufError::Overflow));
    assert_eq!(buf.as_str(), "abc");
    assert_eq!(buf.push_str_exact("de"), Ok(()));
    assert_eq!(buf.as_str(), "abcde");
}

#[test]
fn truncate_only_shortens() {
    let mut buf = StrBuf::<16>::from_str("abcdef");
    buf.truncate(10);
    assert_eq!(buf.as_str(), "abcdef");
    buf.truncate(3);
    assert_eq!(buf.as_str(), "abc");
}

#[test]
fn write_slice_covers_unwritten_storage() {
    let mut buf = StrBuf::<8>::from_str("ab");
    let rest = buf.as_write_slice();
    assert_eq!(rest.len(), 5);
    rest[0] = b'c';
    buf.set_len(3);
    assert_eq!(buf.as_str(), "abc");
}

#[test]
fn and_appends_fragments() {
    let buf = StrBuf::<16>::new().and("hello").and(" ").and("world");
    assert_eq!(buf.as_str(), "hello world");
    let bytes = StrBuf::<16>::new().and_unsafe("ロ!".as_bytes());
    assert_eq!(bytes.as_str(), "ロ!");
}

#[test]
fn equality_compares_content_only() {
    let mut a = StrBuf::<8>::from_str("abcd");
    a.truncate(2);
    let b = StrBuf::<8>::from_str("ab");
    assert_eq!(a, b);
    assert_ne!(a, StrBuf::<8>::from_str("ac"));
}

#[test]
fn storage_accessors_round_trip() {
    let buf = StrBuf::<8>::from_str("héj");
    assert_eq!(StrBuf::<8>::len_offset(), 1);
    assert_eq!(buf.get_unchecked(1), 0xc3);
    let copy = StrBuf::<8>::from_storage(*buf.as_storage());
    assert_eq!(copy.as_str(), "héj");

    let mut raw = StrBuf::<8>::new();
    {
        let storage = raw.as_mut_storage();
        storage[0] = 2;
        storage[1] = b'o';
        storage[2] = b'k';
    }
    assert_eq!(raw.as_str(), "ok");
}

#[test]
fn mutable_content_slice() {
    let mut buf = StrBuf::<8>::from_str("abc");
    {
        let content = buf.as_mut_slice();
        assert_eq!(content.len(), 3);
        content[1] = b'x';
    }
    assert_eq!(buf.as_str(), "axc");
}

#[test]
fn wide_length_marker() {
    assert_eq!(StrBuf::<67_000>::len_offset(), 8);
    assert_eq!(StrBuf::<67_000>::capacity(), 66_992);
    let mut buf = StrBuf::<67_000>::from_str("ab");
    assert_eq!(buf.as_storage()[0], 2);
    assert_eq!(buf.as_storage()[1..8], [0u8; 7]);
    buf.push_str("c");
    assert_eq!(buf.len(), 3);
    assert_eq!(StrBuf::<290>::len_offset(), 2);
}
