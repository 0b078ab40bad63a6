use jetscii::fallback;
use jetscii::simd::aarch64;
use jetscii::simd::x86;

/// Searches `haystack` for any byte of `needle` (at most 16 bytes) with
/// every searcher of the crate, checks that they agree, and gives the answer.
fn find_any(needle: &[u8], haystack: &[u8]) -> Option<usize> {
    let mut data = [0u8; 16];
    data[..needle.len()].copy_from_slice(needle);
    let len = needle.len() as i32;
    let by_predicate = fallback::Bytes::new(|b: u8| needle.contains(&b)).find(haystack);
    let by_packed_compare = x86::Bytes::new(data, len).find(haystack);
    let by_table_lookup = aarch64::Bytes::new(data, len).find(haystack);
    assert_eq!(by_predicate, by_packed_compare);
    assert_eq!(by_predicate, by_table_lookup);
    by_predicate
}

/// Searches `haystack` for `needle` with both substring searchers, checks
/// that they agree, and gives the answer.
fn find_seq(needle: &[u8], haystack: &[u8]) -> Option<usize> {
    let by_windows = fallback::ByteSubstring::new(needle).find(haystack);
    let by_packed_compare = x86::ByteSubstring::new(needle).find(haystack);
    assert_eq!(by_windows, by_packed_compare);
    by_windows
}

/// The position of `haystack`'s first byte within its 16-byte block.
fn block_offset(haystack: &[u8]) -> usize {
    let text = format!("{:p}", &haystack[0]);
    let address = usize::from_str_radix(text.trim_start_matches("0x"), 16)
        .unwrap_or_else(|_| panic!("address text {:?}", text));
    address % 16
}

#[test]
fn can_search_for_null_bytes() {
    assert_eq!(Some(1), find_any(b"\0", b"a\0"));
    assert_eq!(Some(0), find_any(b"\0", b"\0"));
    assert_eq!(None, find_any(b"\0", b""));
}

#[test]
fn can_search_in_null_bytes() {
    assert_eq!(Some(1), find_any(b"a", b"\0a"));
    assert_eq!(None, find_any(b"a", b"\0"));
}

#[test]
fn space_is_found() {
    // Since the simd algorithm operates on 16-byte chunks, it's
    // important to cover tests around that boundary. Since 16
    // isn't that big of a number, we might as well do all of
    // them.

    assert_eq!(Some(0), find_any(b" ", b" "));
    assert_eq!(Some(1), find_any(b" ", b"0 "));
    assert_eq!(Some(2), find_any(b" ", b"01 "));
    assert_eq!(Some(3), find_any(b" ", b"012 "));
    assert_eq!(Some(4), find_any(b" ", b"0123 "));
    assert_eq!(Some(5), find_any(b" ", b"01234 "));
    assert_eq!(Some(6), find_any(b" ", b"012345 "));
    assert_eq!(Some(7), find_any(b" ", b"0123456 "));
    assert_eq!(Some(8), find_any(b" ", b"01234567 "));
    assert_eq!(Some(9), find_any(b" ", b"012345678 "));
    assert_eq!(Some(10), find_any(b" ", b"0123456789 "));
    assert_eq!(Some(11), find_any(b" ", b"0123456789A "));
    assert_eq!(Some(12), find_any(b" ", b"0123456789AB "));
    assert_eq!(Some(13), find_any(b" ", b"0123456789ABC "));
    assert_eq!(Some(14), find_any(b" ", b"0123456789ABCD "));
    assert_eq!(Some(15), find_any(b" ", b"0123456789ABCDE "));
    assert_eq!(Some(16), find_any(b" ", b"0123456789ABCDEF "));
    assert_eq!(Some(17), find_any(b" ", b"0123456789ABCDEFG "));
}

#[test]
fn space_not_found() {
    assert_eq!(None, find_any(b" ", b""));
    assert_eq!(None, find_any(b" ", b"0"));
    assert_eq!(None, find_any(b" ", b"01"));
    assert_eq!(None, find_any(b" ", b"012"));
    assert_eq!(None, find_any(b" ", b"0123"));
    assert_eq!(None, find_any(b" ", b"01234"));
    assert_eq!(None, find_any(b" ", b"012345"));
    assert_eq!(None, find_any(b" ", b"0123456"));
    assert_eq!(None, find_any(b" ", b"01234567"));
    assert_eq!(None, find_any(b" ", b"012345678"));
    assert_eq!(None, find_any(b" ", b"0123456789"));
    assert_eq!(None, find_any(b" ", b"0123456789A"));
    assert_eq!(None, find_any(b" ", b"0123456789AB"));
    assert_eq!(None, find_any(b" ", b"0123456789ABC"));
    assert_eq!(None, find_any(b" ", b"0123456789ABCD"));
    assert_eq!(None, find_any(b" ", b"0123456789ABCDE"));
    assert_eq!(None, find_any(b" ", b"0123456789ABCDEF"));
    assert_eq!(None, find_any(b" ", b"0123456789ABCDEFG"));
}

#[test]
fn works_on_nonaligned_beginnings() {
    // We have special code for strings that don't lie on 16-byte
    // boundaries. Since allocation seems to happen on these
    // boundaries by default, let's walk around a bit.

    let s = b"0123456789ABCDEF ".to_vec();

    assert_eq!(Some(16), find_any(b" ", &s[0..]));
    assert_eq!(Some(15), find_any(b" ", &s[1..]));
    assert_eq!(Some(14), find_any(b" ", &s[2..]));
    assert_eq!(Some(13), find_any(b" ", &s[3..]));
    assert_eq!(Some(12), find_any(b" ", &s[4..]));
    assert_eq!(Some(11), find_any(b" ", &s[5..]));
    assert_eq!(Some(10), find_any(b" ", &s[6..]));
    assert_eq!(Some(9), find_any(b" ", &s[7..]));
    assert_eq!(Some(8), find_any(b" ", &s[8..]));
    assert_eq!(Some(7), find_any(b" ", &s[9..]));
    assert_eq!(Some(6), find_any(b" ", &s[10..]));
    assert_eq!(Some(5), find_any(b" ", &s[11..]));
    assert_eq!(Some(4), find_any(b" ", &s[12..]));
    assert_eq!(Some(3), find_any(b" ", &s[13..]));
    assert_eq!(Some(2), find_any(b" ", &s[14..]));
    assert_eq!(Some(1), find_any(b" ", &s[15..]));
    assert_eq!(Some(0), find_any(b" ", &s[16..]));
    assert_eq!(None, find_any(b" ", &s[17..]));
}

#[test]
fn misalignment_does_not_cause_a_false_positive_before_start() {
    const AAAA: u8 = 0x01;

    let needle = [AAAA];
    let mut data = vec![0x00u8; 66];
    data[0] = AAAA;
    let haystack = &data[1..];

    // Needs to trigger the misalignment code
    assert_ne!(0, block_offset(haystack));
    // There are 64 bits in the mask and we check to make sure the
    // result is less than the haystack
    assert!(haystack.len() > 64);

    assert_eq!(None, find_any(&needle, haystack));
}

#[test]
fn xml_delim_3_is_found() {
    let delims = b"<>&";
    assert_eq!(Some(0), find_any(delims, b"<"));
    assert_eq!(Some(0), find_any(delims, b">"));
    assert_eq!(Some(0), find_any(delims, b"&"));
    assert_eq!(None, find_any(delims, b""));
}

#[test]
fn xml_delim_5_is_found() {
    let delims = b"<>&'\"";
    assert_eq!(Some(0), find_any(delims, b"<"));
    assert_eq!(Some(0), find_any(delims, b">"));
    assert_eq!(Some(0), find_any(delims, b"&"));
    assert_eq!(Some(0), find_any(delims, b"'"));
    assert_eq!(Some(0), find_any(delims, b"\""));
    assert_eq!(None, find_any(delims, b""));
}

#[test]
fn do_not_find_zeros_after_end() {
    // The simd algorithm will end up with a partial vector when the haystack isn't
    // a multiple of 16 bytes. The rest of the vector will be filled with zeros.
    // Ensure we don't find a match in the remainder of that vector, which would be considered
    // after the end of the haystack.
    let haystack = b"123456";
    assert_eq!(None, find_any(b"\0*", haystack));
}

#[test]
fn byte_substring_is_found() {
    assert_eq!(Some(0), find_seq(b"zz", b"zz"));
    assert_eq!(Some(1), find_seq(b"zz", b"0zz"));
    assert_eq!(Some(2), find_seq(b"zz", b"01zz"));
    assert_eq!(Some(3), find_seq(b"zz", b"012zz"));
    assert_eq!(Some(4), find_seq(b"zz", b"0123zz"));
    assert_eq!(Some(5), find_seq(b"zz", b"01234zz"));
    assert_eq!(Some(6), find_seq(b"zz", b"012345zz"));
    assert_eq!(Some(7), find_seq(b"zz", b"0123456zz"));
    assert_eq!(Some(8), find_seq(b"zz", b"01234567zz"));
    assert_eq!(Some(9), find_seq(b"zz", b"012345678zz"));
    assert_eq!(Some(10), find_seq(b"zz", b"0123456789zz"));
    assert_eq!(Some(11), find_seq(b"zz", b"0123456789Azz"));
    assert_eq!(Some(12), find_seq(b"zz", b"0123456789ABzz"));
    assert_eq!(Some(13), find_seq(b"zz", b"0123456789ABCzz"));
    assert_eq!(Some(14), find_seq(b"zz", b"0123456789ABCDzz"));
    assert_eq!(Some(15), find_seq(b"zz", b"0123456789ABCDEzz"));
    assert_eq!(Some(16), find_seq(b"zz", b"0123456789ABCDEFzz"));
    assert_eq!(Some(17), find_seq(b"zz", b"0123456789ABCDEFGzz"));
}

#[test]
fn byte_substring_is_not_found() {
    assert_eq!(None, find_seq(b"zz", b""));
    assert_eq!(None, find_seq(b"zz", b"0"));
    assert_eq!(None, find_seq(b"zz", b"01"));
    assert_eq!(None, find_seq(b"zz", b"012"));
    assert_eq!(None, find_seq(b"zz", b"0123"));
    assert_eq!(None, find_seq(b"zz", b"01234"));
    assert_eq!(None, find_seq(b"zz", b"012345"));
    assert_eq!(None, find_seq(b"zz", b"0123456"));
    assert_eq!(None, find_seq(b"zz", b"01234567"));
    assert_eq!(None, find_seq(b"zz", b"012345678"));
    assert_eq!(None, find_seq(b"zz", b"0123456789"));
    assert_eq!(None, find_seq(b"zz", b"0123456789A"));
    assert_eq!(None, find_seq(b"zz", b"0123456789AB"));
    assert_eq!(None, find_seq(b"zz", b"0123456789ABC"));
    assert_eq!(None, find_seq(b"zz", b"0123456789ABCD"));
    assert_eq!(None, find_seq(b"zz", b"0123456789ABCDE"));
    assert_eq!(None, find_seq(b"zz", b"0123456789ABCDEF"));
    assert_eq!(None, find_seq(b"zz", b"0123456789ABCDEFG"));
}

#[test]
fn byte_substring_has_false_positive() {
    // The PCMPESTRI instruction will mark the "a" before "ab" as
    // a match because it cannot look beyond the 16 byte window
    // of the haystack. We need to double-check any match to
    // ensure it completely matches.

    assert_eq!(Some(16), find_seq(b"ab", b"aaaaaaaaaaaaaaaaab"))
    //   this "a" is a false positive ~~~~~~~~~~~~~~~^
}

#[test]
fn byte_substring_needle_is_longer_than_16_bytes() {
    let needle = b"0123456789abcdefg";
    let haystack = b"0123456789abcdefgh";
    assert_eq!(Some(0), find_seq(needle, haystack));
}

#[test]
fn works_at_page_boundary() {
    // The searches read a 16-byte string a block at a time; every
    // suffix of it must find its last byte. The searches are safe code
    // and read nothing outside the slice, so no guard page is needed.
    let text = "0123456789abcdef";
    for offset in 0..text.len() {
        let tail = &text[offset..];
        assert_eq!(Some(tail.len() - 1), find_any(b"f", tail.as_bytes()));
    }
}

#[test]
fn does_not_access_memory_after_haystack_when_haystack_is_multiple_of_16_bytes_and_no_match() {
    // A haystack of exactly one block with no match: the searches read
    // nothing outside the slice, so no guard page is needed.
    let text = "0123456789abcdef";
    assert_eq!(None, find_any(b"z", text.as_bytes()));
}
