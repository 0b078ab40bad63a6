use jetscii::fallback;
use jetscii::simd::aarch64;
use jetscii::simd::x86;

fn needle_array(needle: &[u8]) -> [u8; 16] {
    let mut data = [0u8; 16];
    data[..needle.len()].copy_from_slice(needle);
    data
}

/// A haystack over several 64-byte chunks, with matches in some of them.
fn long_haystack() -> Vec<u8> {
    let mut hay = vec![b'.'; 200];
    for &p in &[0usize, 5, 63, 64, 65, 127, 130, 199] {
        hay[p] = if p % 2 == 0 { b'<' } else { b'>' };
    }
    hay
}

fn expected_positions(needle: &[u8], hay: &[u8]) -> Vec<usize> {
    hay.iter().enumerate().filter(|(_, b)| needle.contains(b)).map(|(i, _)| i).collect()
}

#[test]
fn table_lookup_iterator_yields_every_match_in_order() {
    let hay = long_haystack();
    let bytes = aarch64::Bytes::new(needle_array(b"<>"), 2);
    let mut it = bytes.iter(&hay);
    let mut got = Vec::new();
    while let Some(p) = it.next() {
        got.push(p);
    }
    assert_eq!(got, vec![0, 5, 63, 64, 65, 127, 130, 199]);
    assert_eq!(got, expected_positions(b"<>", &hay));
    // Once done, it stays done.
    assert_eq!(None, it.next());
    assert_eq!(None, it.next());
}

#[test]
fn table_lookup_iterator_on_short_and_empty_haystacks() {
    let bytes = aarch64::Bytes::new(needle_array(b"a"), 1);
    let mut it = bytes.iter(b"banana");
    assert_eq!(Some(1), it.next());
    assert_eq!(Some(3), it.next());
    assert_eq!(Some(5), it.next());
    assert_eq!(None, it.next());
    let mut empty = bytes.iter(b"");
    assert_eq!(None, empty.next());
}

#[test]
fn table_lookup_count_counts_what_is_left() {
    let hay = long_haystack();
    let bytes = aarch64::Bytes::new(needle_array(b"<>"), 2);
    assert_eq!(8, bytes.iter(&hay).count());
    let mut it = bytes.iter(&hay);
    assert_eq!(Some(0), it.next());
    assert_eq!(Some(5), it.next());
    assert_eq!(6, it.count());
    let zeros = aarch64::Bytes::new(needle_array(b"\0"), 1);
    assert_eq!(0, zeros.iter(b"123456").count());
    assert_eq!(3, zeros.iter(b"\0a\0b\0").count());
}

#[test]
fn table_lookup_size_hint_bounds_what_is_left() {
    let hay = long_haystack();
    let bytes = aarch64::Bytes::new(needle_array(b"<>"), 2);
    let mut it = bytes.iter(&hay);
    // Nothing has been looked at yet.
    assert_eq!((0, Some(200)), it.size_hint());
    assert_eq!(Some(0), it.next());
    // The first chunk holds two more matches; 136 bytes are not yet looked at.
    assert_eq!((2, Some(138)), it.size_hint());
}

#[test]
fn predicate_iterator_yields_every_match_in_order() {
    let hay = long_haystack();
    let bytes = fallback::Bytes::new(|b: u8| b == b'<' || b == b'>');
    let mut it = bytes.iter(&hay);
    assert_eq!((0, Some(200)), it.size_hint());
    let mut got = Vec::new();
    while let Some(p) = it.next() {
        got.push(p);
    }
    assert_eq!(got, expected_positions(b"<>", &hay));
    assert_eq!(None, it.next());
    assert_eq!((0, Some(0)), it.size_hint());
}

#[test]
fn predicate_iterator_size_hint_shrinks() {
    let bytes = fallback::Bytes::new(|b: u8| b == b'a');
    let mut it = bytes.iter(b"banana");
    assert_eq!(Some(1), it.next());
    assert_eq!((0, Some(4)), it.size_hint());
}

#[test]
fn packed_compare_length_is_absolute_and_saturated() {
    let data = *b"abcdefghijklmnop";
    assert_eq!(Some(2), x86::Bytes::new(data, -3).find(b"zzc"));
    assert_eq!(None, x86::Bytes::new(data, -3).find(b"zzd"));
    assert_eq!(Some(0), x86::Bytes::new(data, 40).find(b"p"));
    assert_eq!(Some(0), x86::Bytes::new(data, i32::MIN).find(b"p"));
    assert_eq!(None, x86::Bytes::new(data, 0).find(b"abc"));
}

#[test]
fn empty_needles_find_nothing_or_everything() {
    assert_eq!(None, aarch64::Bytes::new([0; 16], 0).find(b"\0\0"));
    assert_eq!(Some(0), x86::ByteSubstring::new(b"").find(b"abc"));
    assert_eq!(None, x86::ByteSubstring::new(b"").find(b""));
}

#[test]
fn needle_lengths_are_those_of_the_whole_needle() {
    assert_eq!(17, x86::ByteSubstring::new(b"0123456789abcdefg").needle_len());
    assert_eq!(2, fallback::ByteSubstring::new(b"zz").needle_len());
}

#[test]
fn long_needle_false_positives_are_skipped() {
    // The first 16 bytes of the needle occur twice before the whole needle does.
    let needle = b"0123456789abcdefXY";
    let mut hay = Vec::new();
    hay.extend_from_slice(b"0123456789abcdefXZ");
    hay.extend_from_slice(b"__0123456789abcdef");
    hay.extend_from_slice(b"0123456789abcdefXY!");
    assert_eq!(Some(36), x86::ByteSubstring::new(needle).find(&hay));
    assert_eq!(Some(36), fallback::ByteSubstring::new(needle).find(&hay));
    for start in 0..8 {
        let expected = if start <= 36 { Some(36 - start) } else { None };
        assert_eq!(expected, x86::ByteSubstring::new(needle).find(&hay[start..]));
    }
}

#[test]
fn searches_agree_on_long_haystacks_at_every_offset() {
    let mut hay = vec![0u8; 300];
    for (i, b) in hay.iter_mut().enumerate() {
        *b = (i * 7 % 251) as u8;
    }
    let needle = [200u8, 13, 99];
    for start in 0..40 {
        let h = &hay[start..];
        let expected = h.iter().position(|b| needle.contains(b));
        let data = needle_array(&needle);
        assert_eq!(expected, x86::Bytes::new(data, 3).find(h));
        assert_eq!(expected, aarch64::Bytes::new(data, 3).find(h));
        assert_eq!(expected, fallback::Bytes::new(|b: u8| needle.contains(&b)).find(h));
        let sub = &h[100..103];
        let expected_sub = (0..h.len()).find(|&l| h[l..].starts_with(sub));
        assert_eq!(expected_sub, x86::ByteSubstring::new(sub).find(h));
        assert_eq!(expected_sub, fallback::ByteSubstring::new(sub).find(h));
    }
}
