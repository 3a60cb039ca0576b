use bohelper::hex::{Endianness, HexByte, HexString, InvalidHexFragment};

fn le(s: &str) -> HexString {
    HexString::from_hex_str(s, Endianness::Little, Endianness::Little).unwrap()
}

#[test]
fn fragment_renders_padded_lowercase() {
    assert_eq!(HexByte::from_hex_str("c").unwrap().to_string(), "0c");
    assert_eq!(HexByte::from_hex_str("Fe").unwrap().to_string(), "fe");
    assert_eq!(HexByte::from_hex_str("9A").unwrap().to_string(), "9a");
}

#[test]
fn fragment_errors_name_their_cause() {
    assert_eq!(HexByte::from_hex_str("FFFF"), Err(InvalidHexFragment::TooLong(4)));
    assert_eq!(HexByte::from_hex_str("F0J5"), Err(InvalidHexFragment::TooLong(4)));
    assert_eq!(HexByte::from_hex_str("0g"), Err(InvalidHexFragment::NonHexChar('g')));
    assert_eq!(HexByte::from_hex_str("G"), Err(InvalidHexFragment::NonHexChar('G')));
    assert_eq!(HexByte::from_hex_str("é"), Err(InvalidHexFragment::NonHexChar('é')));
    assert_eq!(HexByte::from_hex_str("/0"), Err(InvalidHexFragment::NonHexChar('/')));
    assert_eq!(HexByte::from_hex_str(":"), Err(InvalidHexFragment::NonHexChar(':')));
    assert_eq!(HexByte::from_hex_str("`"), Err(InvalidHexFragment::NonHexChar('`')));
    assert_eq!(HexByte::from_hex_str("@"), Err(InvalidHexFragment::NonHexChar('@')));
}

#[test]
fn hex_text_error_is_first_bad_character() {
    let r = HexString::from_hex_str("0a1xyz", Endianness::Big, Endianness::Big);
    assert_eq!(r, Err(InvalidHexFragment::NonHexChar('x')));
    let r = HexString::from_hex_str("abz", Endianness::Big, Endianness::Little);
    assert_eq!(r, Err(InvalidHexFragment::NonHexChar('z')));
    let r = HexString::from_hex_str("éa", Endianness::Big, Endianness::Big);
    assert_eq!(r, Err(InvalidHexFragment::NonHexChar('é')));
}

#[test]
fn hex_text_round_trip_same_order() {
    let h = HexString::from_hex_str("a0B1c", Endianness::Big, Endianness::Big).unwrap();
    assert_eq!(h.as_hex_string(Endianness::Big), "0a0b1c");
    let h = HexString::from_hex_str("deadbeef", Endianness::Little, Endianness::Little).unwrap();
    assert_eq!(h.as_hex_string(Endianness::Little), "deadbeef");
    let h = HexString::from_hex_str("", Endianness::Little, Endianness::Little).unwrap();
    assert_eq!(h.hex_bytes.len(), 0);
    assert_eq!(h.as_hex_string(Endianness::Big), "");
}

#[test]
fn retag_twice_restores_order() {
    let h = le("0102030405");
    let back = h.as_endianness(Endianness::Big).as_endianness(Endianness::Little);
    assert_eq!(back.endianness, Endianness::Little);
    assert_eq!(back.hex_bytes, le("0102030405").hex_bytes);
    assert_eq!(back.as_hex_string(Endianness::Little), "0102030405");
}

#[test]
fn empty_or_oversized_needle_finds_nothing() {
    assert_eq!(le("0011").get_offsets(le("")), Vec::<usize>::new());
    assert_eq!(le("0011").get_offsets(le("001122")), Vec::<usize>::new());
    assert_eq!(le("").get_offsets(le("00")), Vec::<usize>::new());
}

#[test]
fn overlapping_matches_all_reported() {
    assert_eq!(le("00112233440011223344").get_offsets(le("2233")), vec![2, 7]);
    assert_eq!(le("aaaaaa").get_offsets(le("aaaa")), vec![0, 1]);
    assert_eq!(le("0011").get_offsets(le("0011")), vec![0]);
}

#[test]
fn needle_declared_big_endian_is_relaid() {
    let haystack = le("0011223344");
    let needle = HexString::from_hex_str("3322", Endianness::Big, Endianness::Little).unwrap();
    assert_eq!(haystack.get_offsets(needle), vec![2]);
    let needle = HexString::from_hex_str("3322", Endianness::Big, Endianness::Big).unwrap();
    assert_eq!(le("0011223344").get_offsets(needle), vec![2]);
    assert_eq!(le("0011223344").get_offsets(le("2233")), vec![2]);
}

#[test]
fn integer_rendering_bounds() {
    let h = HexString::from_hex_str("00112233", Endianness::Big, Endianness::Big).unwrap();
    assert_eq!(h.as_usize(), Some(1122867));
    let h = HexString::from_hex_str("33221100", Endianness::Little, Endianness::Little).unwrap();
    assert_eq!(h.as_usize(), Some(1122867));
    let h = HexString::from_hex_str("ffffffffffffffff", Endianness::Big, Endianness::Big).unwrap();
    assert_eq!(h.as_usize(), Some(usize::MAX));
    let h = HexString::from_hex_str("0000000000000000000001", Endianness::Big, Endianness::Big)
        .unwrap();
    assert_eq!(h.as_usize(), Some(1));
    let h = HexString::from_hex_str("10000000000000000", Endianness::Big, Endianness::Big).unwrap();
    assert_eq!(h.as_usize(), None);
    let h = HexString::from_hex_str("", Endianness::Big, Endianness::Big).unwrap();
    assert_eq!(h.as_usize(), None);
}

#[test]
fn text_encoding_reversed_with_order_change() {
    let plain = HexString::from_str("Aa0Aa1Aa2", Endianness::Little, Endianness::Little);
    let swapped = HexString::from_str("Aa0Aa1Aa2", Endianness::Big, Endianness::Little);
    let mut expected = plain.hex_bytes.clone();
    expected.reverse();
    assert_eq!(swapped.hex_bytes, expected);
    assert_eq!(swapped.as_hex_string(Endianness::Little), "326141316141306141");
}

#[test]
fn char_encoding_keeps_low_byte() {
    assert_eq!(HexByte::from('\u{ff}').to_string(), "ff");
    assert_eq!(HexByte::from('\u{100}').to_string(), "00");
    assert_eq!(HexByte::from('\u{141}').to_string(), "41");
    assert_eq!(HexByte::from('\0').to_string(), "00");
}
