use unsigned_varint::decode;
use unsigned_varint::decode::Error;
use unsigned_varint::encode;

// Concrete vectors.

#[test]
fn encode_u8_zero() {
    let mut buf = [0xAAu8; 2];
    assert_eq!(encode::u8(0, &mut buf), &[0x00]);
}

#[test]
fn encode_u8_largest_one_byte() {
    let mut buf = [0u8; 2];
    assert_eq!(encode::u8(127, &mut buf), &[0x7F]);
}

#[test]
fn encode_u8_smallest_two_byte() {
    let mut buf = [0u8; 2];
    assert_eq!(encode::u8(128, &mut buf), &[0x80, 0x01]);
}

#[test]
fn encode_u8_max() {
    let mut buf = [0u8; 2];
    assert_eq!(encode::u8(255, &mut buf), &[0xFF, 0x01]);
}

#[test]
fn encode_u32_300() {
    let mut buf = [0u8; 5];
    assert_eq!(encode::u32(300, &mut buf), &[0xAC, 0x02]);
}

#[test]
fn decode_u32_300() {
    assert_eq!(decode::u32(&[0xAC, 0x02]), Ok((300, 2)));
}

#[test]
fn decode_empty_is_insufficient_for_every_width() {
    assert_eq!(decode::u8(&[]), Err(Error::Insufficient));
    assert_eq!(decode::u16(&[]), Err(Error::Insufficient));
    assert_eq!(decode::u32(&[]), Err(Error::Insufficient));
    assert_eq!(decode::u64(&[]), Err(Error::Insufficient));
    assert_eq!(decode::u128(&[]), Err(Error::Insufficient));
    assert_eq!(decode::usize(&[]), Err(Error::Insufficient));
}

// Round trips over each width, including 0 and the largest value.

#[test]
fn round_trip_u8() {
    for v in [0u8, 1, 2, 63, 64, 127, 128, 200, 254, 255] {
        let mut buf = [0u8; 2];
        let e: Vec<u8> = encode::u8(v, &mut buf).to_vec();
        assert_eq!(decode::u8(&e), Ok((v, e.len())));
    }
}

#[test]
fn round_trip_u16() {
    for v in [0u16, 1, 127, 128, 300, 16383, 16384, u16::MAX - 1, u16::MAX] {
        let mut buf = [0u8; 3];
        let e: Vec<u8> = encode::u16(v, &mut buf).to_vec();
        assert_eq!(decode::u16(&e), Ok((v, e.len())));
    }
}

#[test]
fn round_trip_u32() {
    for v in [0u32, 1, 127, 128, 300, 1_000_000, u32::MAX - 1, u32::MAX] {
        let mut buf = [0u8; 5];
        let e: Vec<u8> = encode::u32(v, &mut buf).to_vec();
        assert_eq!(decode::u32(&e), Ok((v, e.len())));
    }
}

#[test]
fn round_trip_u64() {
    for v in [0u64, 1, 127, 128, 300, 1 << 32, (1 << 56) - 1, 1 << 56, u64::MAX - 1, u64::MAX] {
        let mut buf = [0u8; 10];
        let e: Vec<u8> = encode::u64(v, &mut buf).to_vec();
        assert_eq!(decode::u64(&e), Ok((v, e.len())));
    }
}

#[test]
fn round_trip_u128() {
    for v in [0u128, 1, 127, 128, 300, 1 << 64, 1 << 126, u128::MAX - 1, u128::MAX] {
        let mut buf = [0u8; 19];
        let e: Vec<u8> = encode::u128(v, &mut buf).to_vec();
        assert_eq!(decode::u128(&e), Ok((v, e.len())));
    }
}

#[test]
fn round_trip_usize() {
    for v in [0usize, 1, 127, 128, 300, usize::MAX - 1, usize::MAX] {
        let mut buf = [0u8; 10];
        let e: Vec<u8> = encode::usize(v, &mut buf).to_vec();
        assert_eq!(decode::usize(&e), Ok((v, e.len())));
    }
}

// Canonical minimality: the length is max(1, ceil(significant_bits / 7)).

#[test]
fn encoded_length_is_minimal() {
    for v in [0u64, 1, 127, 128, 16383, 16384, (1 << 21) - 1, 1 << 21, 1 << 56, u64::MAX] {
        let bits = if v == 0 { 1 } else { (64 - v.leading_zeros()) as usize };
        let expected = std::cmp::max(1, (bits + 6) / 7);
        let mut buf = [0u8; 10];
        assert_eq!(encode::u64(v, &mut buf).len(), expected);
    }
}

// Terminal bit: clear on the last byte, set on every byte before it.

#[test]
fn continuation_bits_set_terminal_bit_clear() {
    for v in [0u64, 1, 127, 128, 300, 16384, 1 << 42, u64::MAX] {
        let mut buf = [0u8; 10];
        let e: Vec<u8> = encode::u64(v, &mut buf).to_vec();
        let (last, init) = e.split_last().unwrap();
        assert_eq!(last & 0x80, 0);
        for b in init {
            assert_eq!(b & 0x80, 0x80);
        }
    }
}

// Insufficient: only continuation bytes, fewer than the width allows.

#[test]
fn insufficient_on_unterminated_input() {
    assert_eq!(decode::u8(&[0x80]), Err(Error::Insufficient));
    assert_eq!(decode::u16(&[0xFF, 0xFF]), Err(Error::Insufficient));
    assert_eq!(decode::u32(&[0x80, 0x80, 0x80, 0x80]), Err(Error::Insufficient));
    assert_eq!(decode::u64(&[0xFF; 9]), Err(Error::Insufficient));
    assert_eq!(decode::u128(&[0x80; 18]), Err(Error::Insufficient));
    assert_eq!(decode::usize(&[0xFF; 9]), Err(Error::Insufficient));
}

// Overflow: more continuation groups than the width can hold.

#[test]
fn overflow_on_too_many_groups() {
    assert_eq!(decode::u8(&[0x80, 0x80]), Err(Error::Overflow));
    assert_eq!(decode::u8(&[0xFF, 0x81, 0x01]), Err(Error::Overflow));
    assert_eq!(decode::u16(&[0x80, 0x80, 0x80]), Err(Error::Overflow));
    assert_eq!(decode::u32(&[0xFF; 5]), Err(Error::Overflow));
    assert_eq!(decode::u64(&[0x80; 10]), Err(Error::Overflow));
    assert_eq!(decode::u128(&[0xFF; 19]), Err(Error::Overflow));
    assert_eq!(decode::usize(&[0x80; 10]), Err(Error::Overflow));
}

// A terminal byte in the last permissible group is still accepted.

#[test]
fn terminal_in_last_group_is_accepted() {
    assert_eq!(decode::u8(&[0xFF, 0x01]), Ok((255, 2)));
    assert_eq!(decode::u16(&[0xFF, 0xFF, 0x03]), Ok((u16::MAX, 3)));
    assert_eq!(decode::u32(&[0xFF, 0xFF, 0xFF, 0xFF, 0x0F]), Ok((u32::MAX, 5)));
}

// Bits of a final group that spill past the width are dropped, as the
// width-limited accumulator of the decoder drops them.

#[test]
fn final_group_bits_past_width_are_dropped() {
    assert_eq!(decode::u8(&[0xFF, 0x7F]), Ok((255, 2)));
    assert_eq!(decode::u8(&[0x80, 0x02]), Ok((0, 2)));
    assert_eq!(decode::u32(&[0x80, 0x80, 0x80, 0x80, 0x7F]), Ok((0xF0000000, 5)));
}

// Trailing bytes after one encoded value are ignored, not consumed.

#[test]
fn trailing_bytes_are_ignored() {
    for v in [0u64, 127, 128, 300, u64::MAX] {
        let mut buf = [0u8; 10];
        let mut bytes: Vec<u8> = encode::u64(v, &mut buf).to_vec();
        let len = bytes.len();
        bytes.extend_from_slice(&[0xDE, 0xAD, 0xBE, 0xEF]);
        assert_eq!(decode::u64(&bytes), Ok((v, len)));
    }
    assert_eq!(decode::u8(&[0x05, 0x80, 0x80, 0x80]), Ok((5, 1)));
}

// The buffer past the returned slice is left as it was.

#[test]
fn bytes_past_the_slice_keep_their_contents() {
    let mut buf = [0x55u8; 5];
    let len = encode::u32(300, &mut buf).len();
    assert_eq!(len, 2);
    assert_eq!(buf, [0xAC, 0x02, 0x55, 0x55, 0x55]);
}

// usize follows the native width: on this 64-bit target it accepts inputs
// with more groups than the 32-bit decoder allows, exactly as u64 does.

#[test]
fn usize_decodes_at_the_native_width() {
    let six_groups = [0x80, 0x80, 0x80, 0x80, 0x80, 0x00];
    assert_eq!(decode::u32(&six_groups), Err(Error::Overflow));
    if usize::MAX as u64 == u64::MAX {
        assert_eq!(decode::usize(&six_groups), Ok((0, 6)));
        assert_eq!(decode::usize(&six_groups), decode::u64(&six_groups).map(|(n, c)| (n as usize, c)));
    } else {
        assert_eq!(decode::usize(&six_groups), Err(Error::Overflow));
    }
}

// usize mirrors the 64-bit encoding on a 64-bit target.

#[test]
fn usize_matches_u64_encoding() {
    let mut a = [0u8; 10];
    let mut b = [0u8; 10];
    let ea: Vec<u8> = encode::usize(300, &mut a).to_vec();
    let eb: Vec<u8> = encode::u64(300, &mut b).to_vec();
    assert_eq!(ea, eb);
}
