use diamond_types::encoding::parseerror::ParseError;
use diamond_types::encoding::tools::BoundedBuf;
use diamond_types::encoding::varint::{
    decode_prefix_varint_u32, decode_prefix_varint_u32_loop, decode_prefix_varint_u32_unroll,
    decode_prefix_varint_u64, decode_prefix_varint_u64_unroll,
    decode_prefix_varint_u64_unroll_flat, decode_prefix_varint_usize, encode_prefix_varint_u32,
    encode_prefix_varint_u64, mix_bit_u32, mix_bit_u64, mix_bit_usize, num_decode_zigzag_i32,
    num_decode_zigzag_i64, num_decode_zigzag_isize, num_encode_zigzag_i32, num_encode_zigzag_i64,
    num_encode_zigzag_isize, push_u32, push_u64, push_usize, strip_bit_u32, strip_bit_u32_2,
    strip_bit_u64, strip_bit_usize, strip_bit_usize_2, try_push_u32, try_push_u64, try_push_usize,
};
use rand::prelude::{Rng, SeedableRng, SmallRng};

fn check_zigzag(val: i64, expected_zz: Option<u64>) {
    let zz = num_encode_zigzag_i64(val);
    if let Some(expected_zz) = expected_zz {
        assert_eq!(expected_zz, zz);
    }
    let actual = num_decode_zigzag_i64(zz);
    assert_eq!(val, actual);

    if val >= i32::MIN as i64 && val <= i32::MAX as i64 {
        let val = val as i32;
        let zz = num_encode_zigzag_i32(val);
        if let Some(expected_zz) = expected_zz {
            assert_eq!(expected_zz as u32, zz);
        }
        let actual = num_decode_zigzag_i32(zz);
        assert_eq!(val, actual);
    }
}

fn check_enc_dec_unsigned(val: u64) {
    let (buf, bytes_used) = encode_prefix_varint_u64(val);
    let v1 = decode_prefix_varint_u64(&buf).unwrap();
    assert_eq!(v1, (val, bytes_used));
    let v2 = decode_prefix_varint_u64_unroll(&buf).unwrap();
    assert_eq!(v2, (val, bytes_used));
    let v3 = decode_prefix_varint_u64_unroll_flat(&buf);
    assert_eq!(v3, (val, bytes_used));

    // And check 32 bit variants.
    let val32 = val as u32;
    let (buf, bytes_used_u32) = encode_prefix_varint_u32(val32);

    if val == val32 as u64 {
        assert_eq!(bytes_used, bytes_used_u32);
    }

    let v1 = decode_prefix_varint_u32_unroll(&buf).unwrap();
    assert_eq!(v1, (val32, bytes_used_u32));
    let v2 = decode_prefix_varint_u32_loop(&buf).unwrap();
    assert_eq!(v2, (val32, bytes_used_u32));
}

#[test]
fn zigzag_matches_protobuf() {
    check_zigzag(0, Some(0));
    check_zigzag(-1, Some(1));
    check_zigzag(1, Some(2));
    check_zigzag(-2, Some(3));
    check_zigzag(2147483647, Some(4294967294));
    check_zigzag(-2147483648, Some(4294967295));

    check_zigzag(i64::MAX, None);
    check_zigzag(i64::MIN, None);

    check_zigzag(i32::MAX as i64, None);
    check_zigzag(i32::MIN as i64, None);
}

#[test]
fn simple_enc_dec() {
    check_enc_dec_unsigned(0);
    check_enc_dec_unsigned(1);
    check_enc_dec_unsigned(0x7f);
    check_enc_dec_unsigned(0x80);
    check_enc_dec_unsigned(0x100);
    check_enc_dec_unsigned(0xffffffff);
    check_enc_dec_unsigned(158933560);
    check_enc_dec_unsigned(15779779462787834424);
    check_enc_dec_unsigned(u64::MAX);
}

#[test]
fn foo() {
    let (bytes, used) = encode_prefix_varint_u64(u64::MAX);
    println!("{:?}", &bytes[..used]);
    let (bytes, used) = encode_prefix_varint_u32(u32::MAX);
    println!("{:?}", &bytes[..used]);
}

#[test]
fn fuzz_encode() {
    let mut rng = SmallRng::seed_from_u64(20);

    for _i in 0..5000 {
        let x: u64 = rng.gen();

        for bits in 0..64 {
            let val = x >> bits;
            check_zigzag(val as i64, None);
            check_zigzag(-(val as i64), None);

            check_enc_dec_unsigned(val);
        }
    }
}

#[test]
fn encodings_of_small_values() {
    let (b, n) = encode_prefix_varint_u64(0);
    assert_eq!(&b[..n], &[0x00]);
    assert_eq!(b, [0u8; 9]);
    let (b, n) = encode_prefix_varint_u64(127);
    assert_eq!(&b[..n], &[0x7F]);
    let (b, n) = encode_prefix_varint_u64(128);
    assert_eq!(&b[..n], &[0x80, 0x00]);
    let (b, n) = encode_prefix_varint_u64(129);
    assert_eq!(&b[..n], &[0x80, 0x01]);
    let (b, n) = encode_prefix_varint_u32(0x4080 - 1);
    assert_eq!(&b[..n], &[0xBF, 0xFF]);
    let (b, n) = encode_prefix_varint_u32(0x4080);
    assert_eq!(&b[..n], &[0xC0, 0x00, 0x00]);
    assert_eq!(&b[n..], &[0, 0]);
}

#[test]
fn band_edges_take_the_expected_lengths() {
    let starts: [u64; 8] = [
        0x80,
        0x4080,
        0x20_4080,
        0x1020_4080,
        0x08_1020_4080,
        0x0408_1020_4080,
        0x02_0408_1020_4080,
        0x0102_0408_1020_4080,
    ];
    for (i, start) in starts.iter().enumerate() {
        let (below, n_below) = encode_prefix_varint_u64(start - 1);
        let (at, n_at) = encode_prefix_varint_u64(*start);
        assert_eq!(n_below, i + 1);
        assert_eq!(n_at, i + 2);
        assert_eq!(decode_prefix_varint_u64(&below), Ok((start - 1, i + 1)));
        assert_eq!(decode_prefix_varint_u64(&at), Ok((*start, i + 2)));
        // The first value of a band has an all-zero payload.
        assert!(at[1..].iter().all(|b| *b == 0));
    }
}

#[test]
fn encodings_of_the_largest_values() {
    let (b, n) = encode_prefix_varint_u32(u32::MAX);
    assert_eq!(&b[..n], &[0xF0, 0xEF, 0xDF, 0xBF, 0x7F]);
    let (b, n) = encode_prefix_varint_u64(u32::MAX as u64);
    assert_eq!(&b[..n], &[0xF0, 0xEF, 0xDF, 0xBF, 0x7F]);
    let (b, n) = encode_prefix_varint_u64(u64::MAX);
    assert_eq!(&b[..n], &[0xFF, 0xFE, 0xFD, 0xFB, 0xF7, 0xEF, 0xDF, 0xBF, 0x7F]);
}

#[test]
fn decode_reports_short_input() {
    assert_eq!(decode_prefix_varint_u64(&[]), Err(ParseError::UnexpectedEOF));
    assert_eq!(decode_prefix_varint_u64_unroll(&[]), Err(ParseError::UnexpectedEOF));
    assert_eq!(decode_prefix_varint_u32(&[]), Err(ParseError::UnexpectedEOF));
    assert_eq!(decode_prefix_varint_u32_unroll(&[]), Err(ParseError::UnexpectedEOF));
    assert_eq!(decode_prefix_varint_usize(&[]), Err(ParseError::UnexpectedEOF));
    for v in [0x80u64, 0x4080, 0x20_4080, 0x1020_4080, 0x08_1020_4080, u64::MAX] {
        let (b, n) = encode_prefix_varint_u64(v);
        for short in 1..n {
            assert_eq!(decode_prefix_varint_u64(&b[..short]), Err(ParseError::UnexpectedEOF));
            assert_eq!(
                decode_prefix_varint_u64_unroll(&b[..short]),
                Err(ParseError::UnexpectedEOF)
            );
        }
        assert_eq!(decode_prefix_varint_u64(&b[..n]), Ok((v, n)));
    }
    assert_eq!(decode_prefix_varint_u32_unroll(&[0xF0, 1, 2, 3]), Err(ParseError::UnexpectedEOF));
    assert_eq!(decode_prefix_varint_u32_unroll(&[0xFF, 1, 2, 3]), Err(ParseError::UnexpectedEOF));
}

#[test]
fn decode_rejects_values_that_do_not_fit() {
    // Nine bytes whose payload lies beyond the last 64-bit value.
    let too_big = [0xFFu8, 0xFF, 0xFF, 0xFF, 0xFF, 0xFF, 0xFF, 0xFF, 0xFF];
    assert_eq!(decode_prefix_varint_u64(&too_big), Err(ParseError::InvalidVarInt));
    assert_eq!(decode_prefix_varint_u64_unroll(&too_big), Err(ParseError::InvalidVarInt));
    // One past the encoding of u64::MAX.
    let next = [0xFFu8, 0xFE, 0xFD, 0xFB, 0xF7, 0xEF, 0xDF, 0xBF, 0x80];
    assert_eq!(decode_prefix_varint_u64(&next), Err(ParseError::InvalidVarInt));

    // A 64-bit value above u32::MAX read as 32 bits.
    let (b, n) = encode_prefix_varint_u64(u32::MAX as u64 + 1);
    assert_eq!(n, 5);
    assert_eq!(decode_prefix_varint_u32(&b), Err(ParseError::InvalidVarInt));
    assert_eq!(decode_prefix_varint_u32_loop(&b), Err(ParseError::InvalidVarInt));
    assert_eq!(decode_prefix_varint_u32_unroll(&b), Err(ParseError::InvalidVarInt));
    // A five-byte marker other than 0xF0.
    assert_eq!(
        decode_prefix_varint_u32_unroll(&[0xF1, 0, 0, 0, 0]),
        Err(ParseError::InvalidVarInt)
    );
    assert_eq!(decode_prefix_varint_u32(&[0xF1, 0, 0, 0, 0]), Err(ParseError::InvalidVarInt));
    // The two 32-bit decoders name different errors for a longer marker.
    assert_eq!(
        decode_prefix_varint_u32_unroll(&[0xFF, 0, 0, 0, 0]),
        Err(ParseError::InvalidVarInt)
    );
    assert_eq!(decode_prefix_varint_u32_loop(&[0xFF, 0, 0, 0, 0]), Err(ParseError::UnexpectedEOF));
}

#[test]
fn decode_ignores_what_follows_the_encoding() {
    assert_eq!(decode_prefix_varint_u64(&[0x05, 0xFF, 0xFF]), Ok((5, 1)));
    assert_eq!(decode_prefix_varint_u64(&[0x80, 0x01, 0xFF]), Ok((129, 2)));
    assert_eq!(decode_prefix_varint_u32(&[0xC0, 0x00, 0x01, 0xAA]), Ok((0x4081, 3)));
    assert_eq!(decode_prefix_varint_usize(&[0xC0, 0x00, 0x01, 0xAA]), Ok((0x4081, 3)));
}

#[test]
fn distinct_encodings_decode_to_distinct_values() {
    // Every two-byte encoding decodes to its own value, none of them to a
    // value that one byte holds.
    let mut seen = vec![false; 0x4080];
    for b0 in 0u8..=0xBF {
        if b0 < 0x80 {
            let (v, n) = decode_prefix_varint_u64(&[b0]).unwrap();
            assert_eq!(n, 1);
            assert!(!seen[v as usize]);
            seen[v as usize] = true;
        } else {
            for b1 in 0u8..=0xFF {
                let (v, n) = decode_prefix_varint_u64(&[b0, b1]).unwrap();
                assert_eq!(n, 2);
                assert!(!seen[v as usize]);
                seen[v as usize] = true;
                let (enc, used) = encode_prefix_varint_u64(v);
                assert_eq!(&enc[..used], &[b0, b1]);
            }
        }
    }
    assert!(seen.iter().all(|s| *s));
}

#[test]
fn zigzag_of_word_sized_values() {
    assert_eq!(num_encode_zigzag_isize(0), 0);
    assert_eq!(num_encode_zigzag_isize(-1), 1);
    assert_eq!(num_encode_zigzag_isize(1), 2);
    assert_eq!(num_encode_zigzag_isize(-2), 3);
    assert_eq!(num_encode_zigzag_isize(isize::MIN), usize::MAX);
    assert_eq!(num_encode_zigzag_isize(isize::MAX), usize::MAX - 1);
    assert_eq!(num_decode_zigzag_isize(usize::MAX), isize::MIN);
    assert_eq!(num_decode_zigzag_isize(3), -2);
    assert_eq!(num_encode_zigzag_i32(i32::MIN), u32::MAX);
    assert_eq!(num_encode_zigzag_i64(i64::MIN), u64::MAX);
    assert_eq!(num_decode_zigzag_i64(u64::MAX), i64::MIN);
    assert_eq!(num_decode_zigzag_i32(u32::MAX), i32::MIN);
    for z in 0u32..1000 {
        assert_eq!(num_encode_zigzag_i32(num_decode_zigzag_i32(z)), z);
    }
}

#[test]
fn mix_and_strip_bit() {
    assert_eq!(mix_bit_u64(5, true), 11);
    assert_eq!(mix_bit_u64(5, false), 10);
    assert_eq!(mix_bit_u32(0, true), 1);
    assert_eq!(mix_bit_usize(7, false), 14);
    assert_eq!(mix_bit_u64(u64::MAX / 2 - 1, true), u64::MAX - 2);
    assert_eq!(strip_bit_u64(11), (5, true));
    assert_eq!(strip_bit_u64(10), (5, false));
    assert_eq!(strip_bit_u32(1), (0, true));
    assert_eq!(strip_bit_usize(14), (7, false));
    let mut v: u32 = 11;
    assert!(strip_bit_u32_2(&mut v));
    assert_eq!(v, 5);
    let mut w: usize = 10;
    assert!(!strip_bit_usize_2(&mut w));
    assert_eq!(w, 5);
    for value in [0u64, 1, 2, 1000, (1 << 62) + 3] {
        for flag in [false, true] {
            assert_eq!(strip_bit_u64(mix_bit_u64(value, flag)), (value, flag));
        }
    }
}

#[test]
fn push_appends_the_encoding() {
    let mut out: Vec<u8> = vec![0xAA];
    push_u32(&mut out, 5);
    push_u64(&mut out, 128);
    push_usize(&mut out, 0x4080);
    assert_eq!(out, vec![0xAA, 0x05, 0x80, 0x00, 0xC0, 0x00, 0x00]);
}

#[test]
fn try_push_stops_at_the_limit() {
    let mut out = BoundedBuf::new(4);
    assert_eq!(try_push_u32(&mut out, 5), Ok(()));
    assert_eq!(try_push_u64(&mut out, 128), Ok(()));
    assert_eq!(out.as_slice(), &[0x05, 0x80, 0x00]);
    assert_eq!(try_push_usize(&mut out, 0x4080), Err(()));
    assert_eq!(out.as_slice(), &[0x05, 0x80, 0x00]);
    assert_eq!(out.len(), 3);
    assert_eq!(try_push_u64(&mut out, 127), Ok(()));
    assert_eq!(out.as_slice(), &[0x05, 0x80, 0x00, 0x7F]);
    assert_eq!(try_push_u32(&mut out, 0), Err(()));
}
