//! Length-prefixed variable-width integers.
//!
//! The number of leading one-bits in the first byte of an encoding tells how
//! many bytes follow it. The remaining bits of the first byte and the bytes
//! after it hold a big-endian payload. Each length covers its own band of
//! values: the payload counts from the first value that no shorter encoding
//! reaches, so that every integer has exactly one encoding.
//!
//! ```text
//! 1 byte    0xxxxxxx                      0 .. 2^7
//! 2 bytes   10xxxxxx xxxxxxxx             2^7 .. 2^7 + 2^14
//! 3 bytes   110xxxxx xxxxxxxx xxxxxxxx    2^7 + 2^14 .. 2^7 + 2^14 + 2^21
//! ...
//! 9 bytes   11111111 and eight bytes      from 2^7 + 2^14 + ... + 2^56
//! ```

use vstd::prelude::*;
use crate::encoding::parseerror::ParseError;
use crate::encoding::tools::{ExtendFromSlice, TryExtendFromSlice};

verus! {

pub type U32VarintArr = [u8; 5];

pub type U64VarintArr = [u8; 9];

pub const ENC_1_U32: u32 = 0x80;

pub const ENC_2_U32: u32 = 0x4080;

pub const ENC_3_U32: u32 = 0x20_4080;

pub const ENC_4_U32: u32 = 0x1020_4080;

pub const ENC_1_U64: u64 = 0x80;

pub const ENC_2_U64: u64 = 0x4080;

pub const ENC_3_U64: u64 = 0x20_4080;

pub const ENC_4_U64: u64 = 0x1020_4080;

pub const ENC_5_U64: u64 = 0x08_1020_4080;

pub const ENC_6_U64: u64 = 0x0408_1020_4080;

pub const ENC_7_U64: u64 = 0x02_0408_1020_4080;

pub const ENC_8_U64: u64 = 0x0102_0408_1020_4080;

/// `256` to the power `k`.
pub open spec fn pow256(k: nat) -> nat
    decreases k,
{
    if k == 0 {
        1
    } else {
        256 * pow256((k - 1) as nat)
    }
}

/// The number that the bytes of `s` denote, most significant byte first.
pub open spec fn be_value(s: Seq<u8>) -> nat
    decreases s.len(),
{
    if s.len() == 0 {
        0
    } else {
        256 * be_value(s.drop_last()) + s.last() as nat
    }
}

/// The `n` low-order bytes of `v`, most significant byte first.
pub open spec fn be_bytes(v: nat, n: nat) -> Seq<u8>
    decreases n,
{
    if n == 0 {
        Seq::empty()
    } else {
        be_bytes(v / 256, (n - 1) as nat).push((v % 256) as u8)
    }
}

/// The smallest value whose encoding takes `n` bytes: the number of values
/// that shorter encodings hold.
pub open spec fn band_start(n: nat) -> nat {
    if n <= 1 {
        0
    } else if n == 2 {
        0x80
    } else if n == 3 {
        0x4080
    } else if n == 4 {
        0x20_4080
    } else if n == 5 {
        0x1020_4080
    } else if n == 6 {
        0x08_1020_4080
    } else if n == 7 {
        0x0408_1020_4080
    } else if n == 8 {
        0x02_0408_1020_4080
    } else {
        0x0102_0408_1020_4080
    }
}

/// The first byte of an `n`-byte encoding with an all-zero payload: `n - 1`
/// one-bits from the top.
pub open spec fn marker(n: nat) -> nat {
    if n <= 1 {
        0x00
    } else if n == 2 {
        0x80
    } else if n == 3 {
        0xC0
    } else if n == 4 {
        0xE0
    } else if n == 5 {
        0xF0
    } else if n == 6 {
        0xF8
    } else if n == 7 {
        0xFC
    } else if n == 8 {
        0xFE
    } else {
        0xFF
    }
}

/// The length of the encoding that starts with the byte `b0`.
pub open spec fn encoded_len(b0: u8) -> nat {
    if b0 < 0x80 {
        1
    } else if b0 < 0xC0 {
        2
    } else if b0 < 0xE0 {
        3
    } else if b0 < 0xF0 {
        4
    } else if b0 < 0xF8 {
        5
    } else if b0 < 0xFC {
        6
    } else if b0 < 0xFE {
        7
    } else if b0 < 0xFF {
        8
    } else {
        9
    }
}

/// The length of the encoding of `v`.
pub open spec fn len_for(v: nat) -> nat {
    if v < band_start(2) {
        1
    } else if v < band_start(3) {
        2
    } else if v < band_start(4) {
        3
    } else if v < band_start(5) {
        4
    } else if v < band_start(6) {
        5
    } else if v < band_start(7) {
        6
    } else if v < band_start(8) {
        7
    } else if v < band_start(9) {
        8
    } else {
        9
    }
}

/// The encoding of `v`, for `v` up to `u64::MAX`: the distance of `v` from the
/// start of its band, big-endian in as many bytes as the band has, under the
/// band's marker.
pub open spec fn encoding(v: nat) -> Seq<u8> {
    let n = len_for(v);
    let body = be_bytes((v - band_start(n)) as nat, n);
    body.update(0, (marker(n) + body[0]) as u8)
}

/// The payload of the `n`-byte encoding at the start of `buf`: its bytes
/// without the marker, read big-endian.
pub open spec fn payload(buf: Seq<u8>, n: nat) -> nat {
    be_value(buf.subrange(0, n as int).update(0, (buf[0] - marker(n)) as u8))
}

/// The value of the encoding at the start of `buf`, which must hold at least
/// `encoded_len(buf[0])` bytes. It can exceed `u64::MAX` in the last band.
pub open spec fn decoded_value(buf: Seq<u8>) -> nat {
    let n = encoded_len(buf[0]);
    band_start(n) + payload(buf, n)
}

/// What decoding a 64-bit integer from the start of `buf` gives: the value
/// and the number of bytes it took.
pub open spec fn decoding_u64(buf: Seq<u8>) -> Result<(u64, usize), ParseError> {
    if buf.len() == 0 || buf.len() < encoded_len(buf[0]) {
        Err(ParseError::UnexpectedEOF)
    } else if decoded_value(buf) > u64::MAX {
        Err(ParseError::InvalidVarInt)
    } else {
        Ok((decoded_value(buf) as u64, encoded_len(buf[0]) as usize))
    }
}

/// What decoding a 32-bit integer from the start of `buf` gives, read as a
/// 64-bit integer that must fit.
pub open spec fn decoding_u32(buf: Seq<u8>) -> Result<(u32, usize), ParseError> {
    match decoding_u64(buf) {
        Err(e) => Err(e),
        Ok((v, n)) => if v > u32::MAX {
            Err(ParseError::InvalidVarInt)
        } else {
            Ok((v as u32, n))
        },
    }
}

/// What the branch-per-length 32-bit decoder gives. It knows five lengths
/// only: any first byte from `0xF0` up asks for five bytes, and must then be
/// `0xF0` itself.
pub open spec fn decoding_u32_strict(buf: Seq<u8>) -> Result<(u32, usize), ParseError> {
    if buf.len() == 0 {
        Err(ParseError::UnexpectedEOF)
    } else {
        let n = if encoded_len(buf[0]) < 5 {
            encoded_len(buf[0])
        } else {
            5
        };
        if buf.len() < n {
            Err(ParseError::UnexpectedEOF)
        } else if buf[0] > 0xF0 || decoded_value(buf) > u32::MAX {
            Err(ParseError::InvalidVarInt)
        } else {
            Ok((decoded_value(buf) as u32, n as usize))
        }
    }
}

pub proof fn lemma_pow256_values()
    ensures
        pow256(0) == 1,
        pow256(1) == 0x100,
        pow256(2) == 0x1_0000,
        pow256(3) == 0x100_0000,
        pow256(4) == 0x1_0000_0000,
        pow256(5) == 0x100_0000_0000,
        pow256(6) == 0x1_0000_0000_0000,
        pow256(7) == 0x100_0000_0000_0000,
        pow256(8) == 0x1_0000_0000_0000_0000,
{
    reveal_with_fuel(pow256, 10);
}

/// `be_bytes` yields `n` bytes, and the byte `k` places from the end is the
/// `k`-th base-256 digit of `v`.
pub proof fn lemma_be_bytes_digits(v: nat, n: nat)
    ensures
        be_bytes(v, n).len() == n,
        forall|i: int|
            0 <= i < n ==> #[trigger] be_bytes(v, n)[i] == (v / pow256((n - 1 - i) as nat)) % 256,
    decreases n,
{
    if n > 0 {
        lemma_be_bytes_digits(v / 256, (n - 1) as nat);
        assert forall|i: int| 0 <= i < n implies #[trigger] be_bytes(v, n)[i] == (v / pow256(
            (n - 1 - i) as nat,
        )) % 256 by {
            if i < n - 1 {
                let j = (n - 2 - i) as nat;
                let w = v / 256;
                assert(be_bytes(v, n)[i] == be_bytes(w, (n - 1) as nat)[i]);
                assert(be_bytes(w, (n - 1) as nat)[i] == (w / pow256(j)) % 256);
                assert(pow256(j + 1) == 256 * pow256(j));
                assert((n - 1 - i) as nat == j + 1);
                lemma_pow256_is_pow(j);
                vstd::arithmetic::div_mod::lemma_div_denominator(v as int, 256, pow256(j) as int);
                assert(w / pow256(j) == v / pow256(j + 1));
                assert(be_bytes(v, n)[i] == (v / pow256((n - 1 - i) as nat)) % 256);
            } else {
                assert(pow256(0) == 1);
                assert(v / 1 == v);
            }
        }
    }
}

proof fn lemma_pow256_is_pow(k: nat)
    ensures
        pow256(k) == vstd::arithmetic::power::pow(256, k),
        pow256(k) > 0,
    decreases k,
{
    reveal(vstd::arithmetic::power::pow);
    if k > 0 {
        lemma_pow256_is_pow((k - 1) as nat);
    }
}

/// A byte string of length `n` denotes a number below `256^n`.
pub proof fn lemma_be_value_bound(s: Seq<u8>)
    ensures
        be_value(s) < pow256(s.len()),
    decreases s.len(),
{
    if s.len() > 0 {
        lemma_be_value_bound(s.drop_last());
    }
}

/// Reading back the `n` bytes written for `v` gives `v`, when `v` fits.
pub proof fn lemma_be_value_of_bytes(v: nat, n: nat)
    requires
        v < pow256(n),
    ensures
        be_value(be_bytes(v, n)) == v,
    decreases n,
{
    lemma_be_bytes_digits(v, n);
    if n > 0 {
        let s = be_bytes(v, n);
        assert(s.drop_last() =~= be_bytes(v / 256, (n - 1) as nat));
        lemma_be_value_of_bytes(v / 256, (n - 1) as nat);
    }
}

/// Writing the number that `s` denotes, in as many bytes, gives `s` back.
pub proof fn lemma_be_bytes_of_value(s: Seq<u8>)
    ensures
        be_bytes(be_value(s), s.len()) == s,
    decreases s.len(),
{
    if s.len() > 0 {
        lemma_be_bytes_of_value(s.drop_last());
        let v = be_value(s);
        assert(v / 256 == be_value(s.drop_last()));
        assert(v % 256 == s.last() as nat);
        assert(be_bytes(v, s.len()) =~= s);
    } else {
        assert(be_bytes(be_value(s), 0) =~= s);
    }
}

/// Writes the `n` low-order bytes of `p` to the front of `buf`, most
/// significant byte first.
fn write_be<const N: usize>(buf: &mut [u8; N], p: u64, n: usize)
    requires
        n <= N,
    ensures
        final(buf)@.subrange(0, n as int) == be_bytes(p as nat, n as nat),
        forall|i: int| n <= i < N ==> final(buf)@[i] == old(buf)@[i],
{
    let mut i: usize = n;
    let mut q: u64 = p;
    proof {
        lemma_be_bytes_digits(p as nat, n as nat);
        assert(pow256(0) == 1 && p as nat / 1 == p as nat);
    }
    while i > 0
        invariant
            i <= n <= N,
            q as nat == p as nat / pow256((n - i) as nat),
            be_bytes(p as nat, n as nat).len() == n,
            forall|j: int|
                0 <= j < n ==> #[trigger] be_bytes(p as nat, n as nat)[j] == (p as nat / pow256(
                    (n - 1 - j) as nat,
                )) % 256,
            forall|j: int| i <= j < n ==> buf@[j] == be_bytes(p as nat, n as nat)[j],
            forall|j: int| n <= j < N ==> buf@[j] == old(buf)@[j],
        decreases i,
    {
        i -= 1;
        proof {
            let k = (n - 1 - i) as nat;
            assert(q & 0xff == q % 256 && q >> 8 == q / 256) by (bit_vector);
            assert(pow256(k + 1) == 256 * pow256(k));
            lemma_pow256_is_pow(k);
            vstd::arithmetic::div_mod::lemma_div_denominator(p as int, pow256(k) as int, 256);
        }
        buf[i] = (q & 0xff) as u8;
        q = q >> 8;
    }
    assert(buf@.subrange(0, n as int) =~= be_bytes(p as nat, n as nat));
}

/// The payload of a value in the band of `n`-byte encodings leaves the top
/// `n` bits of its first byte clear, so that the marker fits above it.
proof fn lemma_band_head(p: nat, n: nat)
    requires
        1 <= n <= 9,
        band_start(n) + p < band_start(n + 1) || (n == 9 && p <= u64::MAX),
    ensures
        be_bytes(p, n).len() == n,
        marker(n) + be_bytes(p, n)[0] < marker(n + 1) || (n == 9 && be_bytes(p, n)[0] == 0),
        p < pow256(n),
{
    lemma_be_bytes_digits(p, n);
    lemma_pow256_values();
    assert(pow256(9) == 256 * pow256(8));
    let d = pow256((n - 1) as nat);
    assert(be_bytes(p, n)[0] == (p / d) % 256);
    if n == 1 {
        assert(p / d < 0x80) by (nonlinear_arith)
            requires
                d == 1,
                p < 0x80 * 1,
        ;
    } else if n == 2 {
        assert(p / d < 0x40) by (nonlinear_arith)
            requires
                d == 0x100,
                p < 0x40 * 0x100,
        ;
    } else if n == 3 {
        assert(p / d < 0x20) by (nonlinear_arith)
            requires
                d == 0x1_0000,
                p < 0x20 * 0x1_0000,
        ;
    } else if n == 4 {
        assert(p / d < 0x10) by (nonlinear_arith)
            requires
                d == 0x100_0000,
                p < 0x10 * 0x100_0000,
        ;
    } else if n == 5 {
        assert(p / d < 0x08) by (nonlinear_arith)
            requires
                d == 0x1_0000_0000,
                p < 0x08 * 0x1_0000_0000,
        ;
    } else if n == 6 {
        assert(p / d < 0x04) by (nonlinear_arith)
            requires
                d == 0x100_0000_0000,
                p < 0x04 * 0x100_0000_0000,
        ;
    } else if n == 7 {
        assert(p / d < 0x02) by (nonlinear_arith)
            requires
                d == 0x1_0000_0000_0000,
                p < 0x02 * 0x1_0000_0000_0000,
        ;
    } else if n == 8 {
        assert(p / d < 0x01) by (nonlinear_arith)
            requires
                d == 0x100_0000_0000_0000,
                p < 0x01 * 0x100_0000_0000_0000,
        ;
    } else {
        assert(p / d < 0x01) by (nonlinear_arith)
            requires
                d == 0x1_0000_0000_0000_0000,
                p < 0x01 * 0x1_0000_0000_0000_0000,
        ;
    }
}

/// Sets the marker of an `n`-byte encoding in the first byte of `buf`.
fn set_marker<const N: usize>(buf: &mut [u8; N], n: usize)
    requires
        1 <= n <= 9,
        N >= 1,
        marker(n as nat) + old(buf)@[0] < marker(n as nat + 1) || (n == 9 && old(buf)@[0] == 0),
    ensures
        final(buf)@ == old(buf)@.update(0, (marker(n as nat) + old(buf)@[0]) as u8),
{
    let b: u8 = buf[0];
    let m: u8 = if n == 1 {
        0x00
    } else if n == 2 {
        0x80
    } else if n == 3 {
        0xC0
    } else if n == 4 {
        0xE0
    } else if n == 5 {
        0xF0
    } else if n == 6 {
        0xF8
    } else if n == 7 {
        0xFC
    } else if n == 8 {
        0xFE
    } else {
        0xFF
    };
    assert(m | b == m + b) by (bit_vector)
        requires
            (m == 0x00 && b < 0x80) || (m == 0x80 && b < 0x40) || (m == 0xC0 && b < 0x20) || (m
                == 0xE0 && b < 0x10) || (m == 0xF0 && b < 0x08) || (m == 0xF8 && b < 0x04) || (m
                == 0xFC && b < 0x02) || (m == 0xFE && b < 0x01) || (m == 0xFF && b == 0),
    ;
    buf[0] = m | b;
}

/// Encodes a `u32`. Returns the buffer and the number of bytes used at its
/// front; the bytes behind them are zero.
pub fn encode_prefix_varint_u32(value: u32) -> (r: (U32VarintArr, usize))
    ensures
        r.1 == len_for(value as nat),
        1 <= r.1 <= 5,
        r.0@.subrange(0, r.1 as int) == encoding(value as nat),
        forall|i: int| r.1 <= i < 5 ==> r.0@[i] == 0,
{
    let mut buf: U32VarintArr = [0u8;5];
    let (n, p): (usize, u32) = if value < ENC_1_U32 {
        (1, value)
    } else if value < ENC_2_U32 {
        (2, value - ENC_1_U32)
    } else if value < ENC_3_U32 {
        (3, value - ENC_2_U32)
    } else if value < ENC_4_U32 {
        (4, value - ENC_3_U32)
    } else {
        (5, value - ENC_4_U32)
    };
    proof {
        lemma_band_head(p as nat, n as nat);
    }
    write_be(&mut buf, p as u64, n);
    set_marker(&mut buf, n);
    assert(buf@.subrange(0, n as int) =~= encoding(value as nat));
    (buf, n)
}

/// Encodes a `u64`. Returns the buffer and the number of bytes used at its
/// front; the bytes behind them are zero.
pub fn encode_prefix_varint_u64(value: u64) -> (r: (U64VarintArr, usize))
    ensures
        r.1 == len_for(value as nat),
        1 <= r.1 <= 9,
        r.0@.subrange(0, r.1 as int) == encoding(value as nat),
        forall|i: int| r.1 <= i < 9 ==> r.0@[i] == 0,
{
    let mut buf: U64VarintArr = [0u8;9];
    let (n, p): (usize, u64) = if value < ENC_1_U64 {
        (1, value)
    } else if value < ENC_2_U64 {
        (2, value - ENC_1_U64)
    } else if value < ENC_3_U64 {
        (3, value - ENC_2_U64)
    } else if value < ENC_4_U64 {
        (4, value - ENC_3_U64)
    } else if value < ENC_5_U64 {
        (5, value - ENC_4_U64)
    } else if value < ENC_6_U64 {
        (6, value - ENC_5_U64)
    } else if value < ENC_7_U64 {
        (7, value - ENC_6_U64)
    } else if value < ENC_8_U64 {
        (8, value - ENC_7_U64)
    } else {
        (9, value - ENC_8_U64)
    };
    proof {
        lemma_band_head(p as nat, n as nat);
    }
    write_be(&mut buf, p, n);
    set_marker(&mut buf, n);
    assert(buf@.subrange(0, n as int) =~= encoding(value as nat));
    (buf, n)
}

/// Appending a byte multiplies the number denoted by 256 and adds the byte.
pub proof fn lemma_be_value_push(s: Seq<u8>, b: u8)
    ensures
        be_value(s.push(b)) == 256 * be_value(s) + b as nat,
{
    assert(s.push(b).drop_last() =~= s);
}

pub proof fn lemma_pow256_monotonic(a: nat, b: nat)
    requires
        a <= b,
    ensures
        pow256(a) <= pow256(b),
    decreases b,
{
    if a < b {
        lemma_pow256_monotonic(a, (b - 1) as nat);
    }
}

/// The number denoted by up to nine bytes, written out.
#[verifier::rlimit(50)]
pub proof fn lemma_be_value_closed(s: Seq<u8>)
    requires
        s.len() <= 9,
    ensures
        s.len() == 1 ==> be_value(s) == s[0],
        s.len() == 2 ==> be_value(s) == 0x100 * s[0] + s[1],
        s.len() == 3 ==> be_value(s) == 0x1_0000 * s[0] + 0x100 * s[1] + s[2],
        s.len() == 4 ==> be_value(s) == 0x100_0000 * s[0] + 0x1_0000 * s[1] + 0x100 * s[2] + s[3],
        s.len() == 5 ==> be_value(s) == 0x1_0000_0000 * s[0] + 0x100_0000 * s[1] + 0x1_0000 * s[2]
            + 0x100 * s[3] + s[4],
        s.len() == 6 ==> be_value(s) == 0x100_0000_0000 * s[0] + 0x1_0000_0000 * s[1] + 0x100_0000
            * s[2] + 0x1_0000 * s[3] + 0x100 * s[4] + s[5],
        s.len() == 7 ==> be_value(s) == 0x1_0000_0000_0000 * s[0] + 0x100_0000_0000 * s[1]
            + 0x1_0000_0000 * s[2] + 0x100_0000 * s[3] + 0x1_0000 * s[4] + 0x100 * s[5] + s[6],
        s.len() == 8 ==> be_value(s) == 0x100_0000_0000_0000 * s[0] + 0x1_0000_0000_0000 * s[1]
            + 0x100_0000_0000 * s[2] + 0x1_0000_0000 * s[3] + 0x100_0000 * s[4] + 0x1_0000 * s[5]
            + 0x100 * s[6] + s[7],
        s.len() == 9 ==> be_value(s) == 0x1_0000_0000_0000_0000 * s[0] + 0x100_0000_0000_0000
            * s[1] + 0x1_0000_0000_0000 * s[2] + 0x100_0000_0000 * s[3] + 0x1_0000_0000 * s[4]
            + 0x100_0000 * s[5] + 0x1_0000 * s[6] + 0x100 * s[7] + s[8],
    decreases s.len(),
{
    reveal_with_fuel(be_value, 2);
    if s.len() > 0 {
        lemma_be_value_closed(s.drop_last());
    }
}

/// The first value of the band of `n`-byte encodings.
fn band_base(n: usize) -> (r: u64)
    requires
        1 <= n <= 9,
    ensures
        r == band_start(n as nat),
{
    if n == 1 {
        0
    } else if n == 2 {
        ENC_1_U64
    } else if n == 3 {
        ENC_2_U64
    } else if n == 4 {
        ENC_3_U64
    } else if n == 5 {
        ENC_4_U64
    } else if n == 6 {
        ENC_5_U64
    } else if n == 7 {
        ENC_6_U64
    } else if n == 8 {
        ENC_7_U64
    } else {
        ENC_8_U64
    }
}

/// The count of leading one-bits of a byte is one less than the length of
/// the encoding that it starts.
proof fn lemma_leading_ones(b0: u8)
    ensures
        vstd::std_specs::bits::u8_leading_ones(b0) + 1 == encoded_len(b0),
{
    let x: u8 = !b0;
    let z = vstd::std_specs::bits::u8_leading_zeros(x);
    vstd::std_specs::bits::axiom_u8_leading_zeros(x);
    let zb: u8 = z as u8;
    let s8: u8 = (8 - zb) as u8;
    let s7: u8 = (7 - zb) as u8;
    assert(x >> s8 == 0u8);
    assert(z < 8 ==> (x >> s7) & 1u8 != 0u8);
    assert((b0 < 0x80 ==> zb == 0) && (0x80 <= b0 < 0xC0 ==> zb == 1) && (0xC0 <= b0 < 0xE0 ==> zb
        == 2) && (0xE0 <= b0 < 0xF0 ==> zb == 3) && (0xF0 <= b0 < 0xF8 ==> zb == 4) && (0xF8 <= b0
        < 0xFC ==> zb == 5) && (0xFC <= b0 < 0xFE ==> zb == 6) && (b0 == 0xFE ==> zb == 7) && (b0
        == 0xFF ==> zb == 8)) by (bit_vector)
        requires
            x == !b0,
            zb <= 8,
            s8 == 8 - zb,
            zb < 8 ==> s7 == 7 - zb,
            x >> s8 == 0u8,
            zb < 8 ==> (x >> s7) & 1u8 != 0u8,
    ;
}

/// Decodes a `u64` from the start of `buf`. Returns the value and the number
/// of bytes read.
#[verifier::rlimit(50)]
pub fn decode_prefix_varint_u64(buf: &[u8]) -> (r: Result<(u64, usize), ParseError>)
    ensures
        r == decoding_u64(buf@),
{
    if buf.len() == 0 {
        return Err(ParseError::UnexpectedEOF);
    }
    let b0: u8 = buf[0];
    proof {
        lemma_leading_ones(b0);
    }
    let idx: usize = b0.leading_ones() as usize;
    let byte_len: usize = idx + 1;
    if buf.len() < byte_len {
        return Err(ParseError::UnexpectedEOF);
    }
    proof {
        assert(1u8 << 7usize == 0x80 && 1u8 << 6usize == 0x40 && 1u8 << 5usize == 0x20 && 1u8
            << 4usize == 0x10 && 1u8 << 3usize == 0x08 && 1u8 << 2usize == 0x04 && 1u8 << 1usize
            == 0x02) by (bit_vector);
        assert((b0 < 0x80 ==> b0 & 0x7f == b0) && (0x80 <= b0 < 0xC0 ==> b0 & 0x3f == b0 - 0x80)
            && (0xC0 <= b0 < 0xE0 ==> b0 & 0x1f == b0 - 0xC0) && (0xE0 <= b0 < 0xF0 ==> b0 & 0x0f
            == b0 - 0xE0) && (0xF0 <= b0 < 0xF8 ==> b0 & 0x07 == b0 - 0xF0) && (0xF8 <= b0 < 0xFC
            ==> b0 & 0x03 == b0 - 0xF8) && (0xFC <= b0 < 0xFE ==> b0 & 0x01 == b0 - 0xFC) && (b0
            & 0 == 0)) by (bit_vector);
    }
    let mask: u8 = if idx >= 7 {
        0
    } else {
        (1u8 << (7 - idx)) - 1
    };
    let ghost s = buf@.subrange(0, byte_len as int).update(0, (b0 - marker(byte_len as nat)) as u8);
    assert(b0 & mask == b0 - marker(byte_len as nat));
    let mut val: u64 = (b0 & mask) as u64;
    let mut i: usize = 1;
    proof {
        lemma_be_value_closed(s.subrange(0, 1));
        lemma_pow256_values();
    }
    while i < byte_len
        invariant
            1 <= i <= byte_len <= 9,
            byte_len <= buf.len(),
            s.len() == byte_len,
            forall|j: int| 1 <= j < byte_len ==> s[j] == buf@[j],
            val == be_value(s.subrange(0, i as int)),
            byte_len == 9 ==> val < pow256((i - 1) as nat),
        decreases byte_len - i,
    {
        proof {
            lemma_be_value_bound(s.subrange(0, i as int));
            lemma_pow256_values();
            if byte_len == 9 {
                lemma_pow256_monotonic((i - 1) as nat, 7);
            } else {
                lemma_pow256_monotonic(i as nat, 7);
            }
            assert(val << 8 == val * 256) by (bit_vector)
                requires
                    val < 0x100_0000_0000_0000,
            ;
            assert(s.subrange(0, i + 1) =~= s.subrange(0, i as int).push(buf@[i as int]));
            lemma_be_value_push(s.subrange(0, i as int), buf@[i as int]);
            assert(pow256(i as nat) == 256 * pow256((i - 1) as nat));
        }
        val = (val << 8) + buf[i] as u64;
        i += 1;
    }
    assert(s.subrange(0, byte_len as int) =~= s);
    match val.checked_add(band_base(byte_len)) {
        Some(v) => Ok((v, byte_len)),
        None => Err(ParseError::InvalidVarInt),
    }
}

/// Decodes a `u32` from the start of `buf`: a 64-bit decode whose value must
/// fit in 32 bits.
pub fn decode_prefix_varint_u32(buf: &[u8]) -> (r: Result<(u32, usize), ParseError>)
    ensures
        r == decoding_u32(buf@),
{
    decode_prefix_varint_u32_loop(buf)
}

/// The 32-bit decoder built on the 64-bit one.
pub fn decode_prefix_varint_u32_loop(buf: &[u8]) -> (r: Result<(u32, usize), ParseError>)
    ensures
        r == decoding_u32(buf@),
{
    match decode_prefix_varint_u64(buf) {
        Err(e) => Err(e),
        Ok((val, bytes)) => {
            if val > u32::MAX as u64 {
                Err(ParseError::InvalidVarInt)
            } else {
                Ok((val as u32, bytes))
            }
        },
    }
}

/// A byte moved up by whole bytes is the byte times a power of 256.
proof fn lemma_shift_byte(b: u8)
    ensures
        (b as u64) << 8 == b * 0x100,
        (b as u64) << 16 == b * 0x1_0000,
        (b as u64) << 24 == b * 0x100_0000,
        (b as u64) << 32 == b * 0x1_0000_0000,
        (b as u64) << 40 == b * 0x100_0000_0000,
        (b as u64) << 48 == b * 0x1_0000_0000_0000,
        (b as u64) << 56 == b * 0x100_0000_0000_0000,
        (b as u32) << 8 == b * 0x100,
        (b as u32) << 16 == b * 0x1_0000,
        (b as u32) << 24 == b * 0x100_0000,
{
    assert((b as u64) << 8 == b * 0x100 && (b as u64) << 16 == b * 0x1_0000 && (b as u64) << 24
        == b * 0x100_0000 && (b as u64) << 32 == b * 0x1_0000_0000 && (b as u64) << 40 == b
        * 0x100_0000_0000 && (b as u64) << 48 == b * 0x1_0000_0000_0000 && (b as u64) << 56 == b
        * 0x100_0000_0000_0000 && (b as u32) << 8 == b * 0x100 && (b as u32) << 16 == b * 0x1_0000
        && (b as u32) << 24 == b * 0x100_0000) by (bit_vector);
}

/// The payload bits of a first byte, moved above the bytes that follow it.
proof fn lemma_head_bits(b0: u8)
    ensures
        0x80 <= b0 < 0xC0 ==> ((b0 as u64 & 0x3f) << 8) == (b0 - 0x80) * 0x100,
        0xC0 <= b0 < 0xE0 ==> ((b0 as u64 & 0x1f) << 16) == (b0 - 0xC0) * 0x1_0000,
        0xE0 <= b0 < 0xF0 ==> ((b0 as u64 & 0x0f) << 24) == (b0 - 0xE0) * 0x100_0000,
        0xF0 <= b0 < 0xF8 ==> ((b0 as u64 & 0x07) << 32) == (b0 - 0xF0) * 0x1_0000_0000,
        0xF8 <= b0 < 0xFC ==> ((b0 as u64 & 0x03) << 40) == (b0 - 0xF8) * 0x100_0000_0000,
        0xFC <= b0 < 0xFE ==> ((b0 as u64 & 0x01) << 48) == (b0 - 0xFC) * 0x1_0000_0000_0000,
        0x80 <= b0 < 0xC0 ==> ((b0 as u32 & 0x3f) << 8) == (b0 - 0x80) * 0x100,
        0xC0 <= b0 < 0xE0 ==> ((b0 as u32 & 0x1f) << 16) == (b0 - 0xC0) * 0x1_0000,
        0xE0 <= b0 < 0xF0 ==> ((b0 as u32 & 0x0f) << 24) == (b0 - 0xE0) * 0x100_0000,
{
    assert((0x80 <= b0 < 0xC0 ==> ((b0 as u64 & 0x3f) << 8) == (b0 - 0x80) * 0x100) && (0xC0 <= b0
        < 0xE0 ==> ((b0 as u64 & 0x1f) << 16) == (b0 - 0xC0) * 0x1_0000) && (0xE0 <= b0 < 0xF0
        ==> ((b0 as u64 & 0x0f) << 24) == (b0 - 0xE0) * 0x100_0000) && (0xF0 <= b0 < 0xF8 ==> ((b0
        as u64 & 0x07) << 32) == (b0 - 0xF0) * 0x1_0000_0000) && (0xF8 <= b0 < 0xFC ==> ((b0 as u64
        & 0x03) << 40) == (b0 - 0xF8) * 0x100_0000_0000) && (0xFC <= b0 < 0xFE ==> ((b0 as u64
        & 0x01) << 48) == (b0 - 0xFC) * 0x1_0000_0000_0000) && (0x80 <= b0 < 0xC0 ==> ((b0 as u32
        & 0x3f) << 8) == (b0 - 0x80) * 0x100) && (0xC0 <= b0 < 0xE0 ==> ((b0 as u32 & 0x1f) << 16)
        == (b0 - 0xC0) * 0x1_0000) && (0xE0 <= b0 < 0xF0 ==> ((b0 as u32 & 0x0f) << 24) == (b0
        - 0xE0) * 0x100_0000)) by (bit_vector);
}

/// The payload of the encoding at the start of `buf`, written out byte by
/// byte.
#[verifier::rlimit(50)]
proof fn lemma_payload_closed(buf: Seq<u8>, n: nat)
    requires
        1 <= n <= 9,
        n <= buf.len(),
        n == encoded_len(buf[0]) || (n == 5 && buf[0] == 0xF0),
    ensures
        payload(buf, n) == be_value(
            buf.subrange(0, n as int).update(0, (buf[0] - marker(n)) as u8),
        ),
        n == 1 ==> payload(buf, n) == buf[0],
        n == 2 ==> payload(buf, n) == 0x100 * (buf[0] - 0x80) + buf[1],
        n == 3 ==> payload(buf, n) == 0x1_0000 * (buf[0] - 0xC0) + 0x100 * buf[1] + buf[2],
        n == 4 ==> payload(buf, n) == 0x100_0000 * (buf[0] - 0xE0) + 0x1_0000 * buf[1] + 0x100
            * buf[2] + buf[3],
        n == 5 ==> payload(buf, n) == 0x1_0000_0000 * (buf[0] - 0xF0) + 0x100_0000 * buf[1]
            + 0x1_0000 * buf[2] + 0x100 * buf[3] + buf[4],
        n == 6 ==> payload(buf, n) == 0x100_0000_0000 * (buf[0] - 0xF8) + 0x1_0000_0000 * buf[1]
            + 0x100_0000 * buf[2] + 0x1_0000 * buf[3] + 0x100 * buf[4] + buf[5],
        n == 7 ==> payload(buf, n) == 0x1_0000_0000_0000 * (buf[0] - 0xFC) + 0x100_0000_0000
            * buf[1] + 0x1_0000_0000 * buf[2] + 0x100_0000 * buf[3] + 0x1_0000 * buf[4] + 0x100
            * buf[5] + buf[6],
        n == 8 ==> payload(buf, n) == 0x1_0000_0000_0000 * buf[1] + 0x100_0000_0000 * buf[2]
            + 0x1_0000_0000 * buf[3] + 0x100_0000 * buf[4] + 0x1_0000 * buf[5] + 0x100 * buf[6]
            + buf[7],
        n == 9 ==> payload(buf, n) == 0x100_0000_0000_0000 * buf[1] + 0x1_0000_0000_0000 * buf[2]
            + 0x100_0000_0000 * buf[3] + 0x1_0000_0000 * buf[4] + 0x100_0000 * buf[5] + 0x1_0000
            * buf[6] + 0x100 * buf[7] + buf[8],
{
    lemma_be_value_closed(buf.subrange(0, n as int).update(0, (buf[0] - marker(n)) as u8));
}

/// The 32-bit decoder with one branch per length. It takes any first byte
/// from `0xF0` up for the start of a five-byte encoding, and accepts `0xF0`
/// alone.
#[verifier::rlimit(50)]
pub fn decode_prefix_varint_u32_unroll(buf: &[u8]) -> (r: Result<(u32, usize), ParseError>)
    ensures
        r == decoding_u32_strict(buf@),
{
    if buf.len() == 0 {
        return Err(ParseError::UnexpectedEOF);
    }
    let b0: u8 = buf[0];
    proof {
        lemma_head_bits(b0);
        if buf.len() >= 2 {
            lemma_shift_byte(buf@[1]);
        }
        if buf.len() >= 3 {
            lemma_shift_byte(buf@[2]);
        }
        if buf.len() >= 4 {
            lemma_shift_byte(buf@[3]);
        }
    }
    if b0 <= 0b0111_1111 {
        proof {
            lemma_payload_closed(buf@, 1);
        }
        Ok((b0 as u32, 1))
    } else if b0 <= 0b1011_1111 {
        if buf.len() < 2 {
            return Err(ParseError::UnexpectedEOF);
        }
        proof {
            lemma_payload_closed(buf@, 2);
        }
        let val: u32 = ((b0 as u32 & 0b0011_1111) << 8) + buf[1] as u32 + ENC_1_U32;
        Ok((val, 2))
    } else if b0 <= 0b1101_1111 {
        if buf.len() < 3 {
            return Err(ParseError::UnexpectedEOF);
        }
        proof {
            lemma_payload_closed(buf@, 3);
        }
        let val: u32 = ((b0 as u32 & 0b0001_1111) << 16) + ((buf[1] as u32) << 8) + buf[2] as u32
            + ENC_2_U32;
        Ok((val, 3))
    } else if b0 <= 0b1110_1111 {
        if buf.len() < 4 {
            return Err(ParseError::UnexpectedEOF);
        }
        proof {
            lemma_payload_closed(buf@, 4);
        }
        let val: u32 = ((b0 as u32 & 0b0000_1111) << 24) + ((buf[1] as u32) << 16) + ((
        buf[2] as u32) << 8) + buf[3] as u32 + ENC_3_U32;
        Ok((val, 4))
    } else {
        if buf.len() < 5 {
            return Err(ParseError::UnexpectedEOF);
        }
        if b0 != 0b1111_0000 {
            return Err(ParseError::InvalidVarInt);
        }
        proof {
            lemma_payload_closed(buf@, 5);
            lemma_shift_byte(buf@[4]);
        }
        let val: u32 = ((buf[1] as u32) << 24) + ((buf[2] as u32) << 16) + ((buf[3] as u32) << 8)
            + buf[4] as u32;
        match val.checked_add(ENC_4_U32) {
            Some(v) => Ok((v, 5)),
            None => Err(ParseError::InvalidVarInt),
        }
    }
}

/// The 64-bit decoder with one branch per length.
#[verifier::rlimit(50)]
pub fn decode_prefix_varint_u64_unroll(buf: &[u8]) -> (r: Result<(u64, usize), ParseError>)
    ensures
        r == decoding_u64(buf@),
{
    if buf.len() == 0 {
        return Err(ParseError::UnexpectedEOF);
    }
    let b0: u8 = buf[0];
    proof {
        lemma_head_bits(b0);
        assert forall|j: int| 0 <= j < buf.len() implies (buf@[j] as u64) << 8 == buf@[j] * 0x100
            && (buf@[j] as u64) << 16 == buf@[j] * 0x1_0000 && (buf@[j] as u64) << 24 == buf@[j]
            * 0x100_0000 && (buf@[j] as u64) << 32 == buf@[j] * 0x1_0000_0000 && (buf@[j] as u64)
            << 40 == buf@[j] * 0x100_0000_0000 && (buf@[j] as u64) << 48 == buf@[j]
            * 0x1_0000_0000_0000 && (#[trigger] buf@[j] as u64) << 56 == buf@[j]
            * 0x100_0000_0000_0000 by {
            lemma_shift_byte(buf@[j]);
        }
    }
    if b0 <= 0b0111_1111 {
        proof {
            lemma_payload_closed(buf@, 1);
        }
        Ok((b0 as u64, 1))
    } else if b0 <= 0b1011_1111 {
        if buf.len() < 2 {
            return Err(ParseError::UnexpectedEOF);
        }
        proof {
            lemma_payload_closed(buf@, 2);
        }
        let val: u64 = ((b0 as u64 & 0b0011_1111) << 8) + buf[1] as u64 + ENC_1_U64;
        Ok((val, 2))
    } else if b0 <= 0b1101_1111 {
        if buf.len() < 3 {
            return Err(ParseError::UnexpectedEOF);
        }
        proof {
            lemma_payload_closed(buf@, 3);
        }
        let val: u64 = ((b0 as u64 & 0b0001_1111) << 16) + ((buf[1] as u64) << 8) + buf[2] as u64
            + ENC_2_U64;
        Ok((val, 3))
    } else if b0 <= 0b1110_1111 {
        if buf.len() < 4 {
            return Err(ParseError::UnexpectedEOF);
        }
        proof {
            lemma_payload_closed(buf@, 4);
        }
        let val: u64 = ((b0 as u64 & 0b0000_1111) << 24) + ((buf[1] as u64) << 16) + ((
        buf[2] as u64) << 8) + buf[3] as u64 + ENC_3_U64;
        Ok((val, 4))
    } else if b0 <= 0b1111_0111 {
        if buf.len() < 5 {
            return Err(ParseError::UnexpectedEOF);
        }
        proof {
            lemma_payload_closed(buf@, 5);
        }
        let val: u64 = ((b0 as u64 & 0b0000_0111) << 32) + ((buf[1] as u64) << 24) + ((
        buf[2] as u64) << 16) + ((buf[3] as u64) << 8) + buf[4] as u64 + ENC_4_U64;
        Ok((val, 5))
    } else if b0 <= 0b1111_1011 {
        if buf.len() < 6 {
            return Err(ParseError::UnexpectedEOF);
        }
        proof {
            lemma_payload_closed(buf@, 6);
        }
        let val: u64 = ((b0 as u64 & 0b0000_0011) << 40) + ((buf[1] as u64) << 32) + ((
        buf[2] as u64) << 24) + ((buf[3] as u64) << 16) + ((buf[4] as u64) << 8) + buf[5] as u64
            + ENC_5_U64;
        Ok((val, 6))
    } else if b0 <= 0b1111_1101 {
        if buf.len() < 7 {
            return Err(ParseError::UnexpectedEOF);
        }
        proof {
            lemma_payload_closed(buf@, 7);
        }
        let val: u64 = ((b0 as u64 & 0b0000_0001) << 48) + ((buf[1] as u64) << 40) + ((
        buf[2] as u64) << 32) + ((buf[3] as u64) << 24) + ((buf[4] as u64) << 16) + ((
        buf[5] as u64) << 8) + buf[6] as u64 + ENC_6_U64;
        Ok((val, 7))
    } else if b0 == 0b1111_1110 {
        if buf.len() < 8 {
            return Err(ParseError::UnexpectedEOF);
        }
        proof {
            lemma_payload_closed(buf@, 8);
        }
        let val: u64 = ((buf[1] as u64) << 48) + ((buf[2] as u64) << 40) + ((buf[3] as u64) << 32)
            + ((buf[4] as u64) << 24) + ((buf[5] as u64) << 16) + ((buf[6] as u64) << 8)
            + buf[7] as u64 + ENC_7_U64;
        Ok((val, 8))
    } else {
        if buf.len() < 9 {
            return Err(ParseError::UnexpectedEOF);
        }
        proof {
            lemma_payload_closed(buf@, 9);
        }
        let val: u64 = ((buf[1] as u64) << 56) + ((buf[2] as u64) << 48) + ((buf[3] as u64) << 40)
            + ((buf[4] as u64) << 32) + ((buf[5] as u64) << 24) + ((buf[6] as u64) << 16) + ((
        buf[7] as u64) << 8) + buf[8] as u64;
        match val.checked_add(ENC_8_U64) {
            Some(v) => Ok((v, 9)),
            None => Err(ParseError::InvalidVarInt),
        }
    }
}

/// The branch-per-length decoder on a full nine-byte buffer, which cannot
/// run short. The buffer must hold an encoding of a 64-bit value.
#[verifier::rlimit(50)]
pub fn decode_prefix_varint_u64_unroll_flat(buf: &U64VarintArr) -> (r: (u64, usize))
    requires
        decoding_u64(buf@) is Ok,
    ensures
        decoding_u64(buf@) == Ok::<(u64, usize), ParseError>(r),
{
    let b0: u8 = buf[0];
    proof {
        lemma_head_bits(b0);
        assert forall|j: int| 0 <= j < buf@.len() implies (buf@[j] as u64) << 8 == buf@[j] * 0x100
            && (buf@[j] as u64) << 16 == buf@[j] * 0x1_0000 && (buf@[j] as u64) << 24 == buf@[j]
            * 0x100_0000 && (buf@[j] as u64) << 32 == buf@[j] * 0x1_0000_0000 && (buf@[j] as u64)
            << 40 == buf@[j] * 0x100_0000_0000 && (buf@[j] as u64) << 48 == buf@[j]
            * 0x1_0000_0000_0000 && (#[trigger] buf@[j] as u64) << 56 == buf@[j]
            * 0x100_0000_0000_0000 by {
            lemma_shift_byte(buf@[j]);
        }
        lemma_payload_closed(buf@, encoded_len(b0));
    }
    if b0 <= 0b0111_1111 {
        (b0 as u64, 1)
    } else if b0 <= 0b1011_1111 {
        let val: u64 = ((b0 as u64 & 0b0011_1111) << 8) + buf[1] as u64 + ENC_1_U64;
        (val, 2)
    } else if b0 <= 0b1101_1111 {
        let val: u64 = ((b0 as u64 & 0b0001_1111) << 16) + ((buf[1] as u64) << 8) + buf[2] as u64
            + ENC_2_U64;
        (val, 3)
    } else if b0 <= 0b1110_1111 {
        let val: u64 = ((b0 as u64 & 0b0000_1111) << 24) + ((buf[1] as u64) << 16) + ((
        buf[2] as u64) << 8) + buf[3] as u64 + ENC_3_U64;
        (val, 4)
    } else if b0 <= 0b1111_0111 {
        let val: u64 = ((b0 as u64 & 0b0000_0111) << 32) + ((buf[1] as u64) << 24) + ((
        buf[2] as u64) << 16) + ((buf[3] as u64) << 8) + buf[4] as u64 + ENC_4_U64;
        (val, 5)
    } else if b0 <= 0b1111_1011 {
        let val: u64 = ((b0 as u64 & 0b0000_0011) << 40) + ((buf[1] as u64) << 32) + ((
        buf[2] as u64) << 24) + ((buf[3] as u64) << 16) + ((buf[4] as u64) << 8) + buf[5] as u64
            + ENC_5_U64;
        (val, 6)
    } else if b0 <= 0b1111_1101 {
        let val: u64 = ((b0 as u64 & 0b0000_0001) << 48) + ((buf[1] as u64) << 40) + ((
        buf[2] as u64) << 32) + ((buf[3] as u64) << 24) + ((buf[4] as u64) << 16) + ((
        buf[5] as u64) << 8) + buf[6] as u64 + ENC_6_U64;
        (val, 7)
    } else if b0 == 0b1111_1110 {
        let val: u64 = ((buf[1] as u64) << 48) + ((buf[2] as u64) << 40) + ((buf[3] as u64) << 32)
            + ((buf[4] as u64) << 24) + ((buf[5] as u64) << 16) + ((buf[6] as u64) << 8)
            + buf[7] as u64 + ENC_7_U64;
        (val, 8)
    } else {
        let val: u64 = ((buf[1] as u64) << 56) + ((buf[2] as u64) << 48) + ((buf[3] as u64) << 40)
            + ((buf[4] as u64) << 32) + ((buf[5] as u64) << 24) + ((buf[6] as u64) << 16) + ((
        buf[7] as u64) << 8) + buf[8] as u64 + ENC_8_U64;
        (val, 9)
    }
}

/// What decoding a `usize` from the start of `buf` gives.
pub open spec fn decoding_usize(buf: Seq<u8>) -> Result<(usize, usize), ParseError> {
    match decoding_u64(buf) {
        Err(e) => Err(e),
        Ok((v, n)) => if v > usize::MAX {
            Err(ParseError::InvalidVarInt)
        } else {
            Ok((v as usize, n))
        },
    }
}

/// Decodes a `usize` from the start of `buf`, through the decoder of the
/// machine's word size.
pub fn decode_prefix_varint_usize(buf: &[u8]) -> (r: Result<(usize, usize), ParseError>)
    ensures
        r == decoding_usize(buf@),
{
    if usize::BITS <= 32 {
        match decode_prefix_varint_u32(buf) {
            Err(e) => Err(e),
            Ok((val, count)) => Ok((val as usize, count)),
        }
    } else {
        match decode_prefix_varint_u64(buf) {
            Err(e) => Err(e),
            Ok((val, count)) => Ok((val as usize, count)),
        }
    }
}

/// Packs a flag into the low bit of a value whose top bit is free.
pub fn mix_bit_u64(value: u64, extra: bool) -> (r: u64)
    requires
        value < u64::MAX / 2,
    ensures
        r == 2 * value + if extra { 1int } else { 0 },
{
    value * 2 + if extra { 1 } else { 0 }
}

/// Packs a flag into the low bit of a value whose top bit is free.
pub fn mix_bit_u32(value: u32, extra: bool) -> (r: u32)
    requires
        value < u32::MAX / 2,
    ensures
        r == 2 * value + if extra { 1int } else { 0 },
{
    value * 2 + if extra { 1 } else { 0 }
}

/// Packs a flag into the low bit of a value whose top bit is free.
pub fn mix_bit_usize(value: usize, extra: bool) -> (r: usize)
    requires
        value < usize::MAX / 2,
    ensures
        r == 2 * value + if extra { 1int } else { 0 },
{
    if usize::BITS <= 32 {
        mix_bit_u32(value as u32, extra) as usize
    } else {
        mix_bit_u64(value as u64, extra) as usize
    }
}

/// Splits a value into all but its low bit, and that bit as a flag.
pub fn strip_bit_u64(value: u64) -> (r: (u64, bool))
    ensures
        r.0 == value / 2,
        r.1 == (value % 2 == 1),
{
    assert(value >> 1 == value / 2 && ((value & 1) != 0 <==> value % 2 == 1)) by (bit_vector);
    let bit = (value & 1) != 0;
    (value >> 1, bit)
}

/// Splits a value into all but its low bit, and that bit as a flag.
pub fn strip_bit_u32(value: u32) -> (r: (u32, bool))
    ensures
        r.0 == value / 2,
        r.1 == (value % 2 == 1),
{
    assert(value >> 1 == value / 2 && ((value & 1) != 0 <==> value % 2 == 1)) by (bit_vector);
    let bit = (value & 1) != 0;
    (value >> 1, bit)
}

/// Removes the low bit of `value` in place and returns it as a flag.
pub fn strip_bit_u32_2(value: &mut u32) -> (bit: bool)
    ensures
        *final(value) == *old(value) / 2,
        bit == (*old(value) % 2 == 1),
{
    let (rest, bit) = strip_bit_u32(*value);
    *value = rest;
    bit
}

/// Splits a value into all but its low bit, and that bit as a flag.
pub fn strip_bit_usize(value: usize) -> (r: (usize, bool))
    ensures
        r.0 == value / 2,
        r.1 == (value % 2 == 1),
{
    assert(value >> 1 == value / 2 && ((value & 1) != 0 <==> value % 2 == 1)) by (bit_vector);
    let bit = (value & 1) != 0;
    (value >> 1, bit)
}

/// Removes the low bit of `value` in place and returns it as a flag.
pub fn strip_bit_usize_2(value: &mut usize) -> (bit: bool)
    ensures
        *final(value) == *old(value) / 2,
        bit == (*old(value) % 2 == 1),
{
    let (rest, bit) = strip_bit_usize(*value);
    *value = rest;
    bit
}

/// The zigzag image of a signed integer: non-negative values go to the even
/// numbers and negative values to the odd ones, in order of magnitude.
pub open spec fn zigzag(v: int) -> int {
    if v >= 0 {
        2 * v
    } else {
        -2 * v - 1
    }
}

/// The signed integer whose zigzag image is `z`.
pub open spec fn unzigzag(z: int) -> int {
    if z % 2 == 0 {
        z / 2
    } else {
        -(z / 2) - 1
    }
}

pub fn num_decode_zigzag_i32(val: u32) -> (r: i32)
    ensures
        r == unzigzag(val as int),
{
    assert(val >> 1 == val / 2 && (val & 1 == 1 <==> val % 2 == 1)) by (bit_vector);
    let n: i32 = (val >> 1) as i32;
    if val & 1 == 1 {
        -n - 1
    } else {
        n
    }
}

pub fn num_decode_zigzag_i64(val: u64) -> (r: i64)
    ensures
        r == unzigzag(val as int),
{
    assert(val >> 1 == val / 2 && (val & 1 == 1 <==> val % 2 == 1)) by (bit_vector);
    let n: i64 = (val >> 1) as i64;
    if val & 1 == 1 {
        -n - 1
    } else {
        n
    }
}

pub fn num_decode_zigzag_isize(val: usize) -> (r: isize)
    ensures
        r == unzigzag(val as int),
{
    if usize::BITS <= 32 {
        num_decode_zigzag_i32(val as u32) as isize
    } else {
        num_decode_zigzag_i64(val as u64) as isize
    }
}

pub fn num_encode_zigzag_i64(val: i64) -> (r: u64)
    ensures
        r == zigzag(val as int),
{
    assert(((val << 1) ^ (val >> 63)) as u64 == (if val >= 0 {
        2 * val
    } else {
        -2 * val - 1
    })) by (bit_vector);
    ((val << 1) ^ (val >> 63)) as u64
}

pub fn num_encode_zigzag_i32(val: i32) -> (r: u32)
    ensures
        r == zigzag(val as int),
{
    assert(((val << 1) ^ (val >> 31)) as u32 == (if val >= 0 {
        2 * val
    } else {
        -2 * val - 1
    })) by (bit_vector);
    ((val << 1) ^ (val >> 31)) as u32
}

pub fn num_encode_zigzag_isize(val: isize) -> (r: usize)
    ensures
        r == zigzag(val as int),
{
    if usize::BITS <= 32 {
        num_encode_zigzag_i32(val as i32) as usize
    } else {
        num_encode_zigzag_i64(val as i64) as usize
    }
}

/// Appends the encoding of `val` to `into`, if it fits.
pub fn try_push_u32<V: TryExtendFromSlice>(into: &mut V, val: u32) -> (r: Result<(), ()>)
    ensures
        r is Ok <==> encoding(val as nat).len() <= old(into).room(),
        r is Ok ==> final(into).bytes() == old(into).bytes() + encoding(val as nat),
        r is Err ==> final(into).bytes() == old(into).bytes(),
{
    let (buf, pos) = encode_prefix_varint_u32(val);
    into.try_extend_from_slice(vstd::slice::slice_subrange(buf.as_slice(), 0, pos))
}

/// Appends the encoding of `val` to `into`, if it fits.
pub fn try_push_u64<V: TryExtendFromSlice>(into: &mut V, val: u64) -> (r: Result<(), ()>)
    ensures
        r is Ok <==> encoding(val as nat).len() <= old(into).room(),
        r is Ok ==> final(into).bytes() == old(into).bytes() + encoding(val as nat),
        r is Err ==> final(into).bytes() == old(into).bytes(),
{
    let (buf, pos) = encode_prefix_varint_u64(val);
    into.try_extend_from_slice(vstd::slice::slice_subrange(buf.as_slice(), 0, pos))
}

/// Appends the encoding of `val` to `into`, if it fits.
pub fn try_push_usize<V: TryExtendFromSlice>(into: &mut V, val: usize) -> (r: Result<(), ()>)
    ensures
        r is Ok <==> encoding(val as nat).len() <= old(into).room(),
        r is Ok ==> final(into).bytes() == old(into).bytes() + encoding(val as nat),
        r is Err ==> final(into).bytes() == old(into).bytes(),
{
    if usize::BITS <= 32 {
        try_push_u32(into, val as u32)
    } else {
        try_push_u64(into, val as u64)
    }
}

/// Appends the encoding of `val` to `into`.
pub fn push_u32<V: ExtendFromSlice>(into: &mut V, val: u32)
    ensures
        final(into).bytes() == old(into).bytes() + encoding(val as nat),
{
    let (buf, pos) = encode_prefix_varint_u32(val);
    into.extend_from_slice(vstd::slice::slice_subrange(buf.as_slice(), 0, pos));
}

/// Appends the encoding of `val` to `into`.
pub fn push_u64<V: ExtendFromSlice>(into: &mut V, val: u64)
    ensures
        final(into).bytes() == old(into).bytes() + encoding(val as nat),
{
    let (buf, pos) = encode_prefix_varint_u64(val);
    into.extend_from_slice(vstd::slice::slice_subrange(buf.as_slice(), 0, pos));
}

/// Appends the encoding of `val` to `into`.
pub fn push_usize<V: ExtendFromSlice>(into: &mut V, val: usize)
    ensures
        final(into).bytes() == old(into).bytes() + encoding(val as nat),
{
    if usize::BITS <= 32 {
        push_u32(into, val as u32);
    } else {
        push_u64(into, val as u64);
    }
}

/// Decoding reverses encoding: a buffer that starts with the encoding of `v`
/// decodes to `v` and to the length of that encoding, whatever follows it.
pub proof fn lemma_decode_of_encoding(v: u64, buf: Seq<u8>)
    requires
        buf.len() >= len_for(v as nat),
        buf.subrange(0, len_for(v as nat) as int) == encoding(v as nat),
    ensures
        encoding(v as nat).len() == len_for(v as nat),
        decoding_u64(buf) == Ok::<(u64, usize), ParseError>((v, len_for(v as nat) as usize)),
{
    let n = len_for(v as nat);
    let p = (v - band_start(n)) as nat;
    let body = be_bytes(p, n);
    lemma_band_head(p, n);
    assert(buf[0] == encoding(v as nat)[0]);
    assert(encoded_len(buf[0]) == n);
    assert(buf.subrange(0, n as int).update(0, (buf[0] - marker(n)) as u8) =~= body);
    lemma_be_value_of_bytes(p, n);
}

/// Encoding reverses decoding: the bytes that a successful decode consumed
/// are the encoding of the value it returned. So no value has two encodings,
/// and none has one shorter than `len_for` says.
pub proof fn lemma_encoding_of_decoded(buf: Seq<u8>, v: u64, n: usize)
    requires
        decoding_u64(buf) == Ok::<(u64, usize), ParseError>((v, n)),
    ensures
        n == len_for(v as nat),
        buf.subrange(0, n as int) == encoding(v as nat),
{
    let s = buf.subrange(0, n as int).update(0, (buf[0] - marker(n as nat)) as u8);
    lemma_be_bytes_of_value(s);
    lemma_decoded_band(buf);
    assert(buf.subrange(0, n as int) =~= encoding(v as nat));
}

/// A decoded value lies in the band of the length that was read.
proof fn lemma_decoded_band(buf: Seq<u8>)
    requires
        buf.len() > 0,
        buf.len() >= encoded_len(buf[0]),
    ensures
        band_start(encoded_len(buf[0])) <= decoded_value(buf),
        encoded_len(buf[0]) < 9 ==> decoded_value(buf) < band_start(encoded_len(buf[0]) + 1),
{
    lemma_payload_closed(buf, encoded_len(buf[0]));
}

/// Two buffers that decode to the same value start with the same bytes.
pub proof fn lemma_decoding_injective(a: Seq<u8>, b: Seq<u8>)
    requires
        decoding_u64(a) is Ok,
        decoding_u64(b) is Ok,
        decoding_u64(a)->Ok_0.0 == decoding_u64(b)->Ok_0.0,
    ensures
        decoding_u64(a)->Ok_0.1 == decoding_u64(b)->Ok_0.1,
        a.subrange(0, decoding_u64(a)->Ok_0.1 as int) == b.subrange(
            0,
            decoding_u64(b)->Ok_0.1 as int,
        ),
{
    let (va, na) = decoding_u64(a)->Ok_0;
    let (vb, nb) = decoding_u64(b)->Ok_0;
    lemma_encoding_of_decoded(a, va, na);
    lemma_encoding_of_decoded(b, vb, nb);
}

/// A 32-bit value takes at most five bytes, and both 32-bit decoders read it
/// back from any buffer that starts with its encoding.
pub proof fn lemma_decode_of_encoding_u32(v: u32, buf: Seq<u8>)
    requires
        buf.len() >= len_for(v as nat),
        buf.subrange(0, len_for(v as nat) as int) == encoding(v as nat),
    ensures
        len_for(v as nat) <= 5,
        decoding_u32(buf) == Ok::<(u32, usize), ParseError>((v, len_for(v as nat) as usize)),
        decoding_u32_strict(buf) == decoding_u32(buf),
{
    lemma_decode_of_encoding(v as u64, buf);
    lemma_u32_decoders_agree(buf);
}

/// The two 32-bit decoders accept the same buffers and return the same value
/// for them. They may differ in the error that they report.
pub proof fn lemma_u32_decoders_agree(buf: Seq<u8>)
    ensures
        decoding_u32(buf) is Ok <==> decoding_u32_strict(buf) is Ok,
        decoding_u32(buf) is Ok ==> decoding_u32(buf) == decoding_u32_strict(buf),
{
    if buf.len() > 0 {
        let n = encoded_len(buf[0]);
        if buf.len() >= n {
            lemma_decoded_band(buf);
            lemma_payload_closed(buf, n);
        }
        if buf[0] == 0xF0 && buf.len() >= 5 {
            lemma_payload_closed(buf, 5);
        }
    }
}

/// Zigzag decoding reverses zigzag encoding, for every integer.
pub proof fn lemma_unzigzag_zigzag(v: int)
    ensures
        zigzag(v) >= 0,
        unzigzag(zigzag(v)) == v,
{
}

/// Zigzag encoding reverses zigzag decoding, for every natural number: the
/// mapping is a bijection between the integers and the naturals.
pub proof fn lemma_zigzag_unzigzag(z: nat)
    ensures
        zigzag(unzigzag(z as int)) == z,
{
}

/// The zigzag image of an `n`-bit signed integer is an `n`-bit unsigned one,
/// and small magnitudes have small images.
pub proof fn lemma_zigzag_range(v: int, bound: int)
    requires
        -bound <= v < bound,
    ensures
        0 <= zigzag(v) < 2 * bound,
{
}

/// Stripping the low bit returns what `mix_bit` packed.
pub proof fn lemma_strip_of_mix(value: nat, extra: bool)
    ensures
        (2 * value + if extra { 1int } else { 0 }) / 2 == value,
        ((2 * value + if extra { 1int } else { 0 }) % 2 == 1) == extra,
{
}

} // verus!
