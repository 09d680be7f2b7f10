//! Big-endian integers as used in BACnet primitive values: minimal-length
//! unsigned and two's-complement signed encodings.
use crate::error::{EncodingError, Result};
use vstd::prelude::*;

verus! {

/// The unsigned value of a big-endian byte string.
pub open spec fn be_value(s: Seq<u8>) -> nat
    decreases s.len(),
{
    if s.len() == 0 {
        0
    } else {
        be_value(s.drop_last()) * 256 + s.last() as nat
    }
}

/// 256 to the power `n`.
pub open spec fn pow256(n: nat) -> nat
    decreases n,
{
    if n == 0 {
        1
    } else {
        256 * pow256((n - 1) as nat)
    }
}

/// The lowest `n` bytes of `v`, most significant first.
pub open spec fn be_bytes(v: nat, n: nat) -> Seq<u8>
    decreases n,
{
    if n == 0 {
        Seq::empty()
    } else {
        be_bytes(v / 256, (n - 1) as nat).push((v % 256) as u8)
    }
}

/// Number of octets in the minimal unsigned encoding of `v` (at least one).
pub open spec fn unsigned_len(v: nat) -> nat
    decreases v,
{
    if v < 256 {
        1
    } else {
        1 + unsigned_len(v / 256)
    }
}

/// The minimal unsigned encoding of `v`.
pub open spec fn unsigned_bytes(v: nat) -> Seq<u8> {
    be_bytes(v, unsigned_len(v))
}

pub open spec fn abs(v: int) -> nat {
    if v < 0 {
        (-v) as nat
    } else {
        v as nat
    }
}

/// Number of octets in the minimal two's-complement encoding of `v`.
pub open spec fn signed_len(v: int) -> nat
    decreases abs(v),
{
    if -128 <= v < 128 {
        1
    } else {
        1 + signed_len(v / 256)
    }
}

/// The lowest `n` octets of the two's-complement form of `v`, most significant first.
pub open spec fn signed_bytes(v: int, n: nat) -> Seq<u8>
    decreases n,
{
    if n == 0 {
        Seq::empty()
    } else {
        signed_bytes(v / 256, (n - 1) as nat).push((v % 256) as u8)
    }
}

/// The minimal two's-complement encoding of `v`.
pub open spec fn signed_min_bytes(v: int) -> Seq<u8> {
    signed_bytes(v, signed_len(v))
}

/// The two's-complement value of a big-endian byte string (0 for an empty one).
pub open spec fn signed_value(s: Seq<u8>) -> int
    decreases s.len(),
{
    if s.len() == 0 {
        0
    } else if s.len() == 1 {
        if s[0] >= 128 {
            s[0] - 256
        } else {
            s[0] as int
        }
    } else {
        signed_value(s.drop_last()) * 256 + s.last()
    }
}

/// What `bytes_to_unsigned` gives for a payload: 1 to 8 octets, big-endian.
pub open spec fn parse_unsigned_payload(s: Seq<u8>) -> Result<u64> {
    if 1 <= s.len() <= 8 {
        Ok(be_value(s) as u64)
    } else {
        Err(EncodingError::InvalidLength)
    }
}

/// What `bytes_to_u32` gives for a payload: 1 to 4 octets, big-endian.
pub open spec fn parse_u32_payload(s: Seq<u8>) -> Result<u32> {
    if 1 <= s.len() <= 4 {
        Ok(be_value(s) as u32)
    } else {
        Err(EncodingError::InvalidLength)
    }
}

/// What `bytes_to_signed` gives for a payload: 1 to 8 octets, two's complement.
pub open spec fn parse_signed_payload(s: Seq<u8>) -> Result<i64> {
    if 1 <= s.len() <= 8 {
        Ok(signed_value(s) as i64)
    } else {
        Err(EncodingError::InvalidLength)
    }
}

pub proof fn lemma_pow256_values()
    ensures
        pow256(1) == 256,
        pow256(2) == 65536,
        pow256(3) == 16777216,
        pow256(4) == 4294967296,
        pow256(8) == 18446744073709551616,
{
    reveal_with_fuel(pow256, 9);
}

pub proof fn lemma_pow256_monotonic(a: nat, b: nat)
    requires
        a <= b,
    ensures
        pow256(a) <= pow256(b),
    decreases b,
{
    if a < b {
        lemma_pow256_monotonic(a, (b - 1) as nat);
    }
}

pub proof fn lemma_be_value_bound(s: Seq<u8>)
    ensures
        be_value(s) < pow256(s.len()),
    decreases s.len(),
{
    if s.len() > 0 {
        lemma_be_value_bound(s.drop_last());
    }
}

pub proof fn lemma_be_value_step(s: Seq<u8>, i: int)
    requires
        0 <= i < s.len(),
    ensures
        be_value(s.take(i + 1)) == be_value(s.take(i)) * 256 + s[i],
{
    assert(s.take(i + 1).drop_last() =~= s.take(i));
}

pub proof fn lemma_be_bytes_len(v: nat, n: nat)
    ensures
        be_bytes(v, n).len() == n,
    decreases n,
{
    if n > 0 {
        lemma_be_bytes_len(v / 256, (n - 1) as nat);
    }
}

pub proof fn lemma_be_bytes_value(v: nat, n: nat)
    requires
        v < pow256(n),
    ensures
        be_value(be_bytes(v, n)) == v,
    decreases n,
{
    if n > 0 {
        lemma_be_bytes_value(v / 256, (n - 1) as nat);
        assert(be_bytes(v, n).drop_last() =~= be_bytes(v / 256, (n - 1) as nat));
    }
}

pub proof fn lemma_unsigned_len_fits(v: nat)
    ensures
        v < pow256(unsigned_len(v)),
        unsigned_len(v) >= 1,
    decreases v,
{
    if v >= 256 {
        lemma_unsigned_len_fits(v / 256);
    } else {
        lemma_pow256_values();
    }
}

pub proof fn lemma_unsigned_len_bound(v: nat, k: nat)
    requires
        k >= 1,
        v < pow256(k),
    ensures
        unsigned_len(v) <= k,
    decreases v,
{
    lemma_pow256_values();
    if v >= 256 {
        if k == 1 {
            assert(false);
        }
        lemma_unsigned_len_bound(v / 256, (k - 1) as nat);
    }
}

/// The minimal unsigned encoding reads back as the value it encodes.
pub proof fn lemma_unsigned_bytes(v: nat)
    ensures
        be_value(unsigned_bytes(v)) == v,
        unsigned_bytes(v).len() == unsigned_len(v),
        unsigned_len(v) >= 1,
{
    lemma_unsigned_len_fits(v);
    lemma_be_bytes_value(v, unsigned_len(v));
    lemma_be_bytes_len(v, unsigned_len(v));
}

pub proof fn lemma_signed_bytes_len(v: int, n: nat)
    ensures
        signed_bytes(v, n).len() == n,
    decreases n,
{
    if n > 0 {
        lemma_signed_bytes_len(v / 256, (n - 1) as nat);
    }
}

pub proof fn lemma_signed_len_pos(v: int)
    ensures
        signed_len(v) >= 1,
    decreases abs(v),
{
    if !(-128 <= v < 128) {
        lemma_signed_len_pos(v / 256);
    }
}

/// The minimal two's-complement encoding reads back as the value it encodes.
pub proof fn lemma_signed_bytes_value(v: int)
    ensures
        signed_value(signed_min_bytes(v)) == v,
        signed_min_bytes(v).len() == signed_len(v),
    decreases abs(v),
{
    lemma_signed_len_pos(v);
    lemma_signed_bytes_len(v, signed_len(v));
    if -128 <= v < 128 {
        assert(signed_min_bytes(v) =~= seq![(v % 256) as u8]);
    } else {
        lemma_signed_bytes_value(v / 256);
        lemma_signed_len_pos(v / 256);
        assert(signed_min_bytes(v).drop_last() =~= signed_min_bytes(v / 256));
    }
}

/// Bounds on a two's-complement value: within half the range of its width.
pub proof fn lemma_signed_value_bound(s: Seq<u8>)
    requires
        s.len() >= 1,
    ensures
        -pow256(s.len()) <= 2 * signed_value(s) < pow256(s.len()),
    decreases s.len(),
{
    if s.len() == 1 {
        lemma_pow256_values();
    } else {
        lemma_signed_value_bound(s.drop_last());
    }
}

pub proof fn lemma_signed_value_step(s: Seq<u8>, i: int)
    requires
        1 <= i < s.len(),
    ensures
        signed_value(s.take(i + 1)) == signed_value(s.take(i)) * 256 + s[i],
{
    assert(s.take(i + 1).drop_last() =~= s.take(i));
}

/// The minimal signed length of an `i64` is at most eight octets.
pub proof fn lemma_signed_len_i64(v: int)
    requires
        -0x8000_0000_0000_0000 <= v < 0x8000_0000_0000_0000,
    ensures
        signed_len(v) <= 8,
{
    lemma_pow256_values();
    lemma_signed_len_bound(v, 8);
}

pub proof fn lemma_signed_len_bound(v: int, k: nat)
    requires
        k >= 1,
        -pow256(k) <= 2 * v < pow256(k),
    ensures
        signed_len(v) <= k,
    decreases abs(v),
{
    lemma_pow256_values();
    if !(-128 <= v < 128) {
        if k == 1 {
            assert(false);
        }
        let p = pow256((k - 1) as nat);
        assert(pow256(k) == 256 * p);
        lemma_signed_len_bound(v / 256, (k - 1) as nat);
    }
}

/// The four octets of a 32-bit value, spelled out.
pub proof fn lemma_be_bytes_4(v: nat)
    ensures
        be_bytes(v, 4) == seq![
            ((v / 16777216) % 256) as u8,
            ((v / 65536) % 256) as u8,
            ((v / 256) % 256) as u8,
            (v % 256) as u8,
        ],
{
    vstd::arithmetic::div_mod::lemma_div_denominator(v as int, 256, 256);
    vstd::arithmetic::div_mod::lemma_div_denominator(v as int, 65536, 256);
    assert(v / 256 / 256 == v / 65536);
    assert(v / 65536 / 256 == v / 16777216);
    reveal_with_fuel(be_bytes, 5);
    assert(be_bytes(v, 4) =~= seq![
        ((v / 16777216) % 256) as u8,
        ((v / 65536) % 256) as u8,
        ((v / 256) % 256) as u8,
        (v % 256) as u8,
    ]);
}

/// The four big-endian octets of a 32-bit value.
pub fn u32_to_be4(v: u32) -> (r: Vec<u8>)
    ensures
        r@ == be_bytes(v as nat, 4),
        r@.len() == 4,
{
    let mut out: Vec<u8> = Vec::new();
    out.push(((v / 16777216) % 256) as u8);
    out.push(((v / 65536) % 256) as u8);
    out.push(((v / 256) % 256) as u8);
    out.push((v % 256) as u8);
    proof {
        lemma_be_bytes_4(v as nat);
        assert(out@ =~= be_bytes(v as nat, 4));
    }
    out
}

/// Quotient and remainder of `x` by 256, rounded toward minus infinity.
fn div_mod_256(x: i64) -> (qr: (i64, i64))
    ensures
        qr.0 == x / 256,
        qr.1 == x % 256,
        0 <= qr.1 < 256,
{
    let r = x % 256;
    if r < 0 {
        (x / 256 - 1, r + 256)
    } else {
        (x / 256, r)
    }
}

/// The minimal big-endian encoding of an unsigned value.
pub fn unsigned_to_bytes(v: u64) -> (r: Vec<u8>)
    ensures
        r@ == unsigned_bytes(v as nat),
        1 <= r@.len() <= 8,
{
    let mut x = v;
    let mut acc: Vec<u8> = Vec::new();
    while x >= 256
        invariant
            unsigned_bytes(v as nat) == unsigned_bytes(x as nat) + acc@,
        decreases x,
    {
        let b = (x % 256) as u8;
        let ghost before = acc@;
        proof {
            assert(unsigned_bytes(x as nat) =~= unsigned_bytes((x / 256) as nat).push(b));
        }
        acc.insert(0, b);
        proof {
            assert(unsigned_bytes((x / 256) as nat).push(b) + before =~= unsigned_bytes(
                (x / 256) as nat,
            ) + acc@);
        }
        x = x / 256;
    }
    proof {
        assert(be_bytes(x as nat / 256, 0) =~= Seq::<u8>::empty());
        assert(unsigned_bytes(x as nat) =~= seq![x as u8]);
    }
    acc.insert(0, x as u8);
    proof {
        assert(unsigned_bytes(v as nat) =~= acc@);
        lemma_unsigned_bytes(v as nat);
        lemma_pow256_values();
        lemma_unsigned_len_bound(v as nat, 8);
    }
    acc
}

/// The minimal two's-complement big-endian encoding of a signed value.
pub fn signed_to_bytes(v: i64) -> (r: Vec<u8>)
    ensures
        r@ == signed_min_bytes(v as int),
        1 <= r@.len() <= 8,
{
    let mut x = v;
    let mut acc: Vec<u8> = Vec::new();
    while !(-128 <= x && x < 128)
        invariant
            signed_min_bytes(v as int) == signed_min_bytes(x as int) + acc@,
        decreases abs(x as int),
    {
        let (q, r) = div_mod_256(x);
        let b = r as u8;
        let ghost before = acc@;
        proof {
            lemma_signed_len_pos(q as int);
            assert(signed_min_bytes(x as int) =~= signed_min_bytes(q as int).push(b));
        }
        acc.insert(0, b);
        proof {
            assert(signed_min_bytes(q as int).push(b) + before =~= signed_min_bytes(q as int)
                + acc@);
        }
        x = q;
    }
    let (_, r) = div_mod_256(x);
    proof {
        assert(signed_bytes(x as int / 256, 0) =~= Seq::<u8>::empty());
        assert(signed_min_bytes(x as int) =~= seq![r as u8]);
    }
    acc.insert(0, r as u8);
    proof {
        assert(signed_min_bytes(v as int) =~= acc@);
        lemma_signed_bytes_value(v as int);
        lemma_pow256_values();
        lemma_signed_len_i64(v as int);
    }
    acc
}

/// Reads a big-endian unsigned value of one to eight octets.
pub fn bytes_to_unsigned(payload: &[u8]) -> (res: Result<u64>)
    ensures
        res == parse_unsigned_payload(payload@),
{
    if payload.len() == 0 || payload.len() > 8 {
        return Err(EncodingError::InvalidLength);
    }
    let mut v: u64 = 0;
    let mut i: usize = 0;
    while i < payload.len()
        invariant
            0 <= i <= payload@.len() <= 8,
            v == be_value(payload@.take(i as int)),
        decreases payload@.len() - i,
    {
        proof {
            lemma_be_value_step(payload@, i as int);
            lemma_be_value_bound(payload@.take(i as int + 1));
            lemma_pow256_monotonic(i as nat + 1, 8);
            lemma_pow256_values();
        }
        v = v * 256 + payload[i] as u64;
        i = i + 1;
    }
    proof {
        assert(payload@.take(i as int) =~= payload@);
    }
    Ok(v)
}

/// Reads a big-endian unsigned value of one to four octets.
pub fn bytes_to_u32(payload: &[u8]) -> (res: Result<u32>)
    ensures
        res == parse_u32_payload(payload@),
{
    if payload.len() == 0 || payload.len() > 4 {
        return Err(EncodingError::InvalidLength);
    }
    let v = bytes_to_unsigned(payload)?;
    proof {
        lemma_be_value_bound(payload@);
        lemma_pow256_monotonic(payload@.len(), 4);
        lemma_pow256_values();
    }
    Ok(v as u32)
}

/// Reads a big-endian two's-complement value of one to eight octets.
pub fn bytes_to_signed(payload: &[u8]) -> (res: Result<i64>)
    ensures
        res == parse_signed_payload(payload@),
{
    if payload.len() == 0 || payload.len() > 8 {
        return Err(EncodingError::InvalidLength);
    }
    let first = payload[0];
    let mut v: i64 = if first >= 128 {
        first as i64 - 256
    } else {
        first as i64
    };
    let mut i: usize = 1;
    proof {
        assert(payload@.take(1) =~= seq![first]);
    }
    while i < payload.len()
        invariant
            1 <= i <= payload@.len() <= 8,
            v == signed_value(payload@.take(i as int)),
        decreases payload@.len() - i,
    {
        proof {
            lemma_signed_value_step(payload@, i as int);
            lemma_signed_value_bound(payload@.take(i as int + 1));
            lemma_pow256_monotonic(i as nat + 1, 8);
            lemma_pow256_values();
        }
        v = v * 256 + payload[i] as i64;
        i = i + 1;
    }
    proof {
        assert(payload@.take(i as int) =~= payload@);
    }
    Ok(v)
}

} // verus!
