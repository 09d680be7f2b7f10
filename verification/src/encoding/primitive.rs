//! Primitive values: application-tagged and context-tagged encodings.
use crate::encoding::codec::{failed, Encoded};
use crate::encoding::number::{
    be_bytes, be_value, bytes_to_u32, lemma_be_bytes_len, lemma_be_bytes_value,
    lemma_be_value_bound, lemma_pow256_values, lemma_unsigned_bytes, lemma_unsigned_len_bound,
    parse_u32_payload, signed_min_bytes, signed_to_bytes, u32_to_be4, unsigned_bytes,
    unsigned_to_bytes,
};
use crate::encoding::tag::{
    balanced, decode_application_primitive, decode_context_primitive, decode_tag_header,
    element_bytes, encode_application_tag, encode_context_tag, header_bytes,
    lemma_balanced_element, lemma_balanced_header_only, lemma_header_bytes,
    lemma_parse_application, lemma_parse_context_primitive, parse_application,
    parse_context_primitive, parse_header, TagKind,
};
use crate::error::{EncodingError, Result};
use crate::object::{
    lemma_object_id_value, object_id_encodable, object_id_from_value, object_id_value,
    object_id_wf, ObjectIdentifier, ObjectType,
};
use vstd::prelude::*;
use vstd::slice::{slice_subrange, slice_to_vec};

verus! {

// ---------------------------------------------------------------------------
// Shared helpers
// ---------------------------------------------------------------------------
/// Appends a content sequence octet by octet.
pub fn append_bytes(buffer: &mut Vec<u8>, bytes: &[u8])
    ensures
        final(buffer)@ == old(buffer)@ + bytes@,
{
    let mut i: usize = 0;
    while i < bytes.len()
        invariant
            0 <= i <= bytes@.len(),
            buffer@ == old(buffer)@ + bytes@.take(i as int),
        decreases bytes@.len() - i,
    {
        buffer.push(bytes[i]);
        i = i + 1;
        proof {
            assert(bytes@.take(i as int) =~= bytes@.take(i as int - 1).push(bytes@[i as int - 1]));
        }
    }
    proof {
        assert(bytes@.take(i as int) =~= bytes@);
    }
}

/// Appends a primitive element: its header and its content.
fn encode_element(buffer: &mut Vec<u8>, tag_number: u8, context: bool, content: &[u8]) -> (res: Result<()>)
    ensures
        res is Ok <==> content@.len() <= u32::MAX,
        res is Ok ==> final(buffer)@ == old(buffer)@ + element_bytes(tag_number, context, content@),
        res is Err ==> res == Err::<(), EncodingError>(EncodingError::InvalidLength) && final(buffer)@ == old(buffer)@,
{
    if context {
        encode_context_tag(buffer, tag_number, content.len())?;
    } else {
        encode_application_tag(buffer, tag_number, content.len())?;
    }
    append_bytes(buffer, content);
    proof {
        assert(final(buffer)@ =~= old(buffer)@ + element_bytes(tag_number, context, content@));
    }
    Ok(())
}

// ---------------------------------------------------------------------------
// Specifications of the value encodings
// ---------------------------------------------------------------------------
/// Application Unsigned (tag 2).
pub open spec fn unsigned_element(v: nat) -> Seq<u8> {
    element_bytes(2, false, unsigned_bytes(v))
}

/// Context-tagged Unsigned or Enumerated.
pub open spec fn context_unsigned_element(tag: u8, v: nat) -> Seq<u8> {
    element_bytes(tag, true, unsigned_bytes(v))
}

/// Context-tagged Signed.
pub open spec fn context_signed_element(tag: u8, v: int) -> Seq<u8> {
    element_bytes(tag, true, signed_min_bytes(v))
}

/// Application Boolean (tag 1): the value sits in the header.
pub open spec fn boolean_element(v: bool) -> Seq<u8> {
    header_bytes(1, false, if v { 1 } else { 0 })
}

/// The four octets of an object identifier.
pub open spec fn object_id_bytes(oid: ObjectIdentifier) -> Seq<u8> {
    be_bytes(object_id_value(oid), 4)
}

/// A context ObjectIdentifier, or the error for one that does not fit 32 bits.
pub open spec fn context_object_id_bytes(tag: u8, oid: ObjectIdentifier) -> Encoded {
    if object_id_encodable(oid) {
        Ok(element_bytes(tag, true, object_id_bytes(oid)))
    } else {
        failed(EncodingError::InvalidFormat)
    }
}

/// The year octet of a date: `year - 1900`, or 255 for an unspecified year.
/// The octet 255 is reserved for "unspecified", so the years it can carry
/// are 1900..=2154.
pub open spec fn year_octet(year: u16) -> Option<u8> {
    if year == 255 {
        Some(255u8)
    } else if 1900 <= year <= 2154 {
        Some((year - 1900) as u8)
    } else {
        None
    }
}

/// The year a year octet stands for.
pub open spec fn octet_year(b: u8) -> u16 {
    if b == 255 {
        255
    } else {
        (1900 + b) as u16
    }
}

/// The content of a date, when the year is representable.
pub open spec fn date_content(year: u16, month: u8, day: u8, weekday: u8) -> Option<Seq<u8>> {
    match year_octet(year) {
        Some(y) => Some(seq![y, month, day, weekday]),
        None => None,
    }
}

/// Which bit of a bit-string octet, counted from the most significant bit.
pub open spec fn bit_of(b: u8, k: int) -> bool {
    let d: int = if k == 0 {
        128
    } else if k == 1 {
        64
    } else if k == 2 {
        32
    } else if k == 3 {
        16
    } else if k == 4 {
        8
    } else if k == 5 {
        4
    } else if k == 6 {
        2
    } else {
        1
    };
    (b as int / d) % 2 == 1
}

pub open spec fn bit_value(bits: Seq<bool>, i: int) -> int {
    if 0 <= i < bits.len() && bits[i] {
        1
    } else {
        0
    }
}

/// The octet that holds bits `start .. start + 8`, most significant first.
pub open spec fn pack_byte(bits: Seq<bool>, start: int) -> u8 {
    (bit_value(bits, start) * 128 + bit_value(bits, start + 1) * 64 + bit_value(bits, start + 2) * 32
        + bit_value(bits, start + 3) * 16 + bit_value(bits, start + 4) * 8 + bit_value(bits, start + 5)
        * 4 + bit_value(bits, start + 6) * 2 + bit_value(bits, start + 7)) as u8
}

pub open spec fn bit_octets(n: nat) -> nat {
    (n + 7) / 8
}

/// The content of a BIT STRING: the count of unused bits, then the bits packed
/// most significant first.
pub open spec fn bit_string_content(bits: Seq<bool>) -> Seq<u8> {
    seq![(bit_octets(bits.len()) * 8 - bits.len()) as u8] + Seq::new(
        bit_octets(bits.len()),
        |i: int| pack_byte(bits, 8 * i),
    )
}

/// The bits a BIT STRING content holds (none for an empty content; a count
/// of unused bits larger than the octets hold leaves no bits).
pub open spec fn bits_of_content(c: Seq<u8>) -> Seq<bool> {
    if c.len() == 0 {
        Seq::empty()
    } else {
        let total: int = 8 * (c.len() - 1) - c[0];
        Seq::new(if total < 0 { 0 } else { total as nat }, |i: int| bit_of(c[1 + i / 8], i % 8))
    }
}

/// A BIT STRING content as the application decoder accepts it.
pub open spec fn parse_bit_string_content(c: Seq<u8>) -> Result<Seq<bool>> {
    if c.len() == 0 {
        Err(EncodingError::InvalidLength)
    } else if c[0] > 7 {
        Err(EncodingError::InvalidFormat)
    } else {
        Ok(bits_of_content(c))
    }
}

/// A CharacterString content: character set 0 (UTF-8) and the encoded text.
pub open spec fn character_string_content(s: Seq<char>) -> Seq<u8> {
    seq![0u8] + vstd::utf8::encode_utf8(s)
}

pub open spec fn parse_character_string_content(c: Seq<u8>) -> Result<Seq<char>> {
    if c.len() == 0 {
        Err(EncodingError::InvalidLength)
    } else if c[0] != 0 {
        Err(EncodingError::InvalidFormat)
    } else if !vstd::utf8::valid_utf8(c.skip(1)) {
        Err(EncodingError::InvalidFormat)
    } else {
        Ok(vstd::utf8::decode_utf8(c.skip(1)))
    }
}

// ---------------------------------------------------------------------------
// Specifications of the decoders
// ---------------------------------------------------------------------------
#[verifier::opaque]
pub open spec fn parse_unsigned(s: Seq<u8>) -> Result<(u32, nat)> {
    match parse_application(s, 2) {
        Err(e) => Err(e),
        Ok((c, n)) => match parse_u32_payload(c) {
            Ok(v) => Ok((v, n)),
            Err(e) => Err(e),
        },
    }
}

#[verifier::opaque]
pub open spec fn parse_context_unsigned(s: Seq<u8>, tag: u8) -> Result<(u32, nat)> {
    match parse_context_primitive(s) {
        Err(e) => Err(e),
        Ok((t, c, n)) => if t != tag {
            Err(EncodingError::InvalidTag)
        } else {
            match parse_u32_payload(c) {
                Ok(v) => Ok((v, n)),
                Err(e) => Err(e),
            }
        },
    }
}

#[verifier::opaque]
pub open spec fn parse_boolean(s: Seq<u8>) -> Result<(bool, nat)> {
    match parse_header(s) {
        Err(e) => Err(e),
        Ok(h) => if h.context || h.kind != TagKind::Primitive || h.tag_number != 1 {
            Err(EncodingError::InvalidTag)
        } else if h.length > 1 {
            Err(EncodingError::InvalidFormat)
        } else {
            Ok((h.length == 1, h.header_len as nat))
        },
    }
}

pub open spec fn parse_octet_string(s: Seq<u8>) -> Result<(Seq<u8>, nat)> {
    parse_application(s, 6)
}

pub open spec fn parse_object_id_content(c: Seq<u8>) -> Result<ObjectIdentifier> {
    if c.len() != 4 {
        Err(EncodingError::InvalidLength)
    } else {
        Ok(object_id_from_value(be_value(c)))
    }
}

#[verifier::opaque]
pub open spec fn parse_object_identifier(s: Seq<u8>) -> Result<(ObjectIdentifier, nat)> {
    match parse_application(s, 12) {
        Err(e) => Err(e),
        Ok((c, n)) => match parse_object_id_content(c) {
            Ok(v) => Ok((v, n)),
            Err(e) => Err(e),
        },
    }
}

#[verifier::opaque]
pub open spec fn parse_context_object_id(s: Seq<u8>, tag: u8) -> Result<(ObjectIdentifier, nat)> {
    match parse_context_primitive(s) {
        Err(e) => Err(e),
        Ok((t, c, n)) => if t != tag {
            Err(EncodingError::InvalidTag)
        } else {
            match parse_object_id_content(c) {
                Ok(v) => Ok((v, n)),
                Err(e) => Err(e),
            }
        },
    }
}

#[verifier::opaque]
pub open spec fn parse_four(s: Seq<u8>, tag: u8) -> Result<((u8, u8, u8, u8), nat)> {
    match parse_application(s, tag) {
        Err(e) => Err(e),
        Ok((c, n)) => if c.len() != 4 {
            Err(EncodingError::InvalidLength)
        } else {
            Ok(((c[0], c[1], c[2], c[3]), n))
        },
    }
}

#[verifier::opaque]
pub open spec fn parse_date(s: Seq<u8>) -> Result<((u16, u8, u8, u8), nat)> {
    match parse_four(s, 10) {
        Err(e) => Err(e),
        Ok(((y, m, d, w), n)) => Ok(((octet_year(y), m, d, w), n)),
    }
}

#[verifier::opaque]
pub open spec fn parse_time(s: Seq<u8>) -> Result<((u8, u8, u8, u8), nat)> {
    parse_four(s, 11)
}

#[verifier::opaque]
pub open spec fn parse_bit_string(s: Seq<u8>) -> Result<(Seq<bool>, nat)> {
    match parse_application(s, 8) {
        Err(e) => Err(e),
        Ok((c, n)) => match parse_bit_string_content(c) {
            Ok(v) => Ok((v, n)),
            Err(e) => Err(e),
        },
    }
}

// ---------------------------------------------------------------------------
// Round trips
// ---------------------------------------------------------------------------
pub proof fn lemma_unsigned_element(v: u32, rest: Seq<u8>)
    ensures
        parse_unsigned(unsigned_element(v as nat) + rest) == Ok::<(u32, nat), EncodingError>((v, unsigned_element(v as nat).len())),
        balanced(unsigned_element(v as nat)),
{
    reveal(parse_unsigned);
    lemma_unsigned_bytes(v as nat);
    lemma_pow256_values();
    lemma_unsigned_len_bound(v as nat, 4);
    lemma_parse_application(2, unsigned_bytes(v as nat), rest);
    lemma_balanced_element(2, false, unsigned_bytes(v as nat));
}

pub proof fn lemma_context_unsigned_element(tag: u8, v: u32, rest: Seq<u8>)
    ensures
        parse_context_unsigned(context_unsigned_element(tag, v as nat) + rest, tag) == Ok::<(u32, nat), EncodingError>(
            (v, context_unsigned_element(tag, v as nat).len()),
        ),
        balanced(context_unsigned_element(tag, v as nat)),
{
    reveal(parse_context_unsigned);
    lemma_unsigned_bytes(v as nat);
    lemma_pow256_values();
    lemma_unsigned_len_bound(v as nat, 4);
    lemma_parse_context_primitive(tag, unsigned_bytes(v as nat), rest);
    lemma_balanced_element(tag, true, unsigned_bytes(v as nat));
}

pub proof fn lemma_boolean_element(v: bool, rest: Seq<u8>)
    ensures
        parse_boolean(boolean_element(v) + rest) == Ok::<(bool, nat), EncodingError>((v, boolean_element(v).len())),
        balanced(boolean_element(v)),
{
    reveal(parse_boolean);
    lemma_header_bytes(1, false, if v { 1 } else { 0 }, rest);
    lemma_balanced_header_only(1, false, if v { 1 } else { 0 });
}

pub proof fn lemma_octet_string_element(bytes: Seq<u8>, rest: Seq<u8>)
    requires
        bytes.len() <= u32::MAX,
    ensures
        parse_octet_string(element_bytes(6, false, bytes) + rest) == Ok::<(Seq<u8>, nat), EncodingError>(
            (bytes, element_bytes(6, false, bytes).len()),
        ),
        balanced(element_bytes(6, false, bytes)),
{
    lemma_parse_application(6, bytes, rest);
    lemma_balanced_element(6, false, bytes);
}

pub proof fn lemma_object_id_bytes(oid: ObjectIdentifier)
    requires
        object_id_wf(oid),
    ensures
        object_id_bytes(oid).len() == 4,
        parse_object_id_content(object_id_bytes(oid)) == Ok::<ObjectIdentifier, EncodingError>(oid),
{
    lemma_object_id_value(oid);
    lemma_pow256_values();
    lemma_be_bytes_len(object_id_value(oid), 4);
    lemma_be_bytes_value(object_id_value(oid), 4);
}

pub proof fn lemma_object_identifier_element(oid: ObjectIdentifier, rest: Seq<u8>)
    requires
        object_id_wf(oid),
    ensures
        parse_object_identifier(element_bytes(12, false, object_id_bytes(oid)) + rest) == Ok::<
            (ObjectIdentifier, nat),
            EncodingError,
        >((oid, element_bytes(12, false, object_id_bytes(oid)).len())),
        balanced(element_bytes(12, false, object_id_bytes(oid))),
{
    reveal(parse_object_identifier);
    lemma_object_id_bytes(oid);
    lemma_parse_application(12, object_id_bytes(oid), rest);
    lemma_balanced_element(12, false, object_id_bytes(oid));
}

pub proof fn lemma_context_object_id_element(tag: u8, oid: ObjectIdentifier, rest: Seq<u8>)
    requires
        object_id_wf(oid),
    ensures
        parse_context_object_id(element_bytes(tag, true, object_id_bytes(oid)) + rest, tag) == Ok::<
            (ObjectIdentifier, nat),
            EncodingError,
        >((oid, element_bytes(tag, true, object_id_bytes(oid)).len())),
        balanced(element_bytes(tag, true, object_id_bytes(oid))),
{
    reveal(parse_context_object_id);
    lemma_object_id_bytes(oid);
    lemma_parse_context_primitive(tag, object_id_bytes(oid), rest);
    lemma_balanced_element(tag, true, object_id_bytes(oid));
}

pub proof fn lemma_four_element(tag: u8, a: u8, b: u8, c: u8, d: u8, rest: Seq<u8>)
    requires
        tag != 1,
    ensures
        parse_four(element_bytes(tag, false, seq![a, b, c, d]) + rest, tag) == Ok::<((u8, u8, u8, u8), nat), EncodingError>(
            ((a, b, c, d), element_bytes(tag, false, seq![a, b, c, d]).len()),
        ),
        balanced(element_bytes(tag, false, seq![a, b, c, d])),
{
    reveal(parse_four);
    lemma_parse_application(tag, seq![a, b, c, d], rest);
    lemma_balanced_element(tag, false, seq![a, b, c, d]);
}

pub proof fn lemma_pack_byte_bits(d0: u8, d1: u8, d2: u8, d3: u8, d4: u8, d5: u8, d6: u8, d7: u8)
    requires
        d0 <= 1 && d1 <= 1 && d2 <= 1 && d3 <= 1 && d4 <= 1 && d5 <= 1 && d6 <= 1 && d7 <= 1,
    ensures
        ({
            let b = d0 * 128 + d1 * 64 + d2 * 32 + d3 * 16 + d4 * 8 + d5 * 4 + d6 * 2 + d7;
            &&& b < 256
            &&& (b / 128) % 2 == d0
            &&& (b / 64) % 2 == d1
            &&& (b / 32) % 2 == d2
            &&& (b / 16) % 2 == d3
            &&& (b / 8) % 2 == d4
            &&& (b / 4) % 2 == d5
            &&& (b / 2) % 2 == d6
            &&& b % 2 == d7
        }),
{
    assert({
        let b = d0 * 128 + d1 * 64 + d2 * 32 + d3 * 16 + d4 * 8 + d5 * 4 + d6 * 2 + d7;
        &&& b < 256
        &&& (b / 128) % 2 == d0
        &&& (b / 64) % 2 == d1
        &&& (b / 32) % 2 == d2
        &&& (b / 16) % 2 == d3
        &&& (b / 8) % 2 == d4
        &&& (b / 4) % 2 == d5
        &&& (b / 2) % 2 == d6
        &&& b % 2 == d7
    }) by (bit_vector)
        requires
            d0 <= 1 && d1 <= 1 && d2 <= 1 && d3 <= 1 && d4 <= 1 && d5 <= 1 && d6 <= 1 && d7 <= 1,
    ;
}

pub proof fn lemma_pack_byte(bits: Seq<bool>, start: int, k: int)
    requires
        0 <= k < 8,
    ensures
        bit_of(pack_byte(bits, start), k) == (bit_value(bits, start + k) == 1),
{
    lemma_pack_byte_bits(
        bit_value(bits, start) as u8,
        bit_value(bits, start + 1) as u8,
        bit_value(bits, start + 2) as u8,
        bit_value(bits, start + 3) as u8,
        bit_value(bits, start + 4) as u8,
        bit_value(bits, start + 5) as u8,
        bit_value(bits, start + 6) as u8,
        bit_value(bits, start + 7) as u8,
    );
}

pub proof fn lemma_bit_string_content(bits: Seq<bool>)
    ensures
        parse_bit_string_content(bit_string_content(bits)) == Ok::<Seq<bool>, EncodingError>(bits),
        bit_string_content(bits).len() == 1 + bit_octets(bits.len()),
{
    let c = bit_string_content(bits);
    let n = bits.len();
    let m = bit_octets(n);
    assert(m * 8 >= n && m * 8 - n <= 7);
    let r = bits_of_content(c);
    assert(8 * (c.len() - 1) - c[0] == n);
    assert forall|i: int| 0 <= i < n implies r[i] == bits[i] by {
        let j = i / 8;
        let k = i % 8;
        assert(0 <= j < m);
        assert(c[1 + j] == pack_byte(bits, 8 * j));
        lemma_pack_byte(bits, 8 * j, k);
        assert(8 * j + k == i);
    }
    assert(r =~= bits);
}

proof fn lemma_bit_of_shift(b: u8, k: int)
    requires
        0 <= k < 8,
    ensures
        bit_of(b, k) == ((b >> ((7 - k) as u8)) & 1u8 == 1u8),
{
    if k == 0 {
        assert(((b >> 7u8) & 1u8 == 1u8) == ((b / 128u8) % 2u8 == 1u8)) by (bit_vector);
    } else if k == 1 {
        assert(((b >> 6u8) & 1u8 == 1u8) == ((b / 64u8) % 2u8 == 1u8)) by (bit_vector);
    } else if k == 2 {
        assert(((b >> 5u8) & 1u8 == 1u8) == ((b / 32u8) % 2u8 == 1u8)) by (bit_vector);
    } else if k == 3 {
        assert(((b >> 4u8) & 1u8 == 1u8) == ((b / 16u8) % 2u8 == 1u8)) by (bit_vector);
    } else if k == 4 {
        assert(((b >> 3u8) & 1u8 == 1u8) == ((b / 8u8) % 2u8 == 1u8)) by (bit_vector);
    } else if k == 5 {
        assert(((b >> 2u8) & 1u8 == 1u8) == ((b / 4u8) % 2u8 == 1u8)) by (bit_vector);
    } else if k == 6 {
        assert(((b >> 1u8) & 1u8 == 1u8) == ((b / 2u8) % 2u8 == 1u8)) by (bit_vector);
    } else {
        assert(((b >> 0u8) & 1u8 == 1u8) == ((b / 1u8) % 2u8 == 1u8)) by (bit_vector);
    }
}

/// A BIT STRING's content is the count of unused bits in the last octet,
/// then the bits eight to an octet: bit `i` is bit `7 - i % 8` (counting from
/// the least significant) of octet `1 + i / 8`, so the first bit is the most
/// significant bit of the first octet after the count.
pub proof fn lemma_bit_string_layout(bits: Seq<bool>)
    ensures
        bit_string_content(bits).len() == 1 + (bits.len() + 7) / 8,
        bit_string_content(bits)[0] == 8 * ((bits.len() + 7) / 8) - bits.len(),
        forall|i: int|
            0 <= i < bits.len() ==> ((bit_string_content(bits)[1 + i / 8] >> ((7 - i % 8) as u8)) & 1u8 == 1u8)
                == #[trigger] bits[i],
{
    let c = bit_string_content(bits);
    let n = bits.len();
    let m = bit_octets(n);
    assert(m * 8 >= n && m * 8 - n <= 7);
    assert forall|i: int| 0 <= i < n implies ((c[1 + i / 8] >> ((7 - i % 8) as u8)) & 1u8 == 1u8) == bits[i] by {
        let j = i / 8;
        let k = i % 8;
        assert(0 <= j < m);
        assert(c[1 + j] == pack_byte(bits, 8 * j));
        lemma_pack_byte(bits, 8 * j, k);
        lemma_bit_of_shift(c[1 + j], k);
        assert(8 * j + k == i);
    }
}

pub proof fn lemma_bit_string_element(bits: Seq<bool>, rest: Seq<u8>)
    requires
        bit_string_content(bits).len() <= u32::MAX,
    ensures
        parse_bit_string(element_bytes(8, false, bit_string_content(bits)) + rest) == Ok::<
            (Seq<bool>, nat),
            EncodingError,
        >((bits, element_bytes(8, false, bit_string_content(bits)).len())),
        balanced(element_bytes(8, false, bit_string_content(bits))),
{
    reveal(parse_bit_string);
    lemma_bit_string_content(bits);
    lemma_parse_application(8, bit_string_content(bits), rest);
    lemma_balanced_element(8, false, bit_string_content(bits));
}

pub proof fn lemma_character_string_content(s: Seq<char>)
    ensures
        parse_character_string_content(character_string_content(s)) == Ok::<Seq<char>, EncodingError>(s),
{
    let c = character_string_content(s);
    assert(c.skip(1) =~= vstd::utf8::encode_utf8(s));
    vstd::utf8::encode_utf8_valid_utf8(s);
    vstd::utf8::encode_utf8_decode_utf8(s);
}

// ---------------------------------------------------------------------------
// Encoders
// ---------------------------------------------------------------------------
/// Appends an application Unsigned (tag 2) in its minimal length.
pub fn encode_unsigned(buffer: &mut Vec<u8>, value: u32) -> (res: Result<()>)
    ensures
        res is Ok,
        final(buffer)@ == old(buffer)@ + unsigned_element(value as nat),
{
    let bytes = unsigned_to_bytes(value as u64);
    let r = encode_element(buffer, 2, false, bytes.as_slice());
    r
}

/// A context-tagged Unsigned in its minimal length.
pub fn encode_context_unsigned(value: u32, tag_number: u8) -> (res: Result<Vec<u8>>)
    ensures
        res matches Ok(v) && v@ == context_unsigned_element(tag_number, value as nat),
{
    let bytes = unsigned_to_bytes(value as u64);
    let mut out: Vec<u8> = Vec::new();
    let r = encode_element(&mut out, tag_number, true, bytes.as_slice());
    proof {
        assert(out@ =~= context_unsigned_element(tag_number, value as nat));
    }
    Ok(out)
}

/// A context-tagged Enumerated (encoded as an Unsigned).
pub fn encode_context_enumerated(value: u32, tag_number: u8) -> (res: Result<Vec<u8>>)
    ensures
        res matches Ok(v) && v@ == context_unsigned_element(tag_number, value as nat),
{
    encode_context_unsigned(value, tag_number)
}

/// A context-tagged Signed in its minimal two's-complement length.
pub fn encode_context_signed(value: i64, tag_number: u8) -> (res: Result<Vec<u8>>)
    ensures
        res matches Ok(v) && v@ == context_signed_element(tag_number, value as int),
{
    let bytes = signed_to_bytes(value);
    let mut out: Vec<u8> = Vec::new();
    let r = encode_element(&mut out, tag_number, true, bytes.as_slice());
    proof {
        assert(out@ =~= context_signed_element(tag_number, value as int));
    }
    Ok(out)
}

/// Appends an application Boolean (tag 1).
pub fn encode_boolean(buffer: &mut Vec<u8>, value: bool) -> (res: Result<()>)
    ensures
        res is Ok,
        final(buffer)@ == old(buffer)@ + boolean_element(value),
{
    encode_application_tag(buffer, 1, if value { 1 } else { 0 })
}

/// Appends an application Null (tag 0).
pub fn encode_null(buffer: &mut Vec<u8>) -> (res: Result<()>)
    ensures
        res is Ok,
        final(buffer)@ == old(buffer)@ + element_bytes(0, false, Seq::empty()),
{
    let r = encode_application_tag(buffer, 0, 0);
    proof {
        assert(header_bytes(0, false, 0) + Seq::<u8>::empty() =~= header_bytes(0, false, 0));
    }
    r
}

/// Appends an application OctetString (tag 6).
pub fn encode_octet_string(buffer: &mut Vec<u8>, bytes: &[u8]) -> (res: Result<()>)
    ensures
        res is Ok <==> bytes@.len() <= u32::MAX,
        res is Ok ==> final(buffer)@ == old(buffer)@ + element_bytes(6, false, bytes@),
        res is Err ==> res == Err::<(), EncodingError>(EncodingError::InvalidLength) && final(buffer)@ == old(buffer)@,
{
    encode_element(buffer, 6, false, bytes)
}

fn object_id_to_bytes(oid: ObjectIdentifier) -> (r: Result<Vec<u8>>)
    ensures
        r is Ok <==> object_id_encodable(oid),
        r matches Ok(v) ==> v@ == object_id_bytes(oid) && v@.len() == 4,
        r is Err ==> r == Err::<Vec<u8>, EncodingError>(EncodingError::InvalidFormat),
{
    let t = oid.object_type.to_u16();
    if t > 0x3FF || oid.instance > 0x3F_FFFF {
        return Err(EncodingError::InvalidFormat);
    }
    let v: u32 = t as u32 * 4194304 + oid.instance;
    let out = u32_to_be4(v);
    Ok(out)
}

/// Appends an application ObjectIdentifier (tag 12).
pub fn encode_object_identifier(buffer: &mut Vec<u8>, oid: ObjectIdentifier) -> (res: Result<()>)
    ensures
        res is Ok <==> object_id_encodable(oid),
        res is Ok ==> final(buffer)@ == old(buffer)@ + element_bytes(12, false, object_id_bytes(oid)),
        res is Err ==> res == Err::<(), EncodingError>(EncodingError::InvalidFormat) && final(buffer)@ == old(buffer)@,
{
    let bytes = match object_id_to_bytes(oid) {
        Ok(b) => b,
        Err(e) => return Err(e),
    };
    encode_element(buffer, 12, false, bytes.as_slice())
}

/// A context-tagged ObjectIdentifier.
pub fn encode_context_object_id(oid: ObjectIdentifier, tag_number: u8) -> (res: Result<Vec<u8>>)
    ensures
        res is Ok <==> object_id_encodable(oid),
        res matches Ok(v) ==> v@ == element_bytes(tag_number, true, object_id_bytes(oid)),
        res is Err ==> res == Err::<Vec<u8>, EncodingError>(EncodingError::InvalidFormat),
{
    let bytes = match object_id_to_bytes(oid) {
        Ok(b) => b,
        Err(e) => return Err(e),
    };
    let mut out: Vec<u8> = Vec::new();
    let r = encode_element(&mut out, tag_number, true, bytes.as_slice());
    proof {
        assert(out@ =~= element_bytes(tag_number, true, object_id_bytes(oid)));
    }
    Ok(out)
}

/// The year octet of a date, or an error for a year outside 1900..=2154 (other than 255).
pub fn year_to_octet(year: u16) -> (res: Result<u8>)
    ensures
        match year_octet(year) {
            Some(y) => res == Ok::<u8, EncodingError>(y),
            None => res == Err::<u8, EncodingError>(EncodingError::InvalidFormat),
        },
{
    if year == 255 {
        return Ok(255);
    }
    if year < 1900 || year > 2154 {
        return Err(EncodingError::InvalidFormat);
    }
    Ok((year - 1900) as u8)
}

/// Appends an application Date (tag 10).
pub fn encode_date(buffer: &mut Vec<u8>, year: u16, month: u8, day: u8, weekday: u8) -> (res: Result<()>)
    ensures
        match date_content(year, month, day, weekday) {
            Some(c) => res is Ok && final(buffer)@ == old(buffer)@ + element_bytes(10, false, c),
            None => res == Err::<(), EncodingError>(EncodingError::InvalidFormat) && final(buffer)@ == old(buffer)@,
        },
{
    let y = year_to_octet(year)?;
    let content = [y, month, day, weekday];
    let r = encode_element(buffer, 10, false, content.as_slice());
    proof {
        assert(content@ =~= seq![y, month, day, weekday]);
    }
    r
}

/// Appends an application Time (tag 11).
pub fn encode_time(buffer: &mut Vec<u8>, hour: u8, minute: u8, second: u8, hundredths: u8) -> (res: Result<()>)
    ensures
        res is Ok,
        final(buffer)@ == old(buffer)@ + element_bytes(11, false, seq![hour, minute, second, hundredths]),
{
    let content = [hour, minute, second, hundredths];
    let r = encode_element(buffer, 11, false, content.as_slice());
    proof {
        assert(content@ =~= seq![hour, minute, second, hundredths]);
    }
    r
}

/// Appends an application Real (tag 4) given the bit pattern of an IEEE-754 single.
pub fn encode_real(buffer: &mut Vec<u8>, bits: u32) -> (res: Result<()>)
    ensures
        res is Ok,
        final(buffer)@ == old(buffer)@ + element_bytes(4, false, be_bytes(bits as nat, 4)),
{
    let content = u32_to_be4(bits);
    encode_element(buffer, 4, false, content.as_slice())
}

/// Appends an application Double (tag 5) given the bit pattern of an IEEE-754 double.
pub fn encode_double(buffer: &mut Vec<u8>, bits: u64) -> (res: Result<()>)
    ensures
        res is Ok,
        final(buffer)@ == old(buffer)@ + element_bytes(5, false, be_bytes(bits as nat, 8)),
{
    let mut content: Vec<u8> = Vec::new();
    let mut x = bits;
    let mut i: usize = 0;
    while i < 8
        invariant
            0 <= i <= 8,
            be_bytes(bits as nat, 8) == be_bytes(x as nat, (8 - i) as nat) + content@,
        decreases 8 - i,
    {
        let b = (x % 256) as u8;
        let ghost before = content@;
        proof {
            assert(be_bytes(x as nat, (8 - i) as nat) =~= be_bytes((x / 256) as nat, (8 - i - 1) as nat).push(b));
        }
        content.insert(0, b);
        proof {
            assert(be_bytes((x / 256) as nat, (8 - i - 1) as nat).push(b) + before =~= be_bytes(
                (x / 256) as nat,
                (8 - i - 1) as nat,
            ) + content@);
        }
        x = x / 256;
        i = i + 1;
    }
    proof {
        assert(be_bytes(x as nat, 0) + content@ =~= content@);
        lemma_be_bytes_len(bits as nat, 8);
    }
    encode_element(buffer, 5, false, content.as_slice())
}

/// Appends an application Signed (tag 3) in its minimal length.
pub fn encode_signed(buffer: &mut Vec<u8>, value: i64) -> (res: Result<()>)
    ensures
        res is Ok,
        final(buffer)@ == old(buffer)@ + element_bytes(3, false, signed_min_bytes(value as int)),
{
    let bytes = signed_to_bytes(value);
    encode_element(buffer, 3, false, bytes.as_slice())
}

/// Appends an application Enumerated (tag 9) in its minimal length.
pub fn encode_enumerated(buffer: &mut Vec<u8>, value: u32) -> (res: Result<()>)
    ensures
        res is Ok,
        final(buffer)@ == old(buffer)@ + element_bytes(9, false, unsigned_bytes(value as nat)),
{
    let bytes = unsigned_to_bytes(value as u64);
    encode_element(buffer, 9, false, bytes.as_slice())
}

/// Appends an application Unsigned (tag 2) of up to 64 bits.
pub fn encode_unsigned64(buffer: &mut Vec<u8>, value: u64) -> (res: Result<()>)
    ensures
        res is Ok,
        final(buffer)@ == old(buffer)@ + element_bytes(2, false, unsigned_bytes(value as nat)),
{
    let bytes = unsigned_to_bytes(value);
    encode_element(buffer, 2, false, bytes.as_slice())
}

/// Appends an application CharacterString (tag 7) in character set 0 (UTF-8).
pub fn encode_character_string(buffer: &mut Vec<u8>, text: &str) -> (res: Result<()>)
    ensures
        res is Ok <==> character_string_content(text@).len() <= u32::MAX,
        res is Ok ==> final(buffer)@ == old(buffer)@ + element_bytes(7, false, character_string_content(text@)),
        res is Err ==> res == Err::<(), EncodingError>(EncodingError::InvalidLength) && final(buffer)@ == old(buffer)@,
{
    let utf8 = text.as_bytes();
    let mut content: Vec<u8> = Vec::new();
    content.push(0);
    append_bytes(&mut content, utf8);
    proof {
        assert(content@ =~= character_string_content(text@));
    }
    encode_element(buffer, 7, false, content.as_slice())
}

fn bit_at(bits: &[bool], i: usize) -> (r: u8)
    ensures
        r as int == bit_value(bits@, i as int),
{
    if i < bits.len() && bits[i] {
        1
    } else {
        0
    }
}

/// Appends an application BitString (tag 8).
pub fn encode_bit_string(buffer: &mut Vec<u8>, bits: &[bool]) -> (res: Result<()>)
    ensures
        res is Ok <==> bit_string_content(bits@).len() <= u32::MAX,
        res is Ok ==> final(buffer)@ == old(buffer)@ + element_bytes(8, false, bit_string_content(bits@)),
        res is Err ==> res == Err::<(), EncodingError>(EncodingError::InvalidLength) && final(buffer)@ == old(buffer)@,
{
    let n = bits.len();
    let m = n / 8 + if n % 8 == 0 { 0 } else { 1 };
    let unused: u8 = if n % 8 == 0 { 0 } else { (8 - n % 8) as u8 };
    assert(m == bit_octets(n as nat));
    assert(unused == (m * 8 - n) as u8);
    let mut content: Vec<u8> = Vec::new();
    content.push(unused);
    let mut j: usize = 0;
    while j < m
        invariant
            m == bit_octets(bits@.len()),
            n == bits@.len(),
            0 <= j <= m,
            content@ =~= seq![(m * 8 - n) as u8] + Seq::new(j as nat, |i: int| pack_byte(bits@, 8 * i)),
        decreases m - j,
    {
        let s = 8 * j;
        let v: u8 = (bit_at(bits, s) * 128 + bit_at(bits, s + 1) * 64 + bit_at(bits, s + 2) * 32 + bit_at(bits, s + 3) * 16
            + bit_at(bits, s + 4) * 8 + bit_at(bits, s + 5) * 4 + bit_at(bits, s + 6) * 2 + bit_at(bits, s + 7));
        content.push(v);
        j = j + 1;
    }
    proof {
        assert(content@ =~= bit_string_content(bits@));
    }
    encode_element(buffer, 8, false, content.as_slice())
}

// ---------------------------------------------------------------------------
// Decoders
// ---------------------------------------------------------------------------
/// `core::str::from_utf8`: the text a byte slice holds. Believed, not proved:
/// it gives `Some` exactly when the octets are valid UTF-8 (in the sense of
/// `vstd::utf8::valid_utf8`), and the UTF-8 encoding of that text is the input.
#[verifier::external_body]
fn str_from_utf8(bytes: &[u8]) -> (res: Option<&str>)
    ensures
        res is Some <==> vstd::utf8::valid_utf8(bytes@),
        res matches Some(s) ==> vstd::utf8::encode_utf8(s@) == bytes@,
{
    match core::str::from_utf8(bytes) {
        Ok(s) => Some(s),
        Err(_) => None,
    }
}

/// The text of a CharacterString content (character set 0, UTF-8).
pub fn character_string_from_content(c: &[u8]) -> (res: Result<String>)
    ensures
        match res {
            Ok(s) => parse_character_string_content(c@) == Ok::<Seq<char>, EncodingError>(s@),
            Err(e) => parse_character_string_content(c@) == Err::<Seq<char>, EncodingError>(e),
        },
{
    if c.len() == 0 {
        return Err(EncodingError::InvalidLength);
    }
    if c[0] != 0 {
        return Err(EncodingError::InvalidFormat);
    }
    let text = slice_subrange(c, 1, c.len());
    proof {
        assert(text@ =~= c@.skip(1));
    }
    match str_from_utf8(text) {
        Some(s) => {
            proof {
                vstd::utf8::encode_utf8_decode_utf8(s@);
            }
            Ok(s.to_owned())
        },
        None => Err(EncodingError::InvalidFormat),
    }
}

/// Decodes an application Unsigned (tag 2) of up to 32 bits.
pub fn decode_unsigned(data: &[u8]) -> (res: Result<(u32, usize)>)
    ensures
        match res {
            Ok((v, n)) => parse_unsigned(data@) == Ok::<(u32, nat), EncodingError>((v, n as nat)),
            Err(e) => parse_unsigned(data@) == Err::<(u32, nat), EncodingError>(e),
        },
        res matches Ok((_, n)) ==> 0 < n <= data@.len(),
{
    reveal(parse_unsigned);
    let (c, n) = decode_application_primitive(data, 2)?;
    let v = bytes_to_u32(c)?;
    Ok((v, n))
}

/// Decodes a context Unsigned with tag number `tag`.
pub fn decode_context_unsigned(data: &[u8], tag: u8) -> (res: Result<(u32, usize)>)
    ensures
        match res {
            Ok((v, n)) => parse_context_unsigned(data@, tag) == Ok::<(u32, nat), EncodingError>((v, n as nat)),
            Err(e) => parse_context_unsigned(data@, tag) == Err::<(u32, nat), EncodingError>(e),
        },
        res matches Ok((_, n)) ==> 0 < n <= data@.len(),
{
    reveal(parse_context_unsigned);
    let (t, c, n) = decode_context_primitive(data)?;
    if t != tag {
        return Err(EncodingError::InvalidTag);
    }
    let v = bytes_to_u32(c)?;
    Ok((v, n))
}

/// Decodes a context Enumerated with tag number `tag`.
pub fn decode_context_enumerated(data: &[u8], tag: u8) -> (res: Result<(u32, usize)>)
    ensures
        match res {
            Ok((v, n)) => parse_context_unsigned(data@, tag) == Ok::<(u32, nat), EncodingError>((v, n as nat)),
            Err(e) => parse_context_unsigned(data@, tag) == Err::<(u32, nat), EncodingError>(e),
        },
        res matches Ok((_, n)) ==> 0 < n <= data@.len(),
{
    decode_context_unsigned(data, tag)
}

/// Decodes an application Boolean (tag 1).
pub fn decode_boolean(data: &[u8]) -> (res: Result<(bool, usize)>)
    ensures
        match res {
            Ok((v, n)) => parse_boolean(data@) == Ok::<(bool, nat), EncodingError>((v, n as nat)),
            Err(e) => parse_boolean(data@) == Err::<(bool, nat), EncodingError>(e),
        },
        res matches Ok((_, n)) ==> 0 < n <= data@.len(),
{
    reveal(parse_boolean);
    let h = decode_tag_header(data)?;
    if h.context || h.kind != TagKind::Primitive || h.tag_number != 1 {
        return Err(EncodingError::InvalidTag);
    }
    if h.length > 1 {
        return Err(EncodingError::InvalidFormat);
    }
    Ok((h.length == 1, h.header_len))
}

/// Decodes an application OctetString (tag 6).
pub fn decode_octet_string(data: &[u8]) -> (res: Result<(Vec<u8>, usize)>)
    ensures
        match res {
            Ok((v, n)) => parse_octet_string(data@) == Ok::<(Seq<u8>, nat), EncodingError>((v@, n as nat)),
            Err(e) => parse_octet_string(data@) == Err::<(Seq<u8>, nat), EncodingError>(e),
        },
        res matches Ok((_, n)) ==> 0 < n <= data@.len(),
{
    let (c, n) = decode_application_primitive(data, 6)?;
    Ok((slice_to_vec(c), n))
}

fn object_id_from_content(c: &[u8]) -> (res: Result<ObjectIdentifier>)
    ensures
        res == parse_object_id_content(c@),
{
    if c.len() != 4 {
        return Err(EncodingError::InvalidLength);
    }
    let v = match bytes_to_u32(c) {
        Ok(v) => v,
        Err(e) => return Err(e),
    };
    proof {
        lemma_be_value_bound(c@);
        lemma_pow256_values();
    }
    Ok(ObjectIdentifier { object_type: ObjectType::from_u16((v / 4194304) as u16), instance: v % 4194304 })
}

/// Decodes an application ObjectIdentifier (tag 12).
pub fn decode_object_identifier(data: &[u8]) -> (res: Result<(ObjectIdentifier, usize)>)
    ensures
        match res {
            Ok((v, n)) => parse_object_identifier(data@) == Ok::<(ObjectIdentifier, nat), EncodingError>((v, n as nat)),
            Err(e) => parse_object_identifier(data@) == Err::<(ObjectIdentifier, nat), EncodingError>(e),
        },
        res matches Ok((_, n)) ==> 0 < n <= data@.len(),
{
    reveal(parse_object_identifier);
    let (c, n) = decode_application_primitive(data, 12)?;
    let v = object_id_from_content(c)?;
    Ok((v, n))
}

/// Decodes a context ObjectIdentifier with tag number `tag`.
pub fn decode_context_object_id(data: &[u8], tag: u8) -> (res: Result<(ObjectIdentifier, usize)>)
    ensures
        match res {
            Ok((v, n)) => parse_context_object_id(data@, tag) == Ok::<(ObjectIdentifier, nat), EncodingError>((v, n as nat)),
            Err(e) => parse_context_object_id(data@, tag) == Err::<(ObjectIdentifier, nat), EncodingError>(e),
        },
        res matches Ok((_, n)) ==> 0 < n <= data@.len(),
{
    reveal(parse_context_object_id);
    let (t, c, n) = decode_context_primitive(data)?;
    if t != tag {
        return Err(EncodingError::InvalidTag);
    }
    let v = object_id_from_content(c)?;
    Ok((v, n))
}

fn decode_four(data: &[u8], tag: u8) -> (res: Result<((u8, u8, u8, u8), usize)>)
    ensures
        match res {
            Ok((v, n)) => parse_four(data@, tag) == Ok::<((u8, u8, u8, u8), nat), EncodingError>((v, n as nat)),
            Err(e) => parse_four(data@, tag) == Err::<((u8, u8, u8, u8), nat), EncodingError>(e),
        },
        res matches Ok((_, n)) ==> 0 < n <= data@.len(),
{
    reveal(parse_four);
    let (c, n) = decode_application_primitive(data, tag)?;
    if c.len() != 4 {
        return Err(EncodingError::InvalidLength);
    }
    Ok(((c[0], c[1], c[2], c[3]), n))
}

/// Decodes an application Date (tag 10) as (year, month, day, weekday).
pub fn decode_date(data: &[u8]) -> (res: Result<((u16, u8, u8, u8), usize)>)
    ensures
        match res {
            Ok((v, n)) => parse_date(data@) == Ok::<((u16, u8, u8, u8), nat), EncodingError>((v, n as nat)),
            Err(e) => parse_date(data@) == Err::<((u16, u8, u8, u8), nat), EncodingError>(e),
        },
        res matches Ok((_, n)) ==> 0 < n <= data@.len(),
{
    reveal(parse_four);
    reveal(parse_date);
    let ((y, m, d, w), n) = decode_four(data, 10)?;
    let year: u16 = if y == 255 { 255 } else { 1900 + y as u16 };
    Ok(((year, m, d, w), n))
}

/// Decodes an application Time (tag 11) as (hour, minute, second, hundredths).
pub fn decode_time(data: &[u8]) -> (res: Result<((u8, u8, u8, u8), usize)>)
    ensures
        match res {
            Ok((v, n)) => parse_time(data@) == Ok::<((u8, u8, u8, u8), nat), EncodingError>((v, n as nat)),
            Err(e) => parse_time(data@) == Err::<((u8, u8, u8, u8), nat), EncodingError>(e),
        },
        res matches Ok((_, n)) ==> 0 < n <= data@.len(),
{
    reveal(parse_four);
    reveal(parse_time);
    decode_four(data, 11)
}

fn bit_of_exec(b: u8, k: usize) -> (r: bool)
    requires
        k < 8,
    ensures
        r == bit_of(b, k as int),
{
    let d: u8 = if k == 0 {
        128
    } else if k == 1 {
        64
    } else if k == 2 {
        32
    } else if k == 3 {
        16
    } else if k == 4 {
        8
    } else if k == 5 {
        4
    } else if k == 6 {
        2
    } else {
        1
    };
    (b / d) % 2 == 1
}

/// The bits of a BIT STRING content (see `bits_of_content`).
pub fn bit_string_from_content(c: &[u8]) -> (r: Vec<bool>)
    ensures
        r@ == bits_of_content(c@),
{
    let mut out: Vec<bool> = Vec::new();
    if c.len() == 0 {
        proof {
            assert(out@ =~= bits_of_content(c@));
        }
        return out;
    }
    let last: usize = c.len() - 1;
    let octets: u128 = last as u128;
    let unused: u128 = c[0] as u128;
    let total: u128 = if 8 * octets < unused {
        0
    } else {
        8 * octets - unused
    };
    let mut i: u128 = 0;
    while i < total
        invariant
            c@.len() >= 1,
            octets == c@.len() - 1,
            octets < usize::MAX,
            total == bits_of_content(c@).len(),
            total <= 8 * octets,
            0 <= i <= total,
            out@ =~= bits_of_content(c@).take(i as int),
        decreases total - i,
    {
        assert(i / 8 < octets) by (nonlinear_arith)
            requires
                i < total,
                total <= 8 * octets,
        ;
        let j: usize = (i / 8) as usize;
        let k: usize = (i % 8) as usize;
        assert(j as int == i / 8 && k as int == i % 8);
        let v = bit_of_exec(c[1 + j], k);
        out.push(v);
        i = i + 1;
    }
    proof {
        assert(bits_of_content(c@).take(total as int) =~= bits_of_content(c@));
    }
    out
}

/// Decodes an application BitString (tag 8).
pub fn decode_bit_string(data: &[u8]) -> (res: Result<(Vec<bool>, usize)>)
    ensures
        match res {
            Ok((v, n)) => parse_bit_string(data@) == Ok::<(Seq<bool>, nat), EncodingError>((v@, n as nat)),
            Err(e) => parse_bit_string(data@) == Err::<(Seq<bool>, nat), EncodingError>(e),
        },
        res matches Ok((_, n)) ==> 0 < n <= data@.len(),
{
    reveal(parse_bit_string);
    let (c, n) = decode_application_primitive(data, 8)?;
    if c.len() == 0 {
        return Err(EncodingError::InvalidLength);
    }
    if c[0] > 7 {
        return Err(EncodingError::InvalidFormat);
    }
    Ok((bit_string_from_content(c), n))
}

} // verus!
