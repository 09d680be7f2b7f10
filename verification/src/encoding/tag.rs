//! Tag headers (tag number, class, length/value/type) and constructed blocks
//! delimited by opening and closing tags.
use crate::encoding::codec::Encoded;
use crate::encoding::number::{
    be_bytes, be_value, bytes_to_u32, lemma_be_bytes_len, lemma_be_bytes_value,
    lemma_pow256_values,
};
use crate::error::{EncodingError, Result};
use vstd::prelude::*;
use vstd::slice::slice_subrange;

verus! {

/// The shape of a tagged element.
#[derive(Debug, Clone, Copy, PartialEq, Eq, Structural)]
pub enum TagKind {
    /// A value with `length` octets of content (application Boolean carries its
    /// value in `length` and has no content).
    Primitive,
    /// The opening tag of a constructed (context) element.
    Opening,
    /// The closing tag of a constructed (context) element.
    Closing,
}

/// A decoded tag header.
#[derive(Debug, Clone, Copy, PartialEq, Eq, Structural)]
pub struct TagHeader {
    pub tag_number: u8,
    /// Context-specific class (as opposed to application class).
    pub context: bool,
    pub kind: TagKind,
    /// Length/value field of a primitive tag; 0 for opening and closing tags.
    pub length: u32,
    /// Number of octets the header itself occupies.
    pub header_len: usize,
}

impl TagHeader {
    pub fn is_context(&self) -> (r: bool)
        ensures
            r == self.context,
    {
        self.context
    }

    pub fn is_opening(&self) -> (r: bool)
        ensures
            r == (self.kind == TagKind::Opening),
    {
        self.kind == TagKind::Opening
    }

    pub fn is_closing(&self) -> (r: bool)
        ensures
            r == (self.kind == TagKind::Closing),
    {
        self.kind == TagKind::Closing
    }

    pub fn is_primitive(&self) -> (r: bool)
        ensures
            r == (self.kind == TagKind::Primitive),
    {
        self.kind == TagKind::Primitive
    }
}

pub open spec fn primitive_header(tag_number: u8, context: bool, length: u32, header_len: nat) -> TagHeader {
    TagHeader { tag_number, context, kind: TagKind::Primitive, length, header_len: header_len as usize }
}

/// The header at the start of `s`, as the wire format defines it.
pub open spec fn parse_header(s: Seq<u8>) -> Result<TagHeader> {
    if s.len() == 0 {
        Err(EncodingError::UnexpectedEndOfData)
    } else {
        let b = s[0];
        let extended = b / 16 == 15;
        let p: nat = if extended { 2 } else { 1 };
        if s.len() < p {
            Err(EncodingError::UnexpectedEndOfData)
        } else {
            let tn: u8 = if extended { s[1] } else { b / 16 };
            let context = (b / 8) % 2 == 1;
            let lvt = b % 8;
            if lvt >= 6 {
                if context {
                    Ok(TagHeader {
                        tag_number: tn,
                        context,
                        kind: if lvt == 6 { TagKind::Opening } else { TagKind::Closing },
                        length: 0,
                        header_len: p as usize,
                    })
                } else {
                    Err(EncodingError::InvalidTag)
                }
            } else if lvt < 5 {
                Ok(primitive_header(tn, context, lvt as u32, p))
            } else if s.len() < p + 1 {
                Err(EncodingError::UnexpectedEndOfData)
            } else if s[p as int] < 254 {
                Ok(primitive_header(tn, context, s[p as int] as u32, p + 1))
            } else if s[p as int] == 254 {
                if s.len() < p + 3 {
                    Err(EncodingError::UnexpectedEndOfData)
                } else {
                    Ok(primitive_header(tn, context, be_value(s.subrange(p as int + 1, p as int + 3)) as u32, p + 3))
                }
            } else if s.len() < p + 5 {
                Err(EncodingError::UnexpectedEndOfData)
            } else {
                Ok(primitive_header(tn, context, be_value(s.subrange(p as int + 1, p as int + 5)) as u32, p + 5))
            }
        }
    }
}

/// Octets of content that follow the header.
pub open spec fn content_len(h: TagHeader) -> nat {
    if h.kind == TagKind::Primitive && (h.context || h.tag_number != 1) {
        h.length as nat
    } else {
        0
    }
}

/// Octets of the whole element (header and content) that a header introduces.
pub open spec fn element_len(h: TagHeader) -> nat {
    h.header_len as nat + content_len(h)
}

/// The first octet of a tag.
pub open spec fn tag_octet(tag_number: u8, context: bool, lvt: u8) -> u8 {
    ((if tag_number < 15 { tag_number as int * 16 } else { 240 }) + (if context { 8int } else { 0 })
        + lvt) as u8
}

/// The first octet, followed by the tag number when it does not fit in four bits.
pub open spec fn tag_start(tag_number: u8, context: bool, lvt: u8) -> Seq<u8> {
    if tag_number < 15 {
        seq![tag_octet(tag_number, context, lvt)]
    } else {
        seq![tag_octet(tag_number, context, lvt), tag_number]
    }
}

/// The header of a primitive element with `len` octets of content.
pub open spec fn header_bytes(tag_number: u8, context: bool, len: nat) -> Seq<u8> {
    if len <= 4 {
        tag_start(tag_number, context, len as u8)
    } else if len <= 253 {
        tag_start(tag_number, context, 5).push(len as u8)
    } else if len <= 65535 {
        tag_start(tag_number, context, 5) + seq![254u8] + be_bytes(len, 2)
    } else {
        tag_start(tag_number, context, 5) + seq![255u8] + be_bytes(len, 4)
    }
}

pub open spec fn opening_bytes(tag_number: u8) -> Seq<u8> {
    tag_start(tag_number, true, 6)
}

pub open spec fn closing_bytes(tag_number: u8) -> Seq<u8> {
    tag_start(tag_number, true, 7)
}

/// An element whose content sits between the opening and closing tags of
/// `[tag]`; when the content fails, it fails after the opening tag.
pub open spec fn constructed(tag: u8, inner: Encoded) -> Encoded {
    match inner {
        Ok(b) => Ok(opening_bytes(tag) + b + closing_bytes(tag)),
        Err((e, written)) => Err((e, opening_bytes(tag) + written)),
    }
}

/// A primitive element: header and content.
pub open spec fn element_bytes(tag_number: u8, context: bool, content: Seq<u8>) -> Seq<u8> {
    header_bytes(tag_number, context, content.len()) + content
}

/// Depth reached after walking over complete elements from depth `d`;
/// `None` if an element is malformed or a closing tag falls below depth 0.
pub open spec fn walk(s: Seq<u8>, d: nat) -> Option<nat>
    decreases s.len(),
{
    if s.len() == 0 {
        Some(d)
    } else {
        match parse_header(s) {
            Err(_) => None,
            Ok(h) => {
                let n = element_len(h);
                if n > s.len() || n == 0 {
                    None
                } else {
                    match h.kind {
                        TagKind::Opening => walk(s.skip(n as int), d + 1),
                        TagKind::Closing => if d == 0 {
                            None
                        } else {
                            walk(s.skip(n as int), (d - 1) as nat)
                        },
                        TagKind::Primitive => walk(s.skip(n as int), d),
                    }
                }
            },
        }
    }
}

/// A sequence of complete elements whose opening and closing tags pair up.
pub open spec fn balanced(s: Seq<u8>) -> bool {
    walk(s, 0) == Some(0nat)
}

pub open spec fn shift(r: Result<(nat, TagHeader)>, n: nat) -> Result<(nat, TagHeader)> {
    match r {
        Ok((k, h)) => Ok((k + n, h)),
        Err(e) => Err(e),
    }
}

/// Scans elements from depth `d` for the closing tag that ends depth 0: the
/// number of octets before it, and its header.
pub open spec fn scan(s: Seq<u8>, d: nat) -> Result<(nat, TagHeader)>
    decreases s.len(),
{
    match parse_header(s) {
        Err(e) => Err(e),
        Ok(h) => {
            let n = element_len(h);
            if n > s.len() || n == 0 {
                Err(EncodingError::UnexpectedEndOfData)
            } else {
                match h.kind {
                    TagKind::Closing => if d == 0 {
                        Ok((0nat, h))
                    } else {
                        shift(scan(s.skip(n as int), (d - 1) as nat), n)
                    },
                    TagKind::Opening => shift(scan(s.skip(n as int), d + 1), n),
                    TagKind::Primitive => shift(scan(s.skip(n as int), d), n),
                }
            }
        },
    }
}

/// The content of the constructed element `[tag]` at the start of `s`, and the
/// octets it occupies including its opening and closing tags.
#[verifier::opaque]
pub open spec fn parse_block(s: Seq<u8>, tag: u8) -> Result<(Seq<u8>, nat)> {
    match parse_header(s) {
        Err(e) => Err(e),
        Ok(h) => if !(h.kind == TagKind::Opening && h.tag_number == tag) {
            Err(EncodingError::InvalidTag)
        } else {
            let start = h.header_len as nat;
            match scan(s.skip(start as int), 0) {
                Err(e) => Err(e),
                Ok((k, c)) => if c.tag_number != tag {
                    Err(EncodingError::InvalidTag)
                } else {
                    Ok((s.subrange(start as int, (start + k) as int), start + k + c.header_len as nat))
                },
            }
        },
    }
}

/// The context primitive at the start of `s`: its tag number, its content and
/// the octets it occupies.
pub open spec fn parse_context_primitive(s: Seq<u8>) -> Result<(u8, Seq<u8>, nat)> {
    match parse_header(s) {
        Err(e) => Err(e),
        Ok(h) => if !(h.context && h.kind == TagKind::Primitive) {
            Err(EncodingError::InvalidTag)
        } else if element_len(h) > s.len() {
            Err(EncodingError::UnexpectedEndOfData)
        } else {
            Ok((h.tag_number, s.subrange(h.header_len as int, element_len(h) as int), element_len(h)))
        },
    }
}

/// The application primitive with tag number `tag` at the start of `s`: its
/// content and the octets it occupies.
pub open spec fn parse_application(s: Seq<u8>, tag: u8) -> Result<(Seq<u8>, nat)> {
    match parse_header(s) {
        Err(e) => Err(e),
        Ok(h) => if h.context || h.kind != TagKind::Primitive || h.tag_number != tag {
            Err(EncodingError::InvalidTag)
        } else if element_len(h) > s.len() {
            Err(EncodingError::UnexpectedEndOfData)
        } else {
            Ok((s.subrange(h.header_len as int, element_len(h) as int), element_len(h)))
        },
    }
}

/// The octets that one complete element at the start of `s` occupies.
#[verifier::opaque]
pub open spec fn parse_skip(s: Seq<u8>) -> Result<nat> {
    match parse_header(s) {
        Err(e) => Err(e),
        Ok(h) => if element_len(h) > s.len() {
            Err(EncodingError::UnexpectedEndOfData)
        } else {
            match h.kind {
                TagKind::Primitive => Ok(element_len(h)),
                TagKind::Closing => Err(EncodingError::InvalidTag),
                TagKind::Opening => match scan(s.skip(h.header_len as int), 0) {
                    Err(e) => Err(e),
                    Ok((k, c)) => Ok(h.header_len as nat + k + c.header_len as nat),
                },
            }
        },
    }
}

// ---------------------------------------------------------------------------
// Lemmas
// ---------------------------------------------------------------------------
pub proof fn lemma_parse_header_len(s: Seq<u8>)
    requires
        parse_header(s) is Ok,
    ensures
        1 <= parse_header(s)->Ok_0.header_len <= s.len(),
        parse_header(s)->Ok_0.header_len <= 7,
{
}

/// A decoded context primitive lies within the data.
pub proof fn lemma_parse_context_primitive_len(s: Seq<u8>)
    ensures
        parse_context_primitive(s) matches Ok((_, _, n)) ==> 0 < n <= s.len(),
{
    if parse_header(s) is Ok {
        lemma_parse_header_len(s);
    }
}

/// A header decodes the same whatever follows it.
pub proof fn lemma_parse_header_prefix(s: Seq<u8>, t: Seq<u8>)
    requires
        parse_header(s) is Ok,
    ensures
        parse_header(s + t) == parse_header(s),
{
    let u = s + t;
    assert(u[0] == s[0]);
    if s.len() >= 2 {
        assert(u[1] == s[1]);
    }
    let p: int = if s[0] / 16 == 15 { 2 } else { 1 };
    if s.len() >= p + 1 {
        assert(u[p] == s[p]);
    }
    if s.len() >= p + 3 {
        assert(u.subrange(p + 1, p + 3) =~= s.subrange(p + 1, p + 3));
    }
    if s.len() >= p + 5 {
        assert(u.subrange(p + 1, p + 5) =~= s.subrange(p + 1, p + 5));
    }
}

pub proof fn lemma_tag_octet(tag_number: u8, context: bool, lvt: u8)
    requires
        lvt < 8,
    ensures
        tag_octet(tag_number, context, lvt) / 16 == (if tag_number < 15 { tag_number } else { 15 }),
        (tag_octet(tag_number, context, lvt) / 8) % 2 == (if context { 1u8 } else { 0u8 }),
        tag_octet(tag_number, context, lvt) % 8 == lvt,
{
}

/// The header of a primitive element decodes to what was encoded.
pub proof fn lemma_header_bytes(tag_number: u8, context: bool, len: nat, rest: Seq<u8>)
    requires
        len <= u32::MAX,
    ensures
        parse_header(header_bytes(tag_number, context, len) + rest) == Ok::<TagHeader, EncodingError>(
            primitive_header(tag_number, context, len as u32, header_bytes(tag_number, context, len).len()),
        ),
        1 <= header_bytes(tag_number, context, len).len() <= 7,
{
    let lvt: u8 = if len <= 4 { len as u8 } else { 5 };
    lemma_tag_octet(tag_number, context, lvt);
    let s = header_bytes(tag_number, context, len) + rest;
    let p: int = if tag_number < 15 { 1 } else { 2 };
    assert(s[0] == tag_octet(tag_number, context, lvt));
    if tag_number >= 15 {
        assert(s[1] == tag_number);
    }
    lemma_pow256_values();
    if len > 253 && len <= 65535 {
        lemma_be_bytes_len(len, 2);
        lemma_be_bytes_value(len, 2);
        assert(s[p] == 254);
        assert(s.subrange(p + 1, p + 3) =~= be_bytes(len, 2));
    } else if len > 65535 {
        lemma_be_bytes_len(len, 4);
        lemma_be_bytes_value(len, 4);
        assert(s[p] == 255);
        assert(s.subrange(p + 1, p + 5) =~= be_bytes(len, 4));
    } else if len > 4 {
        assert(s[p] == len as u8);
    }
}

/// Opening and closing tags decode to what was encoded.
pub proof fn lemma_open_close_bytes(tag_number: u8, rest: Seq<u8>)
    ensures
        parse_header(opening_bytes(tag_number) + rest) == Ok::<TagHeader, EncodingError>(
            TagHeader {
                tag_number,
                context: true,
                kind: TagKind::Opening,
                length: 0,
                header_len: opening_bytes(tag_number).len() as usize,
            },
        ),
        parse_header(closing_bytes(tag_number) + rest) == Ok::<TagHeader, EncodingError>(
            TagHeader {
                tag_number,
                context: true,
                kind: TagKind::Closing,
                length: 0,
                header_len: closing_bytes(tag_number).len() as usize,
            },
        ),
        1 <= opening_bytes(tag_number).len() <= 2,
        closing_bytes(tag_number).len() == opening_bytes(tag_number).len(),
{
    lemma_tag_octet(tag_number, true, 6);
    lemma_tag_octet(tag_number, true, 7);
    let s = opening_bytes(tag_number) + rest;
    let c = closing_bytes(tag_number) + rest;
    assert(s[0] == tag_octet(tag_number, true, 6));
    assert(c[0] == tag_octet(tag_number, true, 7));
    if tag_number >= 15 {
        assert(s[1] == tag_number);
        assert(c[1] == tag_number);
    }
}

pub proof fn lemma_walk_shift(s: Seq<u8>, d: nat, k: nat)
    requires
        walk(s, d) is Some,
    ensures
        walk(s, d + k) == Some((walk(s, d)->0 + k) as nat),
    decreases s.len(),
{
    if s.len() > 0 {
        let h = parse_header(s)->Ok_0;
        let n = element_len(h);
        match h.kind {
            TagKind::Opening => lemma_walk_shift(s.skip(n as int), d + 1, k),
            TagKind::Closing => lemma_walk_shift(s.skip(n as int), (d - 1) as nat, k),
            TagKind::Primitive => lemma_walk_shift(s.skip(n as int), d, k),
        }
    }
}

pub proof fn lemma_walk_concat(a: Seq<u8>, b: Seq<u8>, d: nat)
    requires
        walk(a, d) is Some,
    ensures
        walk(a + b, d) == walk(b, walk(a, d)->0),
    decreases a.len(),
{
    if a.len() == 0 {
        assert(a + b =~= b);
    } else {
        let h = parse_header(a)->Ok_0;
        let n = element_len(h);
        lemma_parse_header_prefix(a, b);
        assert((a + b).skip(n as int) =~= a.skip(n as int) + b);
        match h.kind {
            TagKind::Opening => lemma_walk_concat(a.skip(n as int), b, d + 1),
            TagKind::Closing => lemma_walk_concat(a.skip(n as int), b, (d - 1) as nat),
            TagKind::Primitive => lemma_walk_concat(a.skip(n as int), b, d),
        }
    }
}

/// Balanced sequences concatenate into a balanced sequence.
pub proof fn lemma_balanced_concat(a: Seq<u8>, b: Seq<u8>)
    requires
        balanced(a),
        balanced(b),
    ensures
        balanced(a + b),
{
    lemma_walk_concat(a, b, 0);
}

pub proof fn lemma_balanced_empty()
    ensures
        balanced(Seq::<u8>::empty()),
{
}

/// A primitive element is balanced.
pub proof fn lemma_balanced_element(tag_number: u8, context: bool, content: Seq<u8>)
    requires
        content.len() <= u32::MAX,
        context || tag_number != 1,
    ensures
        balanced(element_bytes(tag_number, context, content)),
{
    let s = element_bytes(tag_number, context, content);
    lemma_header_bytes(tag_number, context, content.len(), content);
    assert(s.skip(s.len() as int) =~= Seq::<u8>::empty());
    reveal_with_fuel(walk, 2);
}

/// An application Boolean (its value held in the header) is balanced.
pub proof fn lemma_balanced_header_only(tag_number: u8, context: bool, len: nat)
    requires
        len <= 4,
        !context && tag_number == 1,
    ensures
        balanced(header_bytes(tag_number, context, len)),
{
    let s = header_bytes(tag_number, context, len);
    lemma_header_bytes(tag_number, context, len, Seq::empty());
    assert(s + Seq::<u8>::empty() =~= s);
    assert(s.skip(s.len() as int) =~= Seq::<u8>::empty());
    reveal_with_fuel(walk, 2);
}

/// Opening tag, balanced content, closing tag: balanced.
pub proof fn lemma_balanced_block(tag_number: u8, inner: Seq<u8>)
    requires
        balanced(inner),
    ensures
        balanced(opening_bytes(tag_number) + inner + closing_bytes(tag_number)),
{
    let o = opening_bytes(tag_number);
    let c = closing_bytes(tag_number);
    lemma_open_close_bytes(tag_number, inner + c);
    lemma_open_close_bytes(tag_number, Seq::empty());
    assert(o + Seq::<u8>::empty() =~= o);
    assert(c + Seq::<u8>::empty() =~= c);
    assert(o.skip(o.len() as int) =~= Seq::<u8>::empty());
    assert(c.skip(c.len() as int) =~= Seq::<u8>::empty());
    reveal_with_fuel(walk, 2);
    assert(walk(o, 0) == Some(1nat));
    assert(walk(c, 1) == Some(0nat));
    lemma_walk_shift(inner, 0, 1);
    lemma_walk_concat(o, inner, 0);
    lemma_walk_concat(o + inner, c, 0);
}

/// Scanning over a walkable prefix moves the depth as the walk does.
pub proof fn lemma_scan_walk(b: Seq<u8>, t: Seq<u8>, d: nat)
    requires
        walk(b, d) is Some,
    ensures
        scan(b + t, d) == shift(scan(t, walk(b, d)->0), b.len()),
    decreases b.len(),
{
    if b.len() == 0 {
        assert(b + t =~= t);
        match scan(t, d) {
            Ok((k, h)) => {},
            Err(e) => {},
        }
    } else {
        let h = parse_header(b)->Ok_0;
        let n = element_len(h);
        lemma_parse_header_prefix(b, t);
        assert((b + t).skip(n as int) =~= b.skip(n as int) + t);
        let e = walk(b, d)->0;
        match h.kind {
            TagKind::Opening => {
                lemma_scan_walk(b.skip(n as int), t, d + 1);
            },
            TagKind::Closing => {
                lemma_scan_walk(b.skip(n as int), t, (d - 1) as nat);
            },
            TagKind::Primitive => {
                lemma_scan_walk(b.skip(n as int), t, d);
            },
        }
        match scan(t, e) {
            Ok((k, hh)) => {},
            Err(err) => {},
        }
    }
}

pub proof fn lemma_scan_bound(s: Seq<u8>, d: nat)
    ensures
        scan(s, d) matches Ok((k, c)) ==> k + c.header_len <= s.len() && c.header_len >= 1,
    decreases s.len(),
{
    match parse_header(s) {
        Err(_) => {},
        Ok(h) => {
            lemma_parse_header_len(s);
            let n = element_len(h);
            if !(n > s.len() || n == 0) {
                match h.kind {
                    TagKind::Closing => if d > 0 {
                        lemma_scan_bound(s.skip(n as int), (d - 1) as nat);
                    },
                    TagKind::Opening => lemma_scan_bound(s.skip(n as int), d + 1),
                    TagKind::Primitive => lemma_scan_bound(s.skip(n as int), d),
                }
            }
        },
    }
}

/// A decoded block lies within the data and is longer than its content.
pub proof fn lemma_parse_block_len(s: Seq<u8>, tag: u8)
    ensures
        parse_block(s, tag) matches Ok((inner, n)) ==> 0 < n <= s.len() && inner.len() < n,
{
    reveal(parse_block);
    if parse_header(s) is Ok {
        lemma_parse_header_len(s);
        let h = parse_header(s)->Ok_0;
        lemma_scan_bound(s.skip(h.header_len as int), 0);
    }
}

/// A block with balanced content decodes to that content.
pub proof fn lemma_parse_block(tag: u8, inner: Seq<u8>, rest: Seq<u8>)
    requires
        balanced(inner),
    ensures
        parse_block(opening_bytes(tag) + inner + closing_bytes(tag) + rest, tag) == Ok::<
            (Seq<u8>, nat),
            EncodingError,
        >((inner, (opening_bytes(tag) + inner + closing_bytes(tag)).len())),
{
    reveal(parse_block);
    let o = opening_bytes(tag);
    let c = closing_bytes(tag);
    let s = o + inner + c + rest;
    lemma_open_close_bytes(tag, inner + c + rest);
    lemma_open_close_bytes(tag, rest);
    assert(s =~= o + (inner + c + rest));
    let start = o.len();
    assert(s.skip(start as int) =~= inner + (c + rest));
    lemma_scan_walk(inner, c + rest, 0);
    assert((c + rest).skip(c.len() as int) =~= rest);
    assert(scan(c + rest, 0) == Ok::<(nat, TagHeader), EncodingError>((0nat, parse_header(c + rest)->Ok_0)));
    assert(s.subrange(start as int, (start + inner.len()) as int) =~= inner);
}

/// A context primitive decodes to its tag number and content.
pub proof fn lemma_parse_context_primitive(tag: u8, content: Seq<u8>, rest: Seq<u8>)
    requires
        content.len() <= u32::MAX,
    ensures
        parse_context_primitive(element_bytes(tag, true, content) + rest) == Ok::<
            (u8, Seq<u8>, nat),
            EncodingError,
        >((tag, content, element_bytes(tag, true, content).len())),
{
    let hb = header_bytes(tag, true, content.len());
    let s = element_bytes(tag, true, content) + rest;
    assert(s =~= hb + (content + rest));
    lemma_header_bytes(tag, true, content.len(), content + rest);
    assert(s.subrange(hb.len() as int, (hb.len() + content.len()) as int) =~= content);
}

/// An application primitive decodes to its content.
pub proof fn lemma_parse_application(tag: u8, content: Seq<u8>, rest: Seq<u8>)
    requires
        content.len() <= u32::MAX,
        tag != 1,
    ensures
        parse_application(element_bytes(tag, false, content) + rest, tag) == Ok::<
            (Seq<u8>, nat),
            EncodingError,
        >((content, element_bytes(tag, false, content).len())),
{
    let hb = header_bytes(tag, false, content.len());
    let s = element_bytes(tag, false, content) + rest;
    assert(s =~= hb + (content + rest));
    lemma_header_bytes(tag, false, content.len(), content + rest);
    assert(s.subrange(hb.len() as int, (hb.len() + content.len()) as int) =~= content);
}

// ---------------------------------------------------------------------------
// Executable codec
// ---------------------------------------------------------------------------
/// Decodes the tag header at the start of `data`.
pub fn decode_tag_header(data: &[u8]) -> (res: Result<TagHeader>)
    ensures
        res == parse_header(data@),
{
    if data.len() == 0 {
        return Err(EncodingError::UnexpectedEndOfData);
    }
    let b = data[0];
    let extended = b / 16 == 15;
    let p: usize = if extended { 2 } else { 1 };
    if data.len() < p {
        return Err(EncodingError::UnexpectedEndOfData);
    }
    let tn: u8 = if extended { data[1] } else { b / 16 };
    let context = (b / 8) % 2 == 1;
    let lvt = b % 8;
    if lvt >= 6 {
        if context {
            return Ok(TagHeader {
                tag_number: tn,
                context,
                kind: if lvt == 6 { TagKind::Opening } else { TagKind::Closing },
                length: 0,
                header_len: p,
            });
        } else {
            return Err(EncodingError::InvalidTag);
        }
    }
    if lvt < 5 {
        return Ok(TagHeader { tag_number: tn, context, kind: TagKind::Primitive, length: lvt as u32, header_len: p });
    }
    if data.len() < p + 1 {
        return Err(EncodingError::UnexpectedEndOfData);
    }
    let e = data[p];
    if e < 254 {
        Ok(TagHeader { tag_number: tn, context, kind: TagKind::Primitive, length: e as u32, header_len: p + 1 })
    } else if e == 254 {
        if data.len() < p + 3 {
            return Err(EncodingError::UnexpectedEndOfData);
        }
        let len = bytes_to_u32(slice_subrange(data, p + 1, p + 3));
        match len {
            Ok(len) => Ok(TagHeader { tag_number: tn, context, kind: TagKind::Primitive, length: len, header_len: p + 3 }),
            Err(_) => Err(EncodingError::InvalidLength),
        }
    } else {
        if data.len() < p + 5 {
            return Err(EncodingError::UnexpectedEndOfData);
        }
        let len = bytes_to_u32(slice_subrange(data, p + 1, p + 5));
        match len {
            Ok(len) => Ok(TagHeader { tag_number: tn, context, kind: TagKind::Primitive, length: len, header_len: p + 5 }),
            Err(_) => Err(EncodingError::InvalidLength),
        }
    }
}

/// The octets an element takes, if they are within `avail`.
fn element_size(h: &TagHeader, avail: usize) -> (r: Option<usize>)
    requires
        h.header_len <= 7,
    ensures
        r matches Some(n) ==> n == element_len(*h) && n <= avail,
        r is None ==> element_len(*h) > avail,
{
    let c: u32 = if h.kind == TagKind::Primitive && (h.context || h.tag_number != 1) {
        h.length
    } else {
        0
    };
    if h.header_len > avail {
        return None;
    }
    let rem = avail - h.header_len;
    if c as u64 > rem as u64 {
        None
    } else {
        Some(h.header_len + c as usize)
    }
}

/// Appends the header of a primitive element.
fn encode_header(buffer: &mut Vec<u8>, tag_number: u8, context: bool, len: u32)
    ensures
        final(buffer)@ == old(buffer)@ + header_bytes(tag_number, context, len as nat),
{
    let class: u8 = if context { 8 } else { 0 };
    let lvt: u8 = if len <= 4 { len as u8 } else { 5 };
    let first: u8 = if tag_number < 15 { tag_number * 16 + class + lvt } else { 240 + class + lvt };
    buffer.push(first);
    if tag_number >= 15 {
        buffer.push(tag_number);
    }
    proof {
        assert(buffer@ =~= old(buffer)@ + tag_start(tag_number, context, lvt));
    }
    if len <= 4 {
    } else if len <= 253 {
        buffer.push(len as u8);
    } else if len <= 65535 {
        let ghost mid = buffer@;
        buffer.push(254);
        buffer.push((len / 256) as u8);
        buffer.push((len % 256) as u8);
        proof {
            reveal_with_fuel(be_bytes, 3);
            assert(buffer@ =~= mid + seq![254u8] + be_bytes(len as nat, 2));
        }
    } else {
        let ghost mid = buffer@;
        buffer.push(255);
        buffer.push((len / 16777216) as u8);
        buffer.push(((len / 65536) % 256) as u8);
        buffer.push(((len / 256) % 256) as u8);
        buffer.push((len % 256) as u8);
        proof {
            reveal_with_fuel(be_bytes, 5);
            assert(buffer@ =~= mid + seq![255u8] + be_bytes(len as nat, 4));
        }
    }
}

/// Appends a context tag announcing `len` octets of content.
pub fn encode_context_tag(buffer: &mut Vec<u8>, tag_number: u8, len: usize) -> (res: Result<()>)
    ensures
        res is Ok <==> len <= u32::MAX,
        res is Ok ==> final(buffer)@ == old(buffer)@ + header_bytes(tag_number, true, len as nat),
        res is Err ==> res == Err::<(), EncodingError>(EncodingError::InvalidLength) && final(buffer)@ == old(buffer)@,
{
    if len as u64 > 0xFFFF_FFFFu64 {
        return Err(EncodingError::InvalidLength);
    }
    encode_header(buffer, tag_number, true, len as u32);
    Ok(())
}

/// Appends an application tag announcing `len` octets of content.
pub fn encode_application_tag(buffer: &mut Vec<u8>, tag_number: u8, len: usize) -> (res: Result<()>)
    ensures
        res is Ok <==> len <= u32::MAX,
        res is Ok ==> final(buffer)@ == old(buffer)@ + header_bytes(tag_number, false, len as nat),
        res is Err ==> res == Err::<(), EncodingError>(EncodingError::InvalidLength) && final(buffer)@ == old(buffer)@,
{
    if len as u64 > 0xFFFF_FFFFu64 {
        return Err(EncodingError::InvalidLength);
    }
    encode_header(buffer, tag_number, false, len as u32);
    Ok(())
}

/// Appends the opening tag of `[tag_number]`.
pub fn encode_opening_tag(buffer: &mut Vec<u8>, tag_number: u8) -> (res: Result<()>)
    ensures
        res is Ok,
        final(buffer)@ == old(buffer)@ + opening_bytes(tag_number),
{
    let first: u8 = if tag_number < 15 { tag_number * 16 + 14 } else { 254 };
    buffer.push(first);
    if tag_number >= 15 {
        buffer.push(tag_number);
    }
    proof {
        assert(final(buffer)@ =~= old(buffer)@ + opening_bytes(tag_number));
    }
    Ok(())
}

/// Appends the closing tag of `[tag_number]`.
pub fn encode_closing_tag(buffer: &mut Vec<u8>, tag_number: u8) -> (res: Result<()>)
    ensures
        res is Ok,
        final(buffer)@ == old(buffer)@ + closing_bytes(tag_number),
{
    let first: u8 = if tag_number < 15 { tag_number * 16 + 15 } else { 255 };
    buffer.push(first);
    if tag_number >= 15 {
        buffer.push(tag_number);
    }
    proof {
        assert(final(buffer)@ =~= old(buffer)@ + closing_bytes(tag_number));
    }
    Ok(())
}

/// Finds the closing tag that ends depth 0, scanning from `start`: its
/// position and header.
fn find_closing(data: &[u8], start: usize) -> (res: Result<(usize, TagHeader)>)
    requires
        start <= data@.len(),
    ensures
        match res {
            Ok((k, c)) => start <= k && scan(data@.skip(start as int), 0) == Ok::<(nat, TagHeader), EncodingError>(((k - start) as nat, c))
                && k + c.header_len <= data@.len(),
            Err(e) => scan(data@.skip(start as int), 0) == Err::<(nat, TagHeader), EncodingError>(e),
        },
{
    let mut pos = start;
    let mut depth: usize = 0;
    loop
        invariant
            start <= pos <= data@.len(),
            depth <= pos,
            scan(data@.skip(start as int), 0) == shift(scan(data@.skip(pos as int), depth as nat), (pos - start) as nat),
        decreases data@.len() - pos,
    {
        let rest = slice_subrange(data, pos, data.len());
        assert(rest@ =~= data@.skip(pos as int));
        let c = match decode_tag_header(rest) {
            Ok(c) => c,
            Err(e) => return Err(e),
        };
        proof {
            lemma_parse_header_len(rest@);
        }
        let n = match element_size(&c, rest.len()) {
            Some(n) => n,
            None => return Err(EncodingError::UnexpectedEndOfData),
        };
        assert(rest@.skip(n as int) =~= data@.skip(pos + n));
        match c.kind {
            TagKind::Closing => {
                if depth == 0 {
                    return Ok((pos, c));
                }
                depth = depth - 1;
            },
            TagKind::Opening => {
                depth = depth + 1;
            },
            TagKind::Primitive => {},
        }
        pos = pos + n;
    }
}

/// The content of the constructed element `[tag]` at the start of `data`, and
/// the octets it occupies including its opening and closing tags.
pub fn extract_context_block(data: &[u8], tag: u8) -> (res: Result<(&[u8], usize)>)
    ensures
        match res {
            Ok((inner, n)) => parse_block(data@, tag) == Ok::<(Seq<u8>, nat), EncodingError>((inner@, n as nat)),
            Err(e) => parse_block(data@, tag) == Err::<(Seq<u8>, nat), EncodingError>(e),
        },
        res matches Ok((inner, n)) ==> 0 < n <= data@.len() && inner@.len() < n,
{
    reveal(parse_block);
    let h = decode_tag_header(data)?;
    if !(h.kind == TagKind::Opening && h.tag_number == tag) {
        return Err(EncodingError::InvalidTag);
    }
    proof {
        lemma_parse_header_len(data@);
    }
    let start = h.header_len;
    match find_closing(data, start) {
        Ok((k, c)) => {
            assert(k + c.header_len <= data.len());
            if c.tag_number != tag {
                return Err(EncodingError::InvalidTag);
            }
            let inner = slice_subrange(data, start, k);
            proof {
                lemma_parse_block_len(data@, tag);
            }
            Ok((inner, k + c.header_len))
        },
        Err(e) => Err(e),
    }
}

/// The tag number, content and size of the context primitive at the start of `data`.
pub fn decode_context_primitive(data: &[u8]) -> (res: Result<(u8, &[u8], usize)>)
    ensures
        match res {
            Ok((t, content, n)) => parse_context_primitive(data@) == Ok::<(u8, Seq<u8>, nat), EncodingError>((t, content@, n as nat)),
            Err(e) => parse_context_primitive(data@) == Err::<(u8, Seq<u8>, nat), EncodingError>(e),
        },
        res matches Ok((_, _, n)) ==> 0 < n <= data@.len(),
{
    let h = decode_tag_header(data)?;
    if !(h.context && h.kind == TagKind::Primitive) {
        return Err(EncodingError::InvalidTag);
    }
    proof {
        lemma_parse_header_len(data@);
    }
    let n = match element_size(&h, data.len()) {
        Some(n) => n,
        None => return Err(EncodingError::UnexpectedEndOfData),
    };
    Ok((h.tag_number, slice_subrange(data, h.header_len, n), n))
}

/// The content and size of the application primitive `tag` at the start of `data`.
pub fn decode_application_primitive(data: &[u8], tag: u8) -> (res: Result<(&[u8], usize)>)
    ensures
        match res {
            Ok((content, n)) => parse_application(data@, tag) == Ok::<(Seq<u8>, nat), EncodingError>((content@, n as nat)),
            Err(e) => parse_application(data@, tag) == Err::<(Seq<u8>, nat), EncodingError>(e),
        },
        res matches Ok((_, n)) ==> 0 < n <= data@.len(),
{
    let h = decode_tag_header(data)?;
    if h.context || h.kind != TagKind::Primitive || h.tag_number != tag {
        return Err(EncodingError::InvalidTag);
    }
    proof {
        lemma_parse_header_len(data@);
    }
    let n = match element_size(&h, data.len()) {
        Some(n) => n,
        None => return Err(EncodingError::UnexpectedEndOfData),
    };
    Ok((slice_subrange(data, h.header_len, n), n))
}

/// The octets one complete element at the start of `data` occupies.
pub fn skip_value(data: &[u8]) -> (res: Result<usize>)
    ensures
        match res {
            Ok(n) => parse_skip(data@) == Ok::<nat, EncodingError>(n as nat),
            Err(e) => parse_skip(data@) == Err::<nat, EncodingError>(e),
        },
{
    reveal(parse_skip);
    let h = decode_tag_header(data)?;
    proof {
        lemma_parse_header_len(data@);
    }
    let n = match element_size(&h, data.len()) {
        Some(n) => n,
        None => return Err(EncodingError::UnexpectedEndOfData),
    };
    match h.kind {
        TagKind::Primitive => Ok(n),
        TagKind::Closing => Err(EncodingError::InvalidTag),
        TagKind::Opening => {
            match find_closing(data, h.header_len) {
                Ok((k, c)) => Ok(k + c.header_len),
                Err(e) => Err(e),
            }
        },
    }
}

} // verus!
