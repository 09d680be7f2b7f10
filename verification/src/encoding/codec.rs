//! Generic statements about encoders and decoders: what an encoder appends,
//! lists encoded back to back, and lists decoded until the data ends.
use crate::encoding::tag::{balanced, lemma_balanced_concat, lemma_balanced_empty};
use crate::error::{EncodingError, Result};
use vstd::prelude::*;

verus! {

/// What an encoder produces: the complete encoding, or the error that stopped
/// it together with the octets it had written by then.
pub type Encoded = core::result::Result<Seq<u8>, (EncodingError, Seq<u8>)>;

/// An encoder that stops with `e` before writing anything.
pub open spec fn failed(e: EncodingError) -> Encoded {
    Err((e, Seq::empty()))
}

/// An encoder that appends `enc` to `before`, giving `after` and `res`: on
/// success exactly the encoding is appended; on failure the error is the one
/// `enc` names and exactly the octets written before it are appended.
pub open spec fn appended(res: Result<()>, before: Seq<u8>, after: Seq<u8>, enc: Encoded) -> bool {
    match enc {
        Ok(b) => res is Ok && after == before + b,
        Err((e, written)) => res == Err::<(), EncodingError>(e) && after == before + written,
    }
}

/// A decoder's result seen through the view of the decoded value.
pub open spec fn decoded<T: View>(r: Result<(T, usize)>) -> Result<(T::V, nat)> {
    match r {
        Ok((v, n)) => Ok((v@, n as nat)),
        Err(e) => Err(e),
    }
}

/// The views of a sequence of values.
pub open spec fn views<T: View>(s: Seq<T>) -> Seq<T::V> {
    s.map_values(|x: T| x@)
}

/// A list decoder's result seen through the views of the decoded values.
pub open spec fn decoded_list<T: View>(r: Result<Vec<T>>) -> Result<Seq<T::V>> {
    match r {
        Ok(v) => Ok(views(v@)),
        Err(e) => Err(e),
    }
}

pub proof fn lemma_views_push<T: View>(s: Seq<T>, x: T)
    ensures
        views(s.push(x)) == views(s).push(x@),
{
    assert(views(s.push(x)) =~= views(s).push(x@));
}

/// The encodings of `es` one after another; the first element that fails
/// stops it, after the encodings of the elements before it.
pub open spec fn encode_all<T>(es: Seq<T>, enc: spec_fn(T) -> Encoded) -> Encoded
    decreases es.len(),
{
    if es.len() == 0 {
        Ok(Seq::empty())
    } else {
        snoc_encoding(enc(es[0]), encode_all(es.drop_first(), enc))
    }
}

/// One encoding followed by another: a failure of the first stops it; a
/// failure of the second comes after the whole first encoding.
pub open spec fn snoc_encoding(a: Encoded, b: Encoded) -> Encoded {
    match a {
        Err(x) => Err(x),
        Ok(x) => match b {
            Ok(y) => Ok(x + y),
            Err((e, written)) => Err((e, x + written)),
        },
    }
}

/// `snoc_encoding` groups either way.
pub proof fn lemma_snoc_assoc(a: Encoded, b: Encoded, c: Encoded)
    ensures
        snoc_encoding(snoc_encoding(a, b), c) == snoc_encoding(a, snoc_encoding(b, c)),
{
    if let Ok(x) = a {
        if let Ok(y) = b {
            match c {
                Ok(z) => {
                    assert(x + y + z =~= x + (y + z));
                },
                Err((e, w)) => {
                    assert(x + y + w =~= x + (y + w));
                },
            }
        }
    }
}

/// The empty encoding is a unit of `snoc_encoding` on either side.
pub proof fn lemma_snoc_empty(b: Encoded)
    ensures
        snoc_encoding(Ok(Seq::empty()), b) == b,
        snoc_encoding(b, Ok(Seq::empty())) == b,
{
    match b {
        Ok(y) => {
            assert(Seq::<u8>::empty() + y =~= y);
            assert(y + Seq::<u8>::empty() =~= y);
        },
        Err((e, w)) => {
            assert(Seq::<u8>::empty() + w =~= w);
        },
    }
}

/// Elements decoded one after another until `s` ends.
pub open spec fn parse_all<T>(s: Seq<u8>, p: spec_fn(Seq<u8>) -> Result<(T, nat)>) -> Result<Seq<T>>
    decreases s.len(),
{
    if s.len() == 0 {
        Ok(Seq::empty())
    } else {
        match p(s) {
            Err(e) => Err(e),
            Ok((v, n)) => if n == 0 || n > s.len() {
                Err(EncodingError::InvalidFormat)
            } else {
                match parse_all(s.skip(n as int), p) {
                    Ok(vs) => Ok(seq![v] + vs),
                    Err(e) => Err(e),
                }
            },
        }
    }
}

/// Puts already decoded elements in front of a result.
pub open spec fn prepend<T>(pre: Seq<T>, r: Result<Seq<T>>) -> Result<Seq<T>> {
    match r {
        Ok(vs) => Ok(pre + vs),
        Err(e) => Err(e),
    }
}

pub proof fn lemma_encode_all_snoc<T>(es: Seq<T>, enc: spec_fn(T) -> Encoded)
    requires
        es.len() > 0,
    ensures
        encode_all(es, enc) == snoc_encoding(encode_all(es.drop_last(), enc), enc(es.last())),
{
    let t = seq![es.last()];
    lemma_encode_all_concat(es.drop_last(), t, enc);
    assert(es.drop_last() + t =~= es);
    assert(t.drop_first() =~= Seq::<T>::empty());
    assert(encode_all(t.drop_first(), enc) == Ok::<Seq<u8>, (EncodingError, Seq<u8>)>(Seq::empty()));
    lemma_snoc_empty(enc(es.last()));
    assert(encode_all(t, enc) == enc(es.last()));
}

/// The encoding of a concatenation is the concatenation of the encodings.
pub proof fn lemma_encode_all_concat<T>(a: Seq<T>, b: Seq<T>, enc: spec_fn(T) -> Encoded)
    ensures
        encode_all(a + b, enc) == snoc_encoding(encode_all(a, enc), encode_all(b, enc)),
    decreases a.len(),
{
    if a.len() == 0 {
        assert(a + b =~= b);
        lemma_snoc_empty(encode_all(b, enc));
    } else {
        lemma_encode_all_concat(a.drop_first(), b, enc);
        assert((a + b).drop_first() =~= a.drop_first() + b);
        assert((a + b)[0] == a[0]);
        lemma_snoc_assoc(enc(a[0]), encode_all(a.drop_first(), enc), encode_all(b, enc));
    }
}

/// If encoding the first `i + 1` elements fails, encoding them all fails the same way.
pub proof fn lemma_encode_all_prefix_err<T>(es: Seq<T>, enc: spec_fn(T) -> Encoded, i: int)
    requires
        0 <= i < es.len(),
        encode_all(es.take(i + 1), enc) is Err,
    ensures
        encode_all(es, enc) == encode_all(es.take(i + 1), enc),
{
    lemma_encode_all_concat(es.take(i + 1), es.skip(i + 1), enc);
    assert(es.take(i + 1) + es.skip(i + 1) =~= es);
}

/// Taking one more element extends the encoding of a prefix.
pub proof fn lemma_encode_all_take<T>(es: Seq<T>, enc: spec_fn(T) -> Encoded, i: int)
    requires
        0 <= i < es.len(),
    ensures
        encode_all(es.take(i + 1), enc) == snoc_encoding(encode_all(es.take(i), enc), enc(es[i])),
{
    lemma_encode_all_snoc(es.take(i + 1), enc);
    assert(es.take(i + 1).drop_last() =~= es.take(i));
}

/// A list of encodable elements whose encodings decode back to the elements
/// decodes back to the list.
pub proof fn lemma_parse_all_encode_all<T>(
    es: Seq<T>,
    enc: spec_fn(T) -> Encoded,
    p: spec_fn(Seq<u8>) -> Result<(T, nat)>,
)
    requires
        forall|i: int| 0 <= i < es.len() ==> (#[trigger] enc(es[i])) is Ok && enc(es[i])->Ok_0.len() > 0,
        forall|i: int, rest: Seq<u8>|
            0 <= i < es.len() ==> #[trigger] p(enc(es[i])->Ok_0 + rest) == Ok::<(T, nat), EncodingError>(
                (es[i], enc(es[i])->Ok_0.len()),
            ),
    ensures
        encode_all(es, enc) is Ok,
        parse_all(encode_all(es, enc)->Ok_0, p) == Ok::<Seq<T>, EncodingError>(es),
    decreases es.len(),
{
    if es.len() == 0 {
        assert(es =~= Seq::<T>::empty());
    } else {
        let t = es.drop_first();
        assert forall|i: int| 0 <= i < t.len() implies (#[trigger] enc(t[i])) is Ok && enc(t[i])->Ok_0.len() > 0 by {
            assert(t[i] == es[i + 1]);
        }
        assert forall|i: int, rest: Seq<u8>| 0 <= i < t.len() implies #[trigger] p(enc(t[i])->Ok_0 + rest)
            == Ok::<(T, nat), EncodingError>((t[i], enc(t[i])->Ok_0.len())) by {
            assert(t[i] == es[i + 1]);
            assert(p(enc(es[i + 1])->Ok_0 + rest) == Ok::<(T, nat), EncodingError>((es[i + 1], enc(es[i + 1])->Ok_0.len())));
        }
        lemma_parse_all_encode_all(t, enc, p);
        assert(enc(es[0]) is Ok);
        let b = enc(es[0])->Ok_0;
        let r = encode_all(t, enc)->Ok_0;
        assert(p(b + r) == Ok::<(T, nat), EncodingError>((es[0], b.len())));
        assert((b + r).skip(b.len() as int) =~= r);
        assert(seq![es[0]] + t =~= es);
    }
}

/// Encodings of balanced elements, one after another, are balanced.
pub proof fn lemma_encode_all_balanced<T>(es: Seq<T>, enc: spec_fn(T) -> Encoded)
    requires
        forall|i: int| 0 <= i < es.len() ==> (#[trigger] enc(es[i])) is Ok && balanced(enc(es[i])->Ok_0),
    ensures
        encode_all(es, enc) is Ok,
        balanced(encode_all(es, enc)->Ok_0),
    decreases es.len(),
{
    if es.len() == 0 {
        lemma_balanced_empty();
    } else {
        let t = es.drop_first();
        assert forall|i: int| 0 <= i < t.len() implies (#[trigger] enc(t[i])) is Ok && balanced(enc(t[i])->Ok_0) by {
            assert(t[i] == es[i + 1]);
        }
        lemma_encode_all_balanced(t, enc);
        assert(enc(es[0]) is Ok);
        lemma_balanced_concat(enc(es[0])->Ok_0, encode_all(t, enc)->Ok_0);
    }
}

/// One step of a decoding loop: decoding the rest from `pos` on.
pub proof fn lemma_parse_all_step<T>(s: Seq<u8>, pos: int, p: spec_fn(Seq<u8>) -> Result<(T, nat)>)
    requires
        0 <= pos < s.len(),
    ensures
        parse_all(s.skip(pos), p) == match p(s.skip(pos)) {
            Err(e) => Err(e),
            Ok((v, n)) => if n == 0 || n > s.len() - pos {
                Err(EncodingError::InvalidFormat)
            } else {
                prepend(seq![v], parse_all(s.skip(pos + n), p))
            },
        },
{
    match p(s.skip(pos)) {
        Err(e) => {},
        Ok((v, n)) => {
            if !(n == 0 || n > s.len() - pos) {
                assert(s.skip(pos).skip(n as int) =~= s.skip(pos + n));
            }
        },
    }
}

} // verus!
