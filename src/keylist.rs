//! The wire form of a table's key list: each key preceded by its four-byte
//! little-endian length, the keys one after another.
use vstd::prelude::*;
use crate::codec::{extend_from_range, le_u32, lemma_u32_le_round_trip, read_u32_le, u32_le};

verus! {

/// The serialized form of a list of keys.
pub open spec fn serialize_keys(ks: Seq<Seq<u8>>) -> Seq<u8>
    decreases ks.len(),
{
    if ks.len() == 0 {
        Seq::empty()
    } else {
        u32_le(ks[0].len() as u32) + ks[0] + serialize_keys(ks.drop_first())
    }
}

/// The keys that a serialized list holds, or `None` where a length runs past the end.
pub open spec fn parse_keys(b: Seq<u8>) -> Option<Seq<Seq<u8>>>
    decreases b.len(),
{
    if b.len() == 0 {
        Some(Seq::empty())
    } else if b.len() < 4 {
        None
    } else if b.len() - 4 < le_u32(b.subrange(0, 4)) {
        None
    } else {
        let n = le_u32(b.subrange(0, 4)) as int;
        match parse_keys(b.subrange(4 + n, b.len() as int)) {
            Some(rest) => Some(seq![b.subrange(4, 4 + n)] + rest),
            None => None,
        }
    }
}

/// Every key fits the four-byte length prefix.
pub open spec fn keys_fit_wire(ks: Seq<Seq<u8>>) -> bool {
    forall|i: int| 0 <= i < ks.len() ==> #[trigger] ks[i].len() <= u32::MAX
}

/// The byte strings held by a sequence of vectors.
pub open spec fn views(ks: Seq<Vec<u8>>) -> Seq<Seq<u8>> {
    Seq::new(ks.len(), |i: int| ks[i]@)
}

pub proof fn lemma_serialize_concat(a: Seq<Seq<u8>>, b: Seq<Seq<u8>>)
    ensures
        serialize_keys(a + b) == serialize_keys(a) + serialize_keys(b),
    decreases a.len(),
{
    if a.len() == 0 {
        assert(a + b =~= b);
        assert(serialize_keys(a) + serialize_keys(b) =~= serialize_keys(b));
    } else {
        assert((a + b).drop_first() =~= a.drop_first() + b);
        lemma_serialize_concat(a.drop_first(), b);
        assert((a + b)[0] == a[0]);
        assert(serialize_keys(a + b) =~= serialize_keys(a) + serialize_keys(b));
    }
}

pub proof fn lemma_serialize_push(a: Seq<Seq<u8>>, x: Seq<u8>)
    ensures
        serialize_keys(a.push(x)) == serialize_keys(a) + u32_le(x.len() as u32) + x,
{
    lemma_serialize_concat(a, seq![x]);
    assert(a + seq![x] =~= a.push(x));
    let one = seq![x];
    assert(one.drop_first() =~= Seq::<Seq<u8>>::empty());
    assert(one[0] == x);
    assert(serialize_keys(one.drop_first()) =~= Seq::<u8>::empty());
    assert(serialize_keys(one) =~= u32_le(x.len() as u32) + x);
    assert(serialize_keys(a) + (u32_le(x.len() as u32) + x) =~= serialize_keys(a) + u32_le(
        x.len() as u32,
    ) + x);
}

/// A prefix of a key list never serializes longer than the whole list.
pub proof fn lemma_serialize_prefix_len(ks: Seq<Seq<u8>>, i: int)
    requires
        0 <= i <= ks.len(),
    ensures
        serialize_keys(ks.take(i)).len() <= serialize_keys(ks).len(),
{
    lemma_serialize_concat(ks.take(i), ks.skip(i));
    assert(ks.take(i) + ks.skip(i) =~= ks);
}

/// Parsing a serialized key list gives the keys back, in order.
pub proof fn lemma_key_list_round_trip(ks: Seq<Seq<u8>>)
    requires
        keys_fit_wire(ks),
    ensures
        parse_keys(serialize_keys(ks)) == Some(ks),
    decreases ks.len(),
{
    if ks.len() > 0 {
        let k = ks[0];
        let tail = ks.drop_first();
        let n = k.len() as u32;
        let rest = serialize_keys(tail);
        let b = serialize_keys(ks);
        assert(b == u32_le(n) + k + rest);
        assert(k.len() <= u32::MAX);
        assert(b.len() == 4 + k.len() + rest.len());
        lemma_u32_le_round_trip(n);
        assert(b.subrange(0, 4) =~= u32_le(n));
        assert(le_u32(b.subrange(0, 4)) == k.len());
        assert(b.subrange(4, 4 + k.len() as int) =~= k);
        assert(b.subrange(4 + k.len() as int, b.len() as int) =~= rest);
        assert(keys_fit_wire(tail)) by {
            assert forall|i: int| 0 <= i < tail.len() implies #[trigger] tail[i].len()
                <= u32::MAX by {
                assert(tail[i] == ks[i + 1]);
            }
        }
        lemma_key_list_round_trip(tail);
        assert(seq![k] + tail =~= ks);
    } else {
        assert(serialize_keys(ks) =~= Seq::<u8>::empty());
    }
}

/// Splits a serialized key list into its keys.
pub fn parse_key_list(b: &[u8]) -> (r: Option<Vec<Vec<u8>>>)
    ensures
        match r {
            Some(ks) => parse_keys(b@) == Some(views(ks@)),
            None => parse_keys(b@) is None,
        },
{
    let mut keys: Vec<Vec<u8>> = Vec::new();
    let mut off: usize = 0;
    assert(b@.subrange(0, b@.len() as int) =~= b@);
    assert forall|rest: Seq<Seq<u8>>| #[trigger] (views(keys@) + rest) == rest by {
        assert(views(keys@) + rest =~= rest);
    }
    while off < b.len()
        invariant
            off <= b@.len(),
            parse_keys(b@) == match parse_keys(b@.subrange(off as int, b@.len() as int)) {
                Some(rest) => Some(views(keys@) + rest),
                None => None::<Seq<Seq<u8>>>,
            },
        decreases b@.len() - off,
    {
        let ghost rest = b@.subrange(off as int, b@.len() as int);
        if b.len() - off < 4 {
            return None;
        }
        let n = read_u32_le(b, off) as usize;
        assert(rest.subrange(0, 4) =~= b@.subrange(off as int, off + 4));
        if b.len() - off - 4 < n {
            return None;
        }
        let mut key: Vec<u8> = Vec::new();
        extend_from_range(&mut key, b, off + 4, off + 4 + n);
        assert(rest.subrange(4, 4 + n) =~= key@);
        assert(rest.subrange(4 + n, rest.len() as int) =~= b@.subrange(
            off + 4 + n,
            b@.len() as int,
        ));
        let ghost before = views(keys@);
        keys.push(key);
        assert(views(keys@) =~= before.push(key@));
        assert forall|tail: Seq<Seq<u8>>| #[trigger] (before + (seq![key@] + tail)) == views(keys@) + tail by {
            assert(before + (seq![key@] + tail) =~= views(keys@) + tail);
        }
        off = off + 4 + n;
    }
    assert(b@.subrange(off as int, b@.len() as int) =~= Seq::<u8>::empty());
    assert(views(keys@) + Seq::<Seq<u8>>::empty() =~= views(keys@));
    Some(keys)
}

} // verus!
