//! What the content hasher digests: a file's bytes, joined from the chunks
//! in which they were read, and a directory's child fingerprints in their
//! fixed-width big-endian form, concatenated in canonical order.

use vstd::prelude::*;

use crate::order::{canonical, key_view, sort_keys};

verus! {

/// The seed with which every digest is taken.
pub const SEED: i64 = 109832;

/// The concatenation of a sequence of chunks.
pub open spec fn concat_chunks(chunks: Seq<Seq<u8>>) -> Seq<u8>
    decreases chunks.len(),
{
    if chunks.len() == 0 {
        Seq::empty()
    } else {
        concat_chunks(chunks.drop_last()) + chunks.last()
    }
}

/// Big-endian bytes of a 128-bit value: the most significant byte first.
pub open spec fn be_bytes(x: u128) -> Seq<u8> {
    Seq::new(16, |i: int| ((x >> ((120 - 8 * i) as u128)) & 0xff) as u8)
}

/// The concatenated big-endian bytes of a sequence of fingerprints.
pub open spec fn fingerprint_bytes(fps: Seq<u128>) -> Seq<u8>
    decreases fps.len(),
{
    if fps.len() == 0 {
        Seq::empty()
    } else {
        fingerprint_bytes(fps.drop_last()) + be_bytes(fps.last())
    }
}

/// The bytes to digest for a file whose content arrives as consecutive
/// chunks: their concatenation, so where the chunks split never matters.
pub fn file_digest_input(chunks: &Vec<Vec<u8>>) -> (r: Vec<u8>)
    ensures
        r@ == concat_chunks(chunks@.map_values(|c: Vec<u8>| c@)),
{
    let ghost views = chunks@.map_values(|c: Vec<u8>| c@);
    let mut buffer: Vec<u8> = Vec::new();
    let mut i: usize = 0;
    while i < chunks.len()
        invariant
            i <= chunks.len(),
            views == chunks@.map_values(|c: Vec<u8>| c@),
            buffer@ == concat_chunks(views.take(i as int)),
        decreases chunks.len() - i,
    {
        let chunk = &chunks[i];
        let mut j: usize = 0;
        let ghost start = buffer@;
        while j < chunk.len()
            invariant
                j <= chunk.len(),
                buffer@ == start + chunk@.take(j as int),
            decreases chunk.len() - j,
        {
            buffer.push(chunk[j]);
            assert(chunk@.take(j + 1) == chunk@.take(j as int).push(chunk@[j as int]));
            assert(buffer@ =~= start + chunk@.take(j + 1));
            j += 1;
        }
        assert(chunk@.take(j as int) =~= chunk@);
        assert(views.take(i + 1).drop_last() =~= views.take(i as int));
        assert(views.take(i + 1).last() == chunk@);
        i += 1;
    }
    assert(views.take(i as int) =~= views);
    buffer
}

/// Big-endian bytes of a 128-bit value.
pub fn to_be_bytes(x: u128) -> (r: Vec<u8>)
    ensures
        r@ == be_bytes(x),
{
    let mut r: Vec<u8> = Vec::new();
    let mut i: u32 = 0;
    while i < 16
        invariant
            i <= 16,
            r@ == be_bytes(x).take(i as int),
        decreases 16 - i,
    {
        let shift: u32 = 120 - 8 * i;
        let b: u8 = ((x >> shift) & 0xff) as u8;
        assert(b == be_bytes(x)[i as int]);
        r.push(b);
        assert(r@ =~= be_bytes(x).take(i + 1));
        i += 1;
    }
    assert(r@ =~= be_bytes(x));
    r
}

/// The concatenated big-endian bytes of fingerprints, in the order given.
pub fn fold_fingerprints(fps: &[u128]) -> (r: Vec<u8>)
    ensures
        r@ == fingerprint_bytes(fps@),
{
    let mut bytes: Vec<u8> = Vec::new();
    let mut i: usize = 0;
    while i < fps.len()
        invariant
            i <= fps.len(),
            bytes@ == fingerprint_bytes(fps@.take(i as int)),
        decreases fps.len() - i,
    {
        let be = to_be_bytes(fps[i]);
        let mut j: usize = 0;
        let ghost start = bytes@;
        while j < be.len()
            invariant
                j <= be.len(),
                be@ == be_bytes(fps@[i as int]),
                bytes@ == start + be@.take(j as int),
            decreases be.len() - j,
        {
            bytes.push(be[j]);
            assert(bytes@ =~= start + be@.take(j + 1));
            j += 1;
        }
        assert(be@.take(j as int) =~= be@);
        assert(fps@.take(i + 1).drop_last() =~= fps@.take(i as int));
        i += 1;
    }
    assert(fps@.take(i as int) =~= fps@);
    bytes
}

/// The bytes to digest for a directory: the fingerprints of its children,
/// keyed by path bytes, folded in canonical order.
pub open spec fn directory_input(keys: Seq<(Seq<u8>, u128)>) -> Seq<u8> {
    fingerprint_bytes(canonical(keys).map_values(|k: (Seq<u8>, u128)| k.1))
}

/// Sorts the children's keys into canonical order and folds their
/// fingerprints into the bytes that the directory's digest is taken of.
pub fn children_digest_input(keys: Vec<(Vec<u8>, u128)>) -> (r: Vec<u8>)
    ensures
        r@ == directory_input(keys@.map_values(|k: (Vec<u8>, u128)| key_view(k))),
{
    let sorted = sort_keys(keys);
    let mut fps: Vec<u128> = Vec::new();
    let mut i: usize = 0;
    let ghost sv = sorted@.map_values(|k: (Vec<u8>, u128)| key_view(k));
    while i < sorted.len()
        invariant
            i <= sorted.len(),
            sv == sorted@.map_values(|k: (Vec<u8>, u128)| key_view(k)),
            fps@ == sv.take(i as int).map_values(|k: (Seq<u8>, u128)| k.1),
        decreases sorted.len() - i,
    {
        fps.push(sorted[i].1);
        assert(fps@ =~= sv.take(i + 1).map_values(|k: (Seq<u8>, u128)| k.1));
        i += 1;
    }
    assert(sv.take(i as int) =~= sv);
    fold_fingerprints(fps.as_slice())
}

/// A directory's digest input does not depend on the order in which its
/// children were listed: any arrangement of the same keys gives the same bytes.
pub proof fn lemma_directory_input_ignores_listing_order(
    a: Seq<(Seq<u8>, u128)>,
    b: Seq<(Seq<u8>, u128)>,
)
    requires
        a.to_multiset() == b.to_multiset(),
    ensures
        directory_input(a) == directory_input(b),
{
    crate::order::lemma_canonical_ignores_arrival_order(a, b);
}

/// An empty directory digests the empty byte sequence.
pub proof fn lemma_empty_directory_input()
    ensures
        directory_input(Seq::empty()) == Seq::<u8>::empty(),
{
    let e = Seq::<(Seq<u8>, u128)>::empty();
    crate::order::lemma_key_order_total();
    e.lemma_sort_by_ensures(crate::order::key_order());
    vstd::seq_lib::to_multiset_len(e);
    vstd::seq_lib::to_multiset_len(canonical(e));
    assert(canonical(e).map_values(|k: (Seq<u8>, u128)| k.1) =~= Seq::<u128>::empty());
}

} // verus!
