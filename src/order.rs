//! The canonical order of a directory's children: by the UTF-8 bytes of
//! their paths, lexicographically, which is the order of Rust's `String`.

use vstd::prelude::*;
use vstd::relations::{sorted_by, total_ordering};

verus! {

/// Lexicographic order on byte sequences (a proper prefix comes first).
pub open spec fn bytes_le(a: Seq<u8>, b: Seq<u8>) -> bool
    decreases a.len(),
{
    if a.len() == 0 {
        true
    } else if b.len() == 0 {
        false
    } else if a[0] != b[0] {
        a[0] < b[0]
    } else {
        bytes_le(a.drop_first(), b.drop_first())
    }
}

/// Order on (path bytes, fingerprint) keys: by path, then by fingerprint.
pub open spec fn key_le(x: (Seq<u8>, u128), y: (Seq<u8>, u128)) -> bool {
    if x.0 == y.0 {
        x.1 <= y.1
    } else {
        bytes_le(x.0, y.0)
    }
}

pub open spec fn key_order() -> spec_fn((Seq<u8>, u128), (Seq<u8>, u128)) -> bool {
    |x: (Seq<u8>, u128), y: (Seq<u8>, u128)| key_le(x, y)
}

/// The keys in canonical order.
pub open spec fn canonical(keys: Seq<(Seq<u8>, u128)>) -> Seq<(Seq<u8>, u128)> {
    keys.sort_by(key_order())
}

proof fn lemma_bytes_le_reflexive(a: Seq<u8>)
    ensures
        bytes_le(a, a),
    decreases a.len(),
{
    if a.len() > 0 {
        lemma_bytes_le_reflexive(a.drop_first());
    }
}

proof fn lemma_bytes_le_antisymmetric(a: Seq<u8>, b: Seq<u8>)
    requires
        bytes_le(a, b),
        bytes_le(b, a),
    ensures
        a == b,
    decreases a.len(),
{
    if a.len() > 0 && b.len() > 0 {
        lemma_bytes_le_antisymmetric(a.drop_first(), b.drop_first());
        assert(a =~= seq![a[0]] + a.drop_first());
        assert(b =~= seq![b[0]] + b.drop_first());
    } else {
        assert(a =~= b);
    }
}

proof fn lemma_bytes_le_transitive(a: Seq<u8>, b: Seq<u8>, c: Seq<u8>)
    requires
        bytes_le(a, b),
        bytes_le(b, c),
    ensures
        bytes_le(a, c),
    decreases a.len(),
{
    if a.len() > 0 && b.len() > 0 && c.len() > 0 && a[0] == b[0] && b[0] == c[0] {
        lemma_bytes_le_transitive(a.drop_first(), b.drop_first(), c.drop_first());
    }
}

proof fn lemma_bytes_le_total(a: Seq<u8>, b: Seq<u8>)
    ensures
        bytes_le(a, b) || bytes_le(b, a),
    decreases a.len(),
{
    if a.len() > 0 && b.len() > 0 && a[0] == b[0] {
        lemma_bytes_le_total(a.drop_first(), b.drop_first());
    }
}

/// The key order is a total order, so each set of keys has exactly one
/// arrangement sorted by it.
pub proof fn lemma_key_order_total()
    ensures
        total_ordering(key_order()),
{
    assert forall|x: (Seq<u8>, u128)| #[trigger] key_order()(x, x) by {
        lemma_bytes_le_reflexive(x.0);
    }
    assert forall|x: (Seq<u8>, u128), y: (Seq<u8>, u128)|
        #[trigger] key_order()(x, y) && #[trigger] key_order()(y, x) implies x == y by {
        if x.0 != y.0 {
            lemma_bytes_le_antisymmetric(x.0, y.0);
        }
    }
    assert forall|x: (Seq<u8>, u128), y: (Seq<u8>, u128), z: (Seq<u8>, u128)|
        #[trigger] key_order()(x, y) && #[trigger] key_order()(y, z) implies key_order()(x, z) by {
        if x.0 != y.0 && y.0 != z.0 {
            lemma_bytes_le_transitive(x.0, y.0, z.0);
            if x.0 == z.0 {
                lemma_bytes_le_antisymmetric(x.0, y.0);
            }
        }
    }
    assert forall|x: (Seq<u8>, u128), y: (Seq<u8>, u128)|
        #[trigger] key_order()(x, y) || #[trigger] key_order()(y, x) by {
        lemma_bytes_le_total(x.0, y.0);
    }
}

/// Two arrangements of the same keys have the same canonical order.
pub proof fn lemma_canonical_ignores_arrival_order(a: Seq<(Seq<u8>, u128)>, b: Seq<(Seq<u8>, u128)>)
    requires
        a.to_multiset() == b.to_multiset(),
    ensures
        canonical(a) == canonical(b),
{
    lemma_key_order_total();
    a.lemma_sort_by_ensures(key_order());
    b.lemma_sort_by_ensures(key_order());
    vstd::seq_lib::lemma_sorted_unique(canonical(a), canonical(b), key_order());
}

/// Compares two byte strings lexicographically.
pub fn bytes_less_eq(a: &[u8], b: &[u8]) -> (r: bool)
    ensures
        r == bytes_le(a@, b@),
{
    let mut i: usize = 0;
    assert(a@.skip(0) =~= a@);
    assert(b@.skip(0) =~= b@);
    while i < a.len() && i < b.len() && a[i] == b[i]
        invariant
            i <= a.len(),
            i <= b.len(),
            bytes_le(a@, b@) == bytes_le(a@.skip(i as int), b@.skip(i as int)),
        decreases a.len() - i,
    {
        assert(a@.skip(i as int).drop_first() =~= a@.skip(i + 1));
        assert(b@.skip(i as int).drop_first() =~= b@.skip(i + 1));
        i += 1;
    }
    if i == a.len() {
        true
    } else if i == b.len() {
        false
    } else {
        a[i] < b[i]
    }
}

fn key_less_eq(x: &(Vec<u8>, u128), y: &(Vec<u8>, u128)) -> (r: bool)
    ensures
        r == key_le((x.0@, x.1), (y.0@, y.1)),
{
    let le = bytes_less_eq(x.0.as_slice(), y.0.as_slice());
    let ge = bytes_less_eq(y.0.as_slice(), x.0.as_slice());
    if le && ge {
        proof {
            lemma_bytes_le_antisymmetric(x.0@, y.0@);
        }
        x.1 <= y.1
    } else {
        proof {
            if x.0@ == y.0@ {
                lemma_bytes_le_reflexive(x.0@);
            }
        }
        le
    }
}

pub open spec fn key_view(k: (Vec<u8>, u128)) -> (Seq<u8>, u128) {
    (k.0@, k.1)
}

/// Sorts keys into canonical order (insertion sort).
pub fn sort_keys(keys: Vec<(Vec<u8>, u128)>) -> (r: Vec<(Vec<u8>, u128)>)
    ensures
        r@.map_values(|k: (Vec<u8>, u128)| key_view(k)) == canonical(
            keys@.map_values(|k: (Vec<u8>, u128)| key_view(k)),
        ),
{
    let ghost input = keys@.map_values(|k: (Vec<u8>, u128)| key_view(k));
    proof {
        lemma_key_order_total();
    }
    let mut keys = keys;
    let mut sorted: Vec<(Vec<u8>, u128)> = Vec::new();
    let ghost taken: Seq<(Seq<u8>, u128)> = Seq::empty();
    proof {
        broadcast use vstd::seq_lib::group_to_multiset_ensures;

        assert(keys@.map_values(|k: (Vec<u8>, u128)| key_view(k)) + taken =~= input);
        assert(sorted@.map_values(|k: (Vec<u8>, u128)| key_view(k)) =~= taken);
    }
    while keys.len() > 0
        invariant
            total_ordering(key_order()),
            keys@.map_values(|k: (Vec<u8>, u128)| key_view(k)) + taken == input,
            sorted@.map_values(|k: (Vec<u8>, u128)| key_view(k)).to_multiset() == taken.to_multiset(),
            sorted_by(sorted@.map_values(|k: (Vec<u8>, u128)| key_view(k)), key_order()),
        decreases keys.len(),
    {
        let k = keys.pop().unwrap();
        let ghost before = sorted@.map_values(|k: (Vec<u8>, u128)| key_view(k));
        let mut pos: usize = 0;
        while pos < sorted.len() && key_less_eq(&sorted[pos], &k)
            invariant
                pos <= sorted.len(),
                before == sorted@.map_values(|k: (Vec<u8>, u128)| key_view(k)),
                forall|j: int| 0 <= j < pos ==> key_le(#[trigger] before[j], key_view(k)),
            decreases sorted.len() - pos,
        {
            pos += 1;
        }
        let ghost kv = key_view(k);
        sorted.insert(pos, k);
        proof {
            let after = sorted@.map_values(|k: (Vec<u8>, u128)| key_view(k));
            assert(after =~= before.insert(pos as int, kv));
            vstd::seq_lib::to_multiset_insert(before, pos as int, kv);
            if pos < before.len() {
                assert(before[pos as int] == key_view(sorted@[pos as int + 1]));
                assert(!key_le(before[pos as int], kv));
                assert(key_order()(before[pos as int], kv) || key_order()(kv, before[pos as int]));
                assert(key_order()(kv, before[pos as int]));
            }
            assert forall|a: int, b: int| 0 <= a < b < after.len() implies key_order()(
                #[trigger] after[a],
                #[trigger] after[b],
            ) by {
                if a < pos && b == pos {
                } else if a < pos && b > pos {
                    assert(key_order()(before[a], before[b - 1]));
                } else if a == pos && b > pos {
                    assert(key_order()(before[pos as int], before[b - 1]));
                    if b - 1 == pos {
                    }
                } else if a < pos {
                } else {
                    assert(key_order()(before[a - 1], before[b - 1]));
                }
            }
            let rest = keys@.map_values(|k: (Vec<u8>, u128)| key_view(k));
            assert(rest.push(kv) + taken =~= rest + taken.insert(0, kv));
            vstd::seq_lib::to_multiset_insert(taken, 0, kv);
            taken = taken.insert(0, kv);
        }
    }
    proof {
        let out = sorted@.map_values(|k: (Vec<u8>, u128)| key_view(k));
        assert(keys@.map_values(|k: (Vec<u8>, u128)| key_view(k)) + taken =~= taken);
        assert(taken =~= input);
        input.lemma_sort_by_ensures(key_order());
        vstd::seq_lib::lemma_sorted_unique(out, canonical(input), key_order());
    }
    sorted
}

proof fn lemma_bytes_le_prefix(x: Seq<u8>, a: Seq<u8>, b: Seq<u8>)
    ensures
        bytes_le(x + a, x + b) == bytes_le(a, b),
    decreases x.len(),
{
    if x.len() > 0 {
        assert((x + a).drop_first() =~= x.drop_first() + a);
        assert((x + b).drop_first() =~= x.drop_first() + b);
        lemma_bytes_le_prefix(x.drop_first(), a, b);
    } else {
        assert(x + a =~= a);
        assert(x + b =~= b);
    }
}

/// Puts `x` in front of a key's path bytes.
pub open spec fn prefixed(x: Seq<u8>, k: (Seq<u8>, u128)) -> (Seq<u8>, u128) {
    (x + k.0, k.1)
}

/// A common prefix on every path leaves the canonical order as it was.
pub proof fn lemma_canonical_under_prefix(keys: Seq<(Seq<u8>, u128)>, x: Seq<u8>)
    ensures
        canonical(keys.map_values(|k: (Seq<u8>, u128)| prefixed(x, k))) == canonical(keys).map_values(
            |k: (Seq<u8>, u128)| prefixed(x, k),
        ),
{
    let f = |k: (Seq<u8>, u128)| prefixed(x, k);
    lemma_key_order_total();
    keys.lemma_sort_by_ensures(key_order());
    let s = canonical(keys);
    let ms = s.map_values(f);
    let mk = keys.map_values(f);
    mk.lemma_sort_by_ensures(key_order());
    assert forall|a: int, b: int| 0 <= a < b < ms.len() implies key_order()(
        #[trigger] ms[a],
        #[trigger] ms[b],
    ) by {
        assert(key_order()(s[a], s[b]));
        lemma_bytes_le_prefix(x, s[a].0, s[b].0);
        if x + s[a].0 == x + s[b].0 {
            assert(s[a].0 =~= (x + s[a].0).skip(x.len() as int));
            assert(s[b].0 =~= (x + s[b].0).skip(x.len() as int));
        }
    }
    crate::walk::lemma_map_keeps_multiset(keys, s, f);
    vstd::seq_lib::lemma_sorted_unique(canonical(mk), ms, key_order());
}

} // verus!
