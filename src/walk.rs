//! The tree walk: fingerprints every entry of a snapshot bottom-up and
//! registers every directory's fingerprint.
//!
//! A snapshot lists a tree's entries in post-order: each directory comes
//! after all of its children, which it names by their positions. The walk
//! resolves one entry at a time, in that order. For each it hands out the
//! bytes to digest; the digest that comes back becomes the entry's
//! fingerprint, and a directory's fingerprint is then registered.

use vstd::prelude::*;
use vstd::utf8::encode_utf8;

use crate::digest::directory_input;
use crate::registry::{no_entries, register_step, verdict_of, DuplicateRegistry, Verdict};

verus! {

/// Why an entry could not be resolved.
#[derive(Clone, Copy, Debug, PartialEq, Eq, Structural)]
pub enum ErrorKind {
    /// Its metadata could not be read.
    MetadataError,
    /// Its directory entries could not be listed.
    DirectoryReadError,
    /// Its bytes could not be read.
    FileReadError,
    /// It is neither a file nor a directory.
    UnsupportedItemKind,
    /// Its path cannot be represented as text.
    InvalidPathEncoding,
}

/// What an entry of a snapshot is.
pub enum EntryKind {
    /// A file and its bytes.
    File { content: Vec<u8> },
    /// A directory and the positions of its children in the snapshot.
    Directory { children: Vec<usize> },
    /// A path that could not be resolved.
    Failed { error: ErrorKind },
}

/// One entry of a snapshot.
pub struct Entry {
    pub path: String,
    pub kind: EntryKind,
}

/// The first entry of a snapshot that could not be resolved.
#[derive(Debug)]
pub struct WalkError {
    pub path: String,
    pub kind: ErrorKind,
}

/// A directory whose fingerprint had been registered before, by `canonical`.
#[derive(Debug)]
pub struct DuplicateNotice {
    pub path: String,
    pub canonical: String,
}

pub open spec fn children_of(e: Entry) -> Seq<usize> {
    match e.kind {
        EntryKind::Directory { children } => children@,
        _ => Seq::empty(),
    }
}

pub open spec fn is_directory(e: Entry) -> bool {
    e.kind is Directory
}

pub open spec fn is_failed(e: Entry) -> bool {
    e.kind is Failed
}

/// Every directory's children stand before it.
pub open spec fn well_formed(entries: Seq<Entry>) -> bool {
    forall|i: int, k: int|
        0 <= i < entries.len() && 0 <= k < children_of(entries[i]).len() ==> #[trigger] children_of(
            entries[i],
        )[k] < i
}

/// `i` is the first entry that could not be resolved.
pub open spec fn is_first_failure(entries: Seq<Entry>, i: int) -> bool {
    &&& 0 <= i < entries.len()
    &&& is_failed(entries[i])
    &&& forall|j: int| 0 <= j < i ==> !is_failed(#[trigger] entries[j])
}

pub open spec fn has_failure(entries: Seq<Entry>) -> bool {
    exists|i: int| 0 <= i < entries.len() && is_failed(#[trigger] entries[i])
}

/// The key under which a child is ordered: its path's UTF-8 bytes, and its fingerprint.
pub open spec fn child_keys(entries: Seq<Entry>, children: Seq<usize>, fps: Seq<u128>) -> Seq<
    (Seq<u8>, u128),
> {
    children.map_values(|c: usize| (encode_utf8(entries[c as int].path@), fps[c as int]))
}

/// The bytes digested for entry `i`, given the fingerprints of the entries before it.
pub open spec fn entry_input(entries: Seq<Entry>, i: int, fps: Seq<u128>) -> Seq<u8> {
    match entries[i].kind {
        EntryKind::File { content } => content@,
        EntryKind::Directory { children } => directory_input(child_keys(entries, children@, fps)),
        EntryKind::Failed { .. } => Seq::empty(),
    }
}

/// The fingerprints of the first `n` entries when every digest is taken with `h`.
pub open spec fn fingerprints_with(entries: Seq<Entry>, h: spec_fn(Seq<u8>) -> u128, n: nat) -> Seq<
    u128,
>
    decreases n,
{
    if n == 0 {
        Seq::empty()
    } else {
        let prev = fingerprints_with(entries, h, (n - 1) as nat);
        prev.push(h(entry_input(entries, n - 1, prev)))
    }
}

/// Each fingerprint is the digest, by `h`, of its entry's input.
pub open spec fn digests_agree(entries: Seq<Entry>, h: spec_fn(Seq<u8>) -> u128, fps: Seq<u128>) -> bool {
    forall|k: int| 0 <= k < fps.len() ==> #[trigger] fps[k] == h(entry_input(entries, k, fps.take(k)))
}

/// The registry after the directories among the first `fps.len()` entries
/// have been registered in order.
pub open spec fn registry_after(entries: Seq<Entry>, fps: Seq<u128>) -> Map<u128, Seq<char>>
    decreases fps.len(),
{
    if fps.len() == 0 {
        no_entries()
    } else {
        let prev = registry_after(entries, fps.drop_last());
        let e = entries[fps.len() - 1];
        if is_directory(e) {
            register_step(prev, fps.last(), e.path@)
        } else {
            prev
        }
    }
}

/// The notice, if any, on resolving entry `fps.len() - 1` with the last fingerprint.
pub open spec fn notice_at(entries: Seq<Entry>, fps: Seq<u128>) -> Option<(Seq<char>, Seq<char>)> {
    let e = entries[fps.len() - 1];
    let v = verdict_of(registry_after(entries, fps.drop_last()), fps.last());
    if is_directory(e) && v is Some {
        Some((e.path@, v->0))
    } else {
        None
    }
}

/// The duplicate notices, as (path, canonical path), of the first `fps.len()` entries.
pub open spec fn notices_after(entries: Seq<Entry>, fps: Seq<u128>) -> Seq<(Seq<char>, Seq<char>)>
    decreases fps.len(),
{
    if fps.len() == 0 {
        Seq::empty()
    } else {
        let prev = notices_after(entries, fps.drop_last());
        match notice_at(entries, fps) {
            Some(n) => prev.push(n),
            None => prev,
        }
    }
}

pub open spec fn notice_view(n: DuplicateNotice) -> (Seq<char>, Seq<char>) {
    (n.path@, n.canonical@)
}

/// Whether every directory's children stand before it in the snapshot.
pub fn is_well_formed(entries: &Vec<Entry>) -> (r: bool)
    ensures
        r == well_formed(entries@),
{
    let mut i: usize = 0;
    while i < entries.len()
        invariant
            i <= entries.len(),
            forall|a: int, k: int|
                0 <= a < i && 0 <= k < children_of(entries@[a]).len() ==> #[trigger] children_of(
                    entries@[a],
                )[k] < a,
        decreases entries.len() - i,
    {
        match &entries[i].kind {
            EntryKind::Directory { children } => {
                let mut k: usize = 0;
                while k < children.len()
                    invariant
                        i < entries.len(),
                        children@ == children_of(entries@[i as int]),
                        k <= children.len(),
                        forall|b: int| 0 <= b < k ==> #[trigger] children@[b] < i,
                    decreases children.len() - k,
                {
                    if children[k] >= i {
                        assert(children_of(entries@[i as int])[k as int] >= i);
                        return false;
                    }
                    k += 1;
                }
            },
            _ => {},
        }
        i += 1;
    }
    true
}

/// A walk over a snapshot, part of the way through.
pub struct Walk {
    entries: Vec<Entry>,
    fingerprints: Vec<u128>,
    registry: DuplicateRegistry,
    notices: Vec<DuplicateNotice>,
}

impl Walk {
    /// The snapshot being walked.
    pub closed spec fn entries(&self) -> Seq<Entry> {
        self.entries@
    }

    /// The fingerprints of the entries resolved so far, in snapshot order.
    pub closed spec fn fingerprints(&self) -> Seq<u128> {
        self.fingerprints@
    }

    /// The duplicate notices so far, as (path, canonical path).
    pub closed spec fn notices(&self) -> Seq<(Seq<char>, Seq<char>)> {
        self.notices@.map_values(|n: DuplicateNotice| notice_view(n))
    }

    /// The registry so far.
    pub closed spec fn registered(&self) -> Map<u128, Seq<char>> {
        self.registry@
    }

    pub closed spec fn inv(&self) -> bool {
        &&& well_formed(self.entries@)
        &&& !has_failure(self.entries@)
        &&& self.fingerprints@.len() <= self.entries@.len()
        &&& self.registry@ == registry_after(self.entries@, self.fingerprints@)
        &&& self.notices() == notices_after(self.entries@, self.fingerprints@)
    }

    /// Starts a walk over a snapshot. Fails fast, before anything is
    /// registered, with the first entry that could not be resolved.
    pub fn start(entries: Vec<Entry>) -> (r: Result<Walk, WalkError>)
        requires
            well_formed(entries@),
        ensures
            r is Err <==> has_failure(entries@),
            r matches Ok(w) ==> {
                &&& w.inv()
                &&& w.entries() == entries@
                &&& w.fingerprints() == Seq::<u128>::empty()
                &&& w.notices() == Seq::<(Seq<char>, Seq<char>)>::empty()
            },
            r matches Err(e) ==> exists|i: int|
                {
                    &&& is_first_failure(entries@, i)
                    &&& entries@[i].kind == (EntryKind::Failed { error: e.kind })
                    &&& e.path@ == entries@[i].path@
                },
    {
        let mut i: usize = 0;
        while i < entries.len()
            invariant
                i <= entries.len(),
                forall|j: int| 0 <= j < i ==> !is_failed(#[trigger] entries@[j]),
            decreases entries.len() - i,
        {
            match &entries[i].kind {
                EntryKind::Failed { error } => {
                    let e = WalkError { path: entries[i].path.clone(), kind: *error };
                    assert(is_first_failure(entries@, i as int));
                    return Err(e);
                },
                _ => {},
            }
            i += 1;
        }
        let w = Walk {
            entries,
            fingerprints: Vec::new(),
            registry: DuplicateRegistry::new(),
            notices: Vec::new(),
        };
        assert(w.notices() =~= Seq::<(Seq<char>, Seq<char>)>::empty());
        Ok(w)
    }

    /// The bytes to digest for the next entry: a file's content, or a
    /// directory's child fingerprints folded in canonical order.
    pub fn next_input(&self) -> (r: Vec<u8>)
        requires
            self.inv(),
            self.fingerprints().len() < self.entries().len(),
        ensures
            r@ == entry_input(self.entries(), self.fingerprints().len() as int, self.fingerprints()),
    {
        let i = self.fingerprints.len();
        match &self.entries[i].kind {
            EntryKind::File { content } => vstd::slice::slice_to_vec(content.as_slice()),
            EntryKind::Directory { children } => {
                let mut keys: Vec<(Vec<u8>, u128)> = Vec::new();
                let mut k: usize = 0;
                while k < children.len()
                    invariant
                        self.inv(),
                        i == self.fingerprints@.len(),
                        i < self.entries@.len(),
                        children@ == children_of(self.entries@[i as int]),
                        k <= children.len(),
                        keys@.map_values(|x: (Vec<u8>, u128)| crate::order::key_view(x))
                            == child_keys(self.entries@, children@.take(k as int), self.fingerprints@),
                    decreases children.len() - k,
                {
                    let c = children[k];
                    assert(children_of(self.entries@[i as int])[k as int] < i);
                    let ps = self.entries[c].path.as_str();
                    let bytes = vstd::slice::slice_to_vec(ps.as_bytes());
                    assert(bytes@ == encode_utf8(self.entries@[c as int].path@));
                    let ghost before = keys@.map_values(|x: (Vec<u8>, u128)| crate::order::key_view(x));
                    keys.push((bytes, self.fingerprints[c]));
                    assert(keys@.map_values(|x: (Vec<u8>, u128)| crate::order::key_view(x))
                        =~= before.push((encode_utf8(self.entries@[c as int].path@), self.fingerprints@[c as int])));
                    assert(children@.take(k + 1) =~= children@.take(k as int).push(c));
                    assert(keys@.map_values(|x: (Vec<u8>, u128)| crate::order::key_view(x))
                        =~= child_keys(self.entries@, children@.take(k + 1), self.fingerprints@));
                    k += 1;
                }
                assert(children@.take(k as int) =~= children@);
                crate::digest::children_digest_input(keys)
            },
            EntryKind::Failed { .. } => Vec::new(),
        }
    }

    /// Records the digest of the next entry's input as its fingerprint and,
    /// for a directory, registers it. Returns the notice when the directory
    /// turns out to be a duplicate.
    pub fn record(&mut self, digest: u128) -> (r: Option<DuplicateNotice>)
        requires
            old(self).inv(),
            old(self).fingerprints().len() < old(self).entries().len(),
        ensures
            final(self).inv(),
            final(self).entries() == old(self).entries(),
            final(self).fingerprints() == old(self).fingerprints().push(digest),
            final(self).registered() == registry_after(final(self).entries(), final(self).fingerprints()),
            r matches Some(n) ==> notice_at(final(self).entries(), final(self).fingerprints()) == Some(
                notice_view(n),
            ),
            r is None ==> notice_at(final(self).entries(), final(self).fingerprints()) is None,
    {
        let i = self.fingerprints.len();
        let ghost old_fps = self.fingerprints@;
        self.fingerprints.push(digest);
        let ghost fps = self.fingerprints@;
        assert(fps.drop_last() =~= old_fps);
        if matches!(self.entries[i].kind, EntryKind::Directory { .. }) {
            let path = self.entries[i].path.clone();
            match self.registry.register_if_absent(digest, path) {
                Verdict::Canonical => None,
                Verdict::Duplicate { canonical } => {
                    let kept = DuplicateNotice {
                        path: self.entries[i].path.clone(),
                        canonical: canonical.clone(),
                    };
                    self.notices.push(kept);
                    let n = DuplicateNotice { path: self.entries[i].path.clone(), canonical };
                    proof {
                        assert(self.notices() =~= notices_after(self.entries@, fps));
                    }
                    Some(n)
                },
            }
        } else {
            None
        }
    }

    /// The fingerprints of the entries resolved so far, in snapshot order.
    pub fn fingerprints_so_far(&self) -> (r: &Vec<u128>)
        ensures
            r@ == self.fingerprints(),
    {
        &self.fingerprints
    }

    /// The duplicate notices so far, in the order they arose.
    pub fn duplicates(&self) -> (r: &Vec<DuplicateNotice>)
        ensures
            r@.map_values(|n: DuplicateNotice| notice_view(n)) == self.notices(),
    {
        &self.notices
    }

    /// The canonical path registered for a fingerprint, if any.
    pub fn canonical_path(&self, fingerprint: u128) -> (r: Option<String>)
        ensures
            r is Some <==> self.registered().contains_key(fingerprint),
            r is Some ==> r->0@ == self.registered()[fingerprint],
    {
        self.registry.canonical_path(fingerprint)
    }

    /// Whether every entry has been resolved.
    pub fn is_complete(&self) -> (r: bool)
        requires
            self.inv(),
        ensures
            r == (self.fingerprints().len() == self.entries().len()),
    {
        self.fingerprints.len() == self.entries.len()
    }
}

proof fn lemma_fingerprints_prefix(entries: Seq<Entry>, h: spec_fn(Seq<u8>) -> u128, m: nat, n: nat)
    requires
        m <= n,
    ensures
        fingerprints_with(entries, h, n).len() == n,
        fingerprints_with(entries, h, n).take(m as int) == fingerprints_with(entries, h, m),
    decreases n,
{
    if n > 0 {
        lemma_fingerprints_prefix(entries, h, if m == n { (n - 1) as nat } else { m }, (n - 1) as nat);
    }
    if m < n {
        let prev = fingerprints_with(entries, h, (n - 1) as nat);
        assert(fingerprints_with(entries, h, n).take(m as int) =~= prev.take(m as int));
    } else {
        assert(fingerprints_with(entries, h, n).take(m as int) =~= fingerprints_with(entries, h, n));
    }
}

/// Fingerprints are determined by the snapshot and the digest function
/// alone: whenever every recorded digest is `h` of the input handed out for
/// it, the fingerprints are `fingerprints_with(entries, h, _)`.
pub proof fn lemma_fingerprints_determined(entries: Seq<Entry>, h: spec_fn(Seq<u8>) -> u128, fps: Seq<u128>)
    requires
        digests_agree(entries, h, fps),
    ensures
        fps == fingerprints_with(entries, h, fps.len()),
    decreases fps.len(),
{
    if fps.len() == 0 {
        assert(fps =~= Seq::<u128>::empty());
    } else {
        let p = fps.drop_last();
        assert forall|k: int| 0 <= k < p.len() implies #[trigger] p[k] == h(
            entry_input(entries, k, p.take(k)),
        ) by {
            assert(p.take(k) =~= fps.take(k));
            assert(fps[k] == h(entry_input(entries, k, fps.take(k))));
        }
        lemma_fingerprints_determined(entries, h, p);
        let n = fps.len() - 1;
        assert(fps.take(n) =~= p);
        assert(fps[n] == h(entry_input(entries, n, fps.take(n))));
        assert(fps =~= p.push(fps[n]));
    }
}

pub(crate) proof fn lemma_map_keeps_multiset<A, B>(a: Seq<A>, b: Seq<A>, f: spec_fn(A) -> B)
    requires
        a.to_multiset() == b.to_multiset(),
    ensures
        a.map_values(f).to_multiset() == b.map_values(f).to_multiset(),
    decreases a.len(),
{
    broadcast use vstd::multiset::group_multiset_axioms;

    vstd::seq_lib::to_multiset_len(a);
    vstd::seq_lib::to_multiset_len(b);
    if a.len() == 0 {
        assert(a.map_values(f) =~= b.map_values(f));
    } else {
        let x = a.last();
        let a2 = a.drop_last();
        assert(a2.push(x) =~= a);
        vstd::seq_lib::to_multiset_build(a2, x);
        vstd::seq_lib::to_multiset_contains(b, x);
        let j = choose|j: int| 0 <= j < b.len() && b[j] == x;
        let b2 = b.remove(j);
        vstd::seq_lib::to_multiset_remove(b, j);
        assert(a2.to_multiset() =~= b2.to_multiset());
        lemma_map_keeps_multiset(a2, b2, f);
        assert(a.map_values(f) =~= a2.map_values(f).push(f(x)));
        assert(b.map_values(f) =~= b2.map_values(f).insert(j, f(x)));
        vstd::seq_lib::to_multiset_build(a2.map_values(f), f(x));
        vstd::seq_lib::to_multiset_insert(b2.map_values(f), j, f(x));
    }
}

/// Two snapshots of one tree that differ at most in the order in which
/// each directory's children were listed.
pub open spec fn differ_in_listing_order(e1: Seq<Entry>, e2: Seq<Entry>) -> bool {
    &&& e1.len() == e2.len()
    &&& forall|i: int|
        0 <= i < e1.len() ==> {
            &&& (#[trigger] e1[i]).path@ == e2[i].path@
            &&& is_directory(e1[i]) == is_directory(e2[i])
            &&& !is_directory(e1[i]) ==> e1[i].kind == e2[i].kind
            &&& children_of(e1[i]).to_multiset() == children_of(e2[i]).to_multiset()
        }
}

/// The order in which directory entries are listed, or in which their
/// fingerprints complete, never changes any fingerprint.
pub proof fn lemma_listing_order_irrelevant(
    e1: Seq<Entry>,
    e2: Seq<Entry>,
    h: spec_fn(Seq<u8>) -> u128,
    n: nat,
)
    requires
        well_formed(e1),
        well_formed(e2),
        differ_in_listing_order(e1, e2),
        n <= e1.len(),
    ensures
        fingerprints_with(e1, h, n) == fingerprints_with(e2, h, n),
    decreases n,
{
    if n > 0 {
        lemma_listing_order_irrelevant(e1, e2, h, (n - 1) as nat);
        let prev = fingerprints_with(e1, h, (n - 1) as nat);
        let i = n - 1;
        if is_directory(e1[i]) {
            let c1 = children_of(e1[i]);
            let c2 = children_of(e2[i]);
            let f = |c: usize| (encode_utf8(e1[c as int].path@), prev[c as int]);
            assert(child_keys(e1, c1, prev) =~= c1.map_values(f));
            assert forall|k: int| 0 <= k < c2.len() implies e2[c2[k] as int].path@ == e1[c2[k] as int].path@ by {
                assert(children_of(e2[i])[k] < i);
            }
            assert(child_keys(e2, c2, prev) =~= c2.map_values(f));
            lemma_map_keeps_multiset(c1, c2, f);
            crate::digest::lemma_directory_input_ignores_listing_order(
                child_keys(e1, c1, prev),
                child_keys(e2, c2, prev),
            );
            assert(entry_input(e1, i, prev) == entry_input(e2, i, prev));
        }
    }
}

/// An entry's fingerprint does not depend on its own path: giving entry `k`
/// another path leaves the fingerprints of entries `0..=k` unchanged.
pub proof fn lemma_fingerprint_ignores_own_path(
    entries: Seq<Entry>,
    k: int,
    renamed: Entry,
    h: spec_fn(Seq<u8>) -> u128,
    n: nat,
)
    requires
        well_formed(entries),
        0 <= k < entries.len(),
        renamed.kind == entries[k].kind,
        n <= k + 1,
    ensures
        fingerprints_with(entries.update(k, renamed), h, n) == fingerprints_with(entries, h, n),
    decreases n,
{
    if n > 0 {
        lemma_fingerprint_ignores_own_path(entries, k, renamed, h, (n - 1) as nat);
        let e2 = entries.update(k, renamed);
        let prev = fingerprints_with(entries, h, (n - 1) as nat);
        let i = n - 1;
        if is_directory(entries[i]) {
            let c = children_of(entries[i]);
            assert forall|j: int| 0 <= j < c.len() implies e2[c[j] as int] == entries[c[j] as int] by {
                assert(children_of(entries[i])[j] < i);
            }
            assert(child_keys(e2, c, prev) =~= child_keys(entries, c, prev));
        }
        assert(entry_input(e2, i, prev) == entry_input(entries, i, prev));
    }
}

proof fn lemma_registry_grows(entries: Seq<Entry>, fps: Seq<u128>, m: int, n: int)
    requires
        0 <= m <= n <= fps.len(),
    ensures
        registry_after(entries, fps.take(m)).dom().subset_of(registry_after(entries, fps.take(n)).dom()),
    decreases n - m,
{
    if m < n {
        lemma_registry_grows(entries, fps, m, n - 1);
        assert(fps.take(n).drop_last() =~= fps.take(n - 1));
    }
}

/// Empty directories all have one fingerprint, and of two of them the one
/// resolved later is reported as a duplicate.
pub proof fn lemma_empty_directories_match(
    entries: Seq<Entry>,
    h: spec_fn(Seq<u8>) -> u128,
    i: int,
    j: int,
)
    requires
        well_formed(entries),
        0 <= i < j < entries.len(),
        is_directory(entries[i]),
        is_directory(entries[j]),
        children_of(entries[i]).len() == 0,
        children_of(entries[j]).len() == 0,
    ensures
        fingerprints_with(entries, h, entries.len())[i] == fingerprints_with(entries, h, entries.len())[j],
        notice_at(entries, fingerprints_with(entries, h, entries.len()).take(j + 1)) is Some,
{
    let n = entries.len();
    let fps = fingerprints_with(entries, h, n);
    crate::digest::lemma_empty_directory_input();
    lemma_fingerprints_prefix(entries, h, (i + 1) as nat, n);
    lemma_fingerprints_prefix(entries, h, (j + 1) as nat, n);
    lemma_fingerprints_prefix(entries, h, i as nat, n);
    lemma_fingerprints_prefix(entries, h, j as nat, n);
    let pi = fingerprints_with(entries, h, i as nat);
    let pj = fingerprints_with(entries, h, j as nat);
    assert(child_keys(entries, children_of(entries[i]), pi) =~= Seq::<(Seq<u8>, u128)>::empty());
    assert(child_keys(entries, children_of(entries[j]), pj) =~= Seq::<(Seq<u8>, u128)>::empty());
    assert(fps[i] == fingerprints_with(entries, h, (i + 1) as nat)[i]);
    assert(fps[j] == fingerprints_with(entries, h, (j + 1) as nat)[j]);
    let t = fps.take(j + 1);
    assert(t.take(i + 1).drop_last() =~= fps.take(i));
    assert(registry_after(entries, t.take(i + 1)).contains_key(fps[i]));
    lemma_registry_grows(entries, t, i + 1, j);
    assert(t.drop_last() =~= t.take(j));
    assert(t.take(i + 1) =~= fps.take(i + 1));
}

proof fn lemma_encode_concat(a: Seq<char>, b: Seq<char>)
    ensures
        encode_utf8(a + b) == encode_utf8(a) + encode_utf8(b),
    decreases a.len(),
{
    if a.len() == 0 {
        assert(a + b =~= b);
        assert(encode_utf8(a) + encode_utf8(b) =~= encode_utf8(b));
    } else {
        assert((a + b).drop_first() =~= a.drop_first() + b);
        lemma_encode_concat(a.drop_first(), b);
        assert((a + b)[0] == a[0]);
        assert(encode_utf8(a + b) =~= encode_utf8(a) + encode_utf8(b));
    }
}

/// A subtree has the same fingerprints wherever it stands: when the first
/// `n` entries of two snapshots are alike but for the directory they sit
/// under (`p` in one, `q` in the other), their fingerprints agree.
pub proof fn lemma_fingerprint_ignores_location(
    e1: Seq<Entry>,
    e2: Seq<Entry>,
    p: Seq<char>,
    q: Seq<char>,
    rel: spec_fn(int) -> Seq<char>,
    h: spec_fn(Seq<u8>) -> u128,
    n: nat,
)
    requires
        well_formed(e1),
        well_formed(e2),
        n <= e1.len(),
        n <= e2.len(),
        forall|i: int|
            0 <= i < n ==> {
                &&& (#[trigger] e1[i]).kind == e2[i].kind
                &&& e1[i].path@ == p + rel(i)
                &&& e2[i].path@ == q + rel(i)
            },
    ensures
        fingerprints_with(e1, h, n) == fingerprints_with(e2, h, n),
    decreases n,
{
    if n > 0 {
        lemma_fingerprint_ignores_location(e1, e2, p, q, rel, h, (n - 1) as nat);
        let prev = fingerprints_with(e1, h, (n - 1) as nat);
        let i = n - 1;
        assert(e1[i].kind == e2[i].kind);
        if is_directory(e1[i]) {
            let c = children_of(e1[i]);
            let base = c.map_values(|x: usize| (encode_utf8(rel(x as int)), prev[x as int]));
            let bp = encode_utf8(p);
            let bq = encode_utf8(q);
            assert forall|j: int| 0 <= j < c.len() implies {
                &&& encode_utf8(e1[c[j] as int].path@) == bp + encode_utf8(rel(c[j] as int))
                &&& encode_utf8(e2[c[j] as int].path@) == bq + encode_utf8(rel(c[j] as int))
            } by {
                assert(children_of(e1[i])[j] < i);
                let k = c[j] as int;
                assert(e1[k].path@ == p + rel(k));
                lemma_encode_concat(p, rel(k));
                lemma_encode_concat(q, rel(k));
            }
            assert(child_keys(e1, c, prev) =~= base.map_values(
                |k: (Seq<u8>, u128)| crate::order::prefixed(bp, k),
            ));
            assert(children_of(e2[i]) == c);
            assert(child_keys(e2, c, prev) =~= base.map_values(
                |k: (Seq<u8>, u128)| crate::order::prefixed(bq, k),
            ));
            crate::order::lemma_canonical_under_prefix(base, bp);
            crate::order::lemma_canonical_under_prefix(base, bq);
            let s = crate::order::canonical(base);
            assert(s.map_values(|k: (Seq<u8>, u128)| crate::order::prefixed(bp, k)).map_values(
                |k: (Seq<u8>, u128)| k.1,
            ) =~= s.map_values(|k: (Seq<u8>, u128)| crate::order::prefixed(bq, k)).map_values(
                |k: (Seq<u8>, u128)| k.1,
            ));
        }
        assert(entry_input(e1, i, prev) == entry_input(e2, i, prev));
    }
}

} // verus!
