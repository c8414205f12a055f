//! Key sets: collections of named public signing keys, keyed by key
//! identifier, with identifier-union merge where a later entry wins.

use vstd::prelude::*;

verus! {

/// A byte that may stand in a key field: printable ASCII other than the
/// double quote and the backslash, so that fields embed verbatim in the
/// cache file.
pub open spec fn plain_byte(b: u8) -> bool {
    0x20 <= b <= 0x7e && b != 0x22 && b != 0x5c
}

pub open spec fn plain_seq(s: Seq<u8>) -> bool {
    forall|i: int| 0 <= i < s.len() ==> plain_byte(#[trigger] s[i])
}

/// Mathematical model of one public key entry.
pub struct KeyView {
    pub kid: Seq<u8>,
    pub alg: Seq<u8>,
    pub material: Seq<u8>,
}

/// One named public key: identifier, algorithm, key material. Immutable
/// once built.
pub struct KeyEntry {
    pub kid: Vec<u8>,
    pub alg: Vec<u8>,
    pub material: Vec<u8>,
}

impl View for KeyEntry {
    type V = KeyView;

    open spec fn view(&self) -> KeyView {
        KeyView { kid: self.kid@, alg: self.alg@, material: self.material@ }
    }
}

pub open spec fn entry_wf(e: KeyView) -> bool {
    plain_seq(e.kid) && plain_seq(e.alg) && plain_seq(e.material)
}

pub open spec fn entries_wf(s: Seq<KeyView>) -> bool {
    forall|i: int| 0 <= i < s.len() ==> entry_wf(#[trigger] s[i])
}

/// No two entries share a key identifier.
pub open spec fn kids_unique(s: Seq<KeyView>) -> bool {
    forall|i: int, j: int| 0 <= i < j < s.len() ==> s[i].kid != s[j].kid
}

/// Some entry carries the identifier `k`.
pub open spec fn has_kid(s: Seq<KeyView>, k: Seq<u8>) -> bool {
    exists|i: int| 0 <= i < s.len() && (#[trigger] s[i]).kid == k
}

/// Index of the first entry carrying `k`, or -1 when none does.
pub open spec fn find_kid(s: Seq<KeyView>, k: Seq<u8>) -> int
    decreases s.len(),
{
    if s.len() == 0 {
        -1
    } else if s[0].kid == k {
        0
    } else {
        let r = find_kid(s.skip(1), k);
        if r < 0 {
            -1
        } else {
            r + 1
        }
    }
}

/// The entry carrying `k` (meaningful only when `has_kid(s, k)`).
pub open spec fn lookup(s: Seq<KeyView>, k: Seq<u8>) -> KeyView {
    s[find_kid(s, k)]
}

/// One merge step: an entry with a known identifier replaces the old one,
/// a new identifier is appended.
pub open spec fn insert_view(s: Seq<KeyView>, e: KeyView) -> Seq<KeyView> {
    let i = find_kid(s, e.kid);
    if i >= 0 {
        s.update(i, e)
    } else {
        s.push(e)
    }
}

/// Identifier-union merge: every entry of `b` is inserted into `a` in
/// order, so on an identifier collision the entry of `b` wins.
pub open spec fn merge_view(a: Seq<KeyView>, b: Seq<KeyView>) -> Seq<KeyView>
    decreases b.len(),
{
    if b.len() == 0 {
        a
    } else {
        merge_view(insert_view(a, b[0]), b.skip(1))
    }
}

pub proof fn lemma_find_kid(s: Seq<KeyView>, k: Seq<u8>)
    ensures
        has_kid(s, k) <==> 0 <= find_kid(s, k) < s.len(),
        !has_kid(s, k) ==> find_kid(s, k) == -1,
        has_kid(s, k) ==> s[find_kid(s, k)].kid == k,
        has_kid(s, k) ==> forall|j: int| 0 <= j < find_kid(s, k) ==> (#[trigger] s[j]).kid != k,
    decreases s.len(),
{
    if s.len() == 0 {
    } else if s[0].kid == k {
    } else {
        lemma_find_kid(s.skip(1), k);
        assert forall|i: int| 0 <= i < s.len() && (#[trigger] s[i]).kid == k implies
            0 <= find_kid(s, k) < s.len() by {
            assert(s.skip(1)[i - 1] == s[i]);
        }
        if has_kid(s.skip(1), k) {
            let i = choose|i: int| 0 <= i < s.skip(1).len() && (#[trigger] s.skip(1)[i]).kid == k;
            assert(s[i + 1] == s.skip(1)[i]);
        }
        if has_kid(s, k) {
            assert forall|j: int| 0 <= j < find_kid(s, k) implies (#[trigger] s[j]).kid != k by {
                if j >= 1 {
                    assert(s[j] == s.skip(1)[j - 1]);
                }
            }
        }
    }
}

/// What one insert does to presence, length and lookup.
pub proof fn lemma_insert_view(s: Seq<KeyView>, e: KeyView)
    ensures
        forall|k: Seq<u8>| has_kid(insert_view(s, e), k) <==> has_kid(s, k) || k == e.kid,
        insert_view(s, e).len() == if has_kid(s, e.kid) { s.len() } else { s.len() + 1 },
        kids_unique(s) ==> kids_unique(insert_view(s, e)),
        entries_wf(s) && entry_wf(e) ==> entries_wf(insert_view(s, e)),
        kids_unique(s) ==> lookup(insert_view(s, e), e.kid) == e,
        kids_unique(s) ==> forall|k: Seq<u8>|
            k != e.kid && has_kid(s, k) ==> lookup(insert_view(s, e), k) == lookup(s, k),
{
    lemma_find_kid(s, e.kid);
    let t = insert_view(s, e);
    let i = find_kid(s, e.kid);
    if i >= 0 {
        assert forall|k: Seq<u8>| has_kid(t, k) implies has_kid(s, k) || k == e.kid by {
            let j = choose|j: int| 0 <= j < t.len() && (#[trigger] t[j]).kid == k;
            if j != i {
                assert(s[j].kid == k);
            }
        }
        assert forall|k: Seq<u8>| has_kid(s, k) || k == e.kid implies has_kid(t, k) by {
            if k == e.kid {
                assert(t[i].kid == k);
            } else {
                let j = choose|j: int| 0 <= j < s.len() && (#[trigger] s[j]).kid == k;
                assert(t[j].kid == k);
            }
        }
    } else {
        assert forall|k: Seq<u8>| has_kid(t, k) implies has_kid(s, k) || k == e.kid by {
            let j = choose|j: int| 0 <= j < t.len() && (#[trigger] t[j]).kid == k;
            if j < s.len() {
                assert(s[j].kid == k);
            }
        }
        assert forall|k: Seq<u8>| has_kid(s, k) || k == e.kid implies has_kid(t, k) by {
            if k == e.kid {
                assert(t[s.len() as int].kid == k);
            } else {
                let j = choose|j: int| 0 <= j < s.len() && (#[trigger] s[j]).kid == k;
                assert(t[j].kid == k);
            }
        }
    }
    if kids_unique(s) {
        lemma_find_kid(t, e.kid);
        if i >= 0 {
            assert(t[i].kid == e.kid);
            assert forall|j: int| 0 <= j < i implies (#[trigger] t[j]).kid != e.kid by {}
            assert(find_kid(t, e.kid) == i) by {
                lemma_find_first(t, e.kid, i);
            }
        } else {
            lemma_find_first(t, e.kid, s.len() as int);
        }
        assert forall|k: Seq<u8>| k != e.kid && has_kid(s, k) implies
            lookup(t, k) == lookup(s, k) by {
            lemma_find_kid(s, k);
            lemma_find_kid(t, k);
            let j = find_kid(s, k);
            assert(t[j].kid == k);
            lemma_find_first(t, k, j);
        }
    }
}

/// Merging one more entry on the right is one more insert.
pub proof fn lemma_merge_push(a: Seq<KeyView>, b: Seq<KeyView>, e: KeyView)
    ensures
        merge_view(a, b.push(e)) == insert_view(merge_view(a, b), e),
    decreases b.len(),
{
    if b.len() == 0 {
        assert(b.push(e).skip(1) =~= Seq::<KeyView>::empty());
        assert(merge_view(a, b.push(e)) == merge_view(insert_view(a, e), b.push(e).skip(1)));
    } else {
        assert(b.push(e)[0] == b[0]);
        assert(b.push(e).skip(1) =~= b.skip(1).push(e));
        lemma_merge_push(insert_view(a, b[0]), b.skip(1), e);
    }
}

/// Merging two key sets with disjoint identifiers adds the sizes.
pub proof fn lemma_merge_disjoint_size(a: Seq<KeyView>, b: Seq<KeyView>)
    requires
        kids_unique(b),
        forall|i: int| 0 <= i < b.len() ==> !has_kid(a, (#[trigger] b[i]).kid),
    ensures
        merge_view(a, b).len() == a.len() + b.len(),
    decreases b.len(),
{
    if b.len() > 0 {
        lemma_insert_view(a, b[0]);
        let a2 = insert_view(a, b[0]);
        assert forall|i: int| 0 <= i < b.skip(1).len() implies
            !has_kid(a2, (#[trigger] b.skip(1)[i]).kid) by {
            assert(b.skip(1)[i] == b[i + 1]);
        }
        assert forall|i: int, j: int| 0 <= i < j < b.skip(1).len() implies
            b.skip(1)[i].kid != b.skip(1)[j].kid by {
            assert(b.skip(1)[i] == b[i + 1]);
            assert(b.skip(1)[j] == b[j + 1]);
        }
        lemma_merge_disjoint_size(a2, b.skip(1));
    }
}

/// Merging a set whose identifiers all occur in the first set keeps the
/// first set's size: every entry replaces, none appends.
pub proof fn lemma_merge_covered_size(a: Seq<KeyView>, b: Seq<KeyView>)
    requires
        forall|i: int| 0 <= i < b.len() ==> has_kid(a, (#[trigger] b[i]).kid),
    ensures
        merge_view(a, b).len() == a.len(),
    decreases b.len(),
{
    if b.len() > 0 {
        lemma_insert_view(a, b[0]);
        let a2 = insert_view(a, b[0]);
        assert forall|i: int| 0 <= i < b.skip(1).len() implies
            has_kid(a2, (#[trigger] b.skip(1)[i]).kid) by {
            assert(b.skip(1)[i] == b[i + 1]);
        }
        lemma_merge_covered_size(a2, b.skip(1));
    }
}

/// Which entry the merged set carries for each identifier: the second
/// set's entry wherever it has one (the later fetch wins), else the
/// first set's.
pub proof fn lemma_merge_semantics(a: Seq<KeyView>, b: Seq<KeyView>)
    requires
        kids_unique(a),
        kids_unique(b),
    ensures
        forall|k: Seq<u8>| has_kid(merge_view(a, b), k) <==> has_kid(a, k) || has_kid(b, k),
        forall|k: Seq<u8>| #[trigger] has_kid(b, k) ==>
            lookup(merge_view(a, b), k) == lookup(b, k),
        forall|k: Seq<u8>| !has_kid(b, k) && #[trigger] has_kid(a, k) ==>
            lookup(merge_view(a, b), k) == lookup(a, k),
    decreases b.len(),
{
    if b.len() > 0 {
        lemma_insert_view(a, b[0]);
        let a2 = insert_view(a, b[0]);
        let b2 = b.skip(1);
        assert forall|i: int, j: int| 0 <= i < j < b2.len() implies b2[i].kid != b2[j].kid by {
            assert(b2[i] == b[i + 1]);
            assert(b2[j] == b[j + 1]);
        }
        lemma_merge_semantics(a2, b2);
        assert forall|k: Seq<u8>| #[trigger] has_kid(b, k) implies
            lookup(merge_view(a, b), k) == lookup(b, k) by {
            lemma_find_kid(b, k);
            let i = find_kid(b, k);
            if i == 0 {
                assert(b[0].kid == k);
                assert forall|j: int| 0 <= j < b2.len() implies (#[trigger] b2[j]).kid != k by {
                    assert(b2[j] == b[j + 1]);
                }
                assert(!has_kid(b2, k));
                assert(has_kid(a2, k));
                assert(lookup(merge_view(a2, b2), k) == lookup(a2, k));
                assert(lookup(a2, k) == b[0]);
            } else {
                assert(b2[i - 1] == b[i]);
                assert(has_kid(b2, k));
                assert(lookup(merge_view(a2, b2), k) == lookup(b2, k));
                lemma_find_kid(b2, k);
                lemma_find_first(b2, k, i - 1);
                assert(lookup(b2, k) == b2[i - 1]);
                lemma_find_first(b, k, i);
            }
        }
        assert forall|k: Seq<u8>| !has_kid(b, k) && #[trigger] has_kid(a, k) implies
            lookup(merge_view(a, b), k) == lookup(a, k) by {
            assert(forall|j: int| 0 <= j < b2.len() ==> (#[trigger] b2[j]) == b[j + 1]);
            assert(!has_kid(b2, k));
            assert(b[0].kid != k);
            assert(lookup(a2, k) == lookup(a, k));
        }
        assert forall|k: Seq<u8>| has_kid(merge_view(a, b), k) implies
            has_kid(a, k) || has_kid(b, k) by {
            if has_kid(b2, k) {
                let j = choose|j: int| 0 <= j < b2.len() && (#[trigger] b2[j]).kid == k;
                assert(b[j + 1] == b2[j]);
            }
        }
        assert forall|k: Seq<u8>| has_kid(a, k) || has_kid(b, k) implies
            has_kid(merge_view(a, b), k) by {
            if has_kid(b, k) {
                lemma_find_kid(b, k);
                let i = find_kid(b, k);
                if i > 0 {
                    assert(b2[i - 1] == b[i]);
                    assert(has_kid(b2, k));
                }
            }
        }
    }
}

/// `find_kid` returns the first index whose entry carries `k`.
pub proof fn lemma_find_first(s: Seq<KeyView>, k: Seq<u8>, i: int)
    requires
        0 <= i < s.len(),
        s[i].kid == k,
        forall|j: int| 0 <= j < i ==> (#[trigger] s[j]).kid != k,
    ensures
        find_kid(s, k) == i,
    decreases s.len(),
{
    lemma_find_kid(s, k);
    if s[0].kid == k {
        assert(i == 0);
    } else {
        assert forall|j: int| 0 <= j < i - 1 implies (#[trigger] s.skip(1)[j]).kid != k by {
            assert(s.skip(1)[j] == s[j + 1]);
        }
        assert(s.skip(1)[i - 1] == s[i]);
        lemma_find_first(s.skip(1), k, i - 1);
    }
}

/// An identical copy of a byte string.
pub fn clone_bytes(v: &Vec<u8>) -> (r: Vec<u8>)
    ensures
        r@ == v@,
{
    let r = v.clone();
    proof {
        assert(r@ =~= v@);
    }
    r
}

/// Byte-string equality.
pub fn bytes_eq(a: &Vec<u8>, b: &Vec<u8>) -> (r: bool)
    ensures
        r == (a@ == b@),
{
    let r = a == b;
    proof {
        if r {
            assert(a@ =~= b@);
        }
    }
    r
}

impl KeyEntry {
    /// An identical copy of this entry.
    pub fn duplicate(&self) -> (r: KeyEntry)
        ensures
            r@ == self@,
    {
        KeyEntry {
            kid: clone_bytes(&self.kid),
            alg: clone_bytes(&self.alg),
            material: clone_bytes(&self.material),
        }
    }
}

pub open spec fn keyset_wf(s: Seq<KeyView>) -> bool {
    kids_unique(s) && entries_wf(s)
}

/// An insertion-order-irrelevant collection of key entries, keyed by key
/// identifier; identifiers are unique within a set.
pub struct KeySet {
    entries: Vec<KeyEntry>,
}

impl View for KeySet {
    type V = Seq<KeyView>;

    closed spec fn view(&self) -> Seq<KeyView> {
        self.entries@.map_values(|e: KeyEntry| e@)
    }
}

impl KeySet {
    pub open spec fn wf(&self) -> bool {
        keyset_wf(self@)
    }

    /// The empty key set.
    pub fn new() -> (r: KeySet)
        ensures
            r.wf(),
            r@ == Seq::<KeyView>::empty(),
    {
        let r = KeySet { entries: Vec::new() };
        proof {
            assert(r@ =~= Seq::<KeyView>::empty());
        }
        r
    }

    pub fn len(&self) -> (r: usize)
        ensures
            r == self@.len(),
    {
        self.entries.len()
    }

    /// The entry at position `i`, for walking the set.
    pub fn entry_at(&self, i: usize) -> (r: &KeyEntry)
        requires
            i < self@.len(),
        ensures
            r@ == self@[i as int],
    {
        &self.entries[i]
    }

    /// Position of the entry carrying `kid`, if the set has one.
    pub fn find(&self, kid: &Vec<u8>) -> (r: Option<usize>)
        ensures
            match r {
                Some(i) => i == find_kid(self@, kid@) && i < self@.len()
                    && self@[i as int].kid == kid@,
                None => !has_kid(self@, kid@),
            },
    {
        let n = self.entries.len();
        let mut j: usize = 0;
        while j < n
            invariant
                j <= n,
                n == self@.len(),
                forall|t: int| 0 <= t < j ==> (#[trigger] self@[t]).kid != kid@,
            decreases n - j,
        {
            if bytes_eq(&self.entries[j].kid, kid) {
                proof {
                    lemma_find_first(self@, kid@, j as int);
                }
                return Some(j);
            }
            j += 1;
        }
        proof {
            lemma_find_kid(self@, kid@);
        }
        None
    }

    /// Whether the set carries an entry for `kid`.
    pub fn contains_kid(&self, kid: &Vec<u8>) -> (r: bool)
        ensures
            r == has_kid(self@, kid@),
    {
        proof {
            lemma_find_kid(self@, kid@);
        }
        match self.find(kid) {
            Some(_) => true,
            None => false,
        }
    }

    /// Puts one entry into the set: it replaces the entry with the same
    /// identifier, or is appended under a new one.
    pub fn insert(&mut self, e: KeyEntry)
        requires
            old(self).wf(),
            entry_wf(e@),
        ensures
            final(self).wf(),
            final(self)@ == insert_view(old(self)@, e@),
    {
        proof {
            lemma_insert_view(old(self)@, e@);
            lemma_find_kid(old(self)@, e@.kid);
        }
        let found = self.find(&e.kid);
        match found {
            Some(i) => {
                proof {
                    vstd::seq_lib::lemma_update_is_remove_insert(self.entries@, i as int, e);
                }
                self.entries.remove(i);
                self.entries.insert(i, e);
                assert(self.entries@ == old(self).entries@.update(i as int, e));
            },
            None => {
                self.entries.push(e);
            },
        }
        proof {
            let iv = insert_view(old(self)@, e@);
            assert(self@.len() == iv.len());
            assert forall|t: int| 0 <= t < self@.len() implies self@[t] == iv[t] by {
                assert(self@[t] == self.entries@[t]@);
                if t < old(self)@.len() {
                    assert(old(self)@[t] == old(self).entries@[t]@);
                }
            }
            assert(self@ =~~= iv);
        }
    }

    /// An identical copy of this set.
    pub fn duplicate(&self) -> (r: KeySet)
        ensures
            r@ == self@,
    {
        let n = self.entries.len();
        let mut out: Vec<KeyEntry> = Vec::new();
        let mut j: usize = 0;
        while j < n
            invariant
                j <= n,
                n == self.entries@.len(),
                out@.len() == j,
                forall|t: int| 0 <= t < j ==> (#[trigger] out@[t])@ == self.entries@[t]@,
            decreases n - j,
        {
            out.push(self.entries[j].duplicate());
            j += 1;
        }
        let r = KeySet { entries: out };
        proof {
            assert(r@ =~~= self@);
        }
        r
    }

    /// Identifier-union merge: entries of `other` are folded in, so on an
    /// identifier collision the entry of `other` wins.
    pub fn merge(&self, other: &KeySet) -> (r: KeySet)
        requires
            self.wf(),
            other.wf(),
        ensures
            r.wf(),
            r@ == merge_view(self@, other@),
    {
        let mut r = self.duplicate();
        let n = other.entries.len();
        let mut j: usize = 0;
        while j < n
            invariant
                j <= n,
                n == other@.len(),
                other.wf(),
                r.wf(),
                r@ == merge_view(self@, other@.take(j as int)),
            decreases n - j,
        {
            proof {
                lemma_merge_push(self@, other@.take(j as int), other@[j as int]);
                assert(other@.take(j as int).push(other@[j as int]) =~= other@.take(j as int + 1));
                assert(entry_wf(other@[j as int]));
            }
            r.insert(other.entry_at(j).duplicate());
            j += 1;
        }
        proof {
            assert(other@.take(n as int) =~= other@);
        }
        r
    }
}

} // verus!
