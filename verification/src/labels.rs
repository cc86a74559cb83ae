//! Label sets and metric identities.
//!
//! A label set is a mapping from label keys to label values, kept as a
//! sequence of pairs in strictly ascending key order. That order makes the
//! sequence a canonical form: two label sets that map the same keys to the
//! same values are the same sequence, in whatever order the pairs were added.

use crate::text::{
    bytes_equal, bytes_less, copy_bytes, is_valid_key, lemma_lex_asymmetric,
    lemma_lex_irreflexive, lemma_lex_total, lemma_lex_transitive, lex_lt, valid_key,
};
use vstd::prelude::*;

verus! {

/// A sequence of label pairs, each a key and its value.
pub type LabelSeq = Seq<(Seq<u8>, Seq<u8>)>;

/// The keys of `s` are in strictly ascending lexicographic order.
pub open spec fn keys_sorted(s: LabelSeq) -> bool {
    forall|i: int, j: int| 0 <= i < j < s.len() ==> lex_lt(#[trigger] s[i].0, #[trigger] s[j].0)
}

/// Every key of `s` is a well-formed label key.
pub open spec fn keys_valid(s: LabelSeq) -> bool {
    forall|i: int| 0 <= i < s.len() ==> valid_key(#[trigger] s[i].0)
}

/// A canonical label sequence: well-formed keys in strictly ascending order.
pub open spec fn canonical_labels(s: LabelSeq) -> bool {
    keys_sorted(s) && keys_valid(s)
}

/// The first index from `i` on whose key does not come before `k`.
pub open spec fn rank_from(s: LabelSeq, k: Seq<u8>, i: int) -> int
    decreases s.len() - i,
{
    if 0 <= i < s.len() && lex_lt(s[i].0, k) {
        rank_from(s, k, i + 1)
    } else {
        i
    }
}

/// The place of key `k` in `s`: the number of leading pairs whose key comes
/// before `k`.
pub open spec fn rank(s: LabelSeq, k: Seq<u8>) -> int {
    rank_from(s, k, 0)
}

/// `s` holds a pair with key `k`.
pub open spec fn has_key(s: LabelSeq, k: Seq<u8>) -> bool {
    exists|i: int| 0 <= i < s.len() && #[trigger] s[i].0 == k
}

/// The value that a sorted `s` gives to key `k`, if it has one.
pub open spec fn label_lookup(s: LabelSeq, k: Seq<u8>) -> Option<Seq<u8>> {
    let i = rank(s, k);
    if i < s.len() && s[i].0 == k {
        Some(s[i].1)
    } else {
        None
    }
}

/// A sorted `s` with key `k` set to `v`: the value of an existing pair is
/// replaced, a new pair goes to its place in the order.
pub open spec fn label_insert(s: LabelSeq, k: Seq<u8>, v: Seq<u8>) -> LabelSeq {
    let i = rank(s, k);
    if i < s.len() && s[i].0 == k {
        s.update(i, (k, v))
    } else {
        s.insert(i, (k, v))
    }
}

/// The mapping that a sequence of pairs stands for; a later pair overrides
/// an earlier one with the same key.
pub open spec fn label_map(s: LabelSeq) -> Map<Seq<u8>, Seq<u8>>
    decreases s.len(),
{
    if s.len() == 0 {
        Map::empty()
    } else {
        label_map(s.drop_last()).insert(s.last().0, s.last().1)
    }
}

/// What `rank_from` returns, given that every pair before `i` has a smaller
/// key: an index from `i` on, with smaller keys before it and none at it.
proof fn lemma_rank_from(s: LabelSeq, k: Seq<u8>, i: int)
    requires
        0 <= i <= s.len(),
        forall|j: int| 0 <= j < i ==> lex_lt(#[trigger] s[j].0, k),
    ensures
        i <= rank_from(s, k, i) <= s.len(),
        forall|j: int| 0 <= j < rank_from(s, k, i) ==> lex_lt(#[trigger] s[j].0, k),
        rank_from(s, k, i) < s.len() ==> !lex_lt(s[rank_from(s, k, i)].0, k),
    decreases s.len() - i,
{
    if i < s.len() && lex_lt(s[i].0, k) {
        lemma_rank_from(s, k, i + 1);
    }
}

/// What the place of a key in a sorted sequence means: every pair before it
/// has a smaller key, every pair from it on has a key that is not smaller.
pub proof fn lemma_rank(s: LabelSeq, k: Seq<u8>)
    requires
        keys_sorted(s),
    ensures
        0 <= rank(s, k) <= s.len(),
        forall|j: int| 0 <= j < rank(s, k) ==> lex_lt(#[trigger] s[j].0, k),
        forall|j: int| rank(s, k) <= j < s.len() ==> !lex_lt(#[trigger] s[j].0, k),
        forall|j: int|
            rank(s, k) <= j < s.len() && s[rank(s, k)].0 != k ==> lex_lt(k, #[trigger] s[j].0),
        has_key(s, k) <==> (rank(s, k) < s.len() && s[rank(s, k)].0 == k),
{
    lemma_rank_from(s, k, 0);
    let r = rank(s, k);
    assert forall|j: int| r <= j < s.len() implies !lex_lt(#[trigger] s[j].0, k) by {
        if j > r {
            if lex_lt(s[j].0, k) {
                assert(lex_lt(s[r].0, s[j].0));
                lemma_lex_transitive(s[r].0, s[j].0, k);
            }
        }
    }
    assert forall|j: int| r <= j < s.len() && s[r].0 != k implies lex_lt(k, #[trigger] s[j].0) by {
        lemma_lex_total(s[r].0, k);
        if j > r {
            assert(lex_lt(s[r].0, s[j].0));
            lemma_lex_transitive(k, s[r].0, s[j].0);
        }
    }
    if has_key(s, k) {
        let i = choose|i: int| 0 <= i < s.len() && #[trigger] s[i].0 == k;
        lemma_lex_irreflexive(k);
        if i < r {
            assert(lex_lt(s[i].0, k));
        }
        if i > r {
            assert(lex_lt(s[r].0, s[i].0));
            assert(!lex_lt(s[r].0, k));
        }
    }
}

/// Setting a key keeps a canonical sequence canonical, given a well-formed
/// key.
pub proof fn lemma_insert_canonical(s: LabelSeq, k: Seq<u8>, v: Seq<u8>)
    requires
        canonical_labels(s),
        valid_key(k),
    ensures
        canonical_labels(label_insert(s, k, v)),
        label_lookup(label_insert(s, k, v), k) == Some(v),
        rank(label_insert(s, k, v), k) == rank(s, k),
{
    lemma_rank(s, k);
    let r = rank(s, k);
    let t = label_insert(s, k, v);
    if r < s.len() && s[r].0 == k {
        assert forall|i: int, j: int| 0 <= i < j < t.len() implies lex_lt(
            #[trigger] t[i].0,
            #[trigger] t[j].0,
        ) by {
            assert(t[i].0 == s[i].0);
            assert(t[j].0 == s[j].0);
        }
        assert forall|i: int| 0 <= i < t.len() implies valid_key(#[trigger] t[i].0) by {
            assert(t[i].0 == s[i].0);
        }
    } else {
        assert forall|i: int, j: int| 0 <= i < j < t.len() implies lex_lt(
            #[trigger] t[i].0,
            #[trigger] t[j].0,
        ) by {
            let a = if i < r {
                i
            } else {
                i - 1
            };
            let b = if j < r {
                j
            } else {
                j - 1
            };
            if i == r {
                assert(t[j] == s[b]);
                assert(lex_lt(k, s[b].0));
            } else if j == r {
                assert(t[i] == s[a]);
            } else {
                assert(t[i] == s[a]);
                assert(t[j] == s[b]);
            }
        }
        assert forall|i: int| 0 <= i < t.len() implies valid_key(#[trigger] t[i].0) by {
            if i < r {
                assert(t[i] == s[i]);
            } else if i > r {
                assert(t[i] == s[i - 1]);
            }
        }
    }
    lemma_rank(t, k);
    assert(t[r].0 == k);
    assert(has_key(t, k));
    lemma_lex_irreflexive(k);
    let rt = rank(t, k);
    if rt < r {
        assert(lex_lt(t[rt].0, t[r].0));
    }
    if rt > r {
        assert(lex_lt(t[r].0, k));
    }
}

/// Setting a key that comes after every key of a sorted sequence appends
/// the pair.
pub proof fn lemma_insert_last(s: LabelSeq, k: Seq<u8>, v: Seq<u8>)
    requires
        keys_sorted(s),
        forall|j: int| 0 <= j < s.len() ==> lex_lt(#[trigger] s[j].0, k),
    ensures
        !has_key(s, k),
        label_insert(s, k, v) == s.push((k, v)),
{
    lemma_rank(s, k);
    let r = rank(s, k);
    if r < s.len() {
        assert(lex_lt(s[r].0, k));
    }
    assert(s.insert(r, (k, v)) =~= s.push((k, v)));
}

/// The mapping of a sorted sequence has exactly the keys of the sequence
/// and gives each key the value that stands beside it.
pub proof fn lemma_label_map(s: LabelSeq)
    requires
        keys_sorted(s),
    ensures
        forall|k: Seq<u8>| #[trigger] label_map(s).contains_key(k) <==> has_key(s, k),
        forall|i: int| 0 <= i < s.len() ==> label_map(s)[#[trigger] s[i].0] == s[i].1,
    decreases s.len(),
{
    if s.len() > 0 {
        let init = s.drop_last();
        let last = s.last();
        lemma_label_map(init);
        assert(label_map(s) == label_map(init).insert(last.0, last.1));
        assert forall|k: Seq<u8>| #[trigger] label_map(s).contains_key(k) <==> has_key(s, k) by {
            let in_init = label_map(init).contains_key(k);
            assert(in_init <==> has_key(init, k));
            assert(label_map(s).contains_key(k) <==> (k == last.0 || in_init));
            if has_key(s, k) {
                let i = choose|i: int| 0 <= i < s.len() && #[trigger] s[i].0 == k;
                if i < init.len() {
                    assert(init[i].0 == k);
                    assert(has_key(init, k));
                } else {
                    assert(k == last.0);
                }
            }
            if has_key(init, k) {
                let i = choose|i: int| 0 <= i < init.len() && #[trigger] init[i].0 == k;
                assert(s[i].0 == k);
                assert(has_key(s, k));
            }
            if k == last.0 {
                assert(s[s.len() - 1].0 == k);
                assert(has_key(s, k));
            }
        }
        assert forall|i: int| 0 <= i < s.len() implies label_map(s)[#[trigger] s[i].0]
            == s[i].1 by {
            if i < init.len() {
                assert(lex_lt(s[i].0, s[s.len() - 1].0));
                lemma_lex_irreflexive(last.0);
                assert(init[i] == s[i]);
            }
        }
    }
}

/// Two sorted sequences that stand for the same mapping are the same
/// sequence: the order in which labels were given leaves no trace.
pub proof fn lemma_canonical_unique(a: LabelSeq, b: LabelSeq)
    requires
        keys_sorted(a),
        keys_sorted(b),
        label_map(a) == label_map(b),
    ensures
        a == b,
    decreases a.len(),
{
    lemma_label_map(a);
    lemma_label_map(b);
    if a.len() == 0 {
        if b.len() > 0 {
            assert(has_key(b, b[0].0));
            assert(label_map(a).contains_key(b[0].0));
        }
        assert(a =~= b);
    } else {
        let la = a.len() - 1;
        let ka = a[la].0;
        assert(has_key(a, ka));
        assert(label_map(b).contains_key(ka));
        let j = choose|j: int| 0 <= j < b.len() && #[trigger] b[j].0 == ka;
        let lb = b.len() - 1;
        let kb = b[lb].0;
        assert(has_key(b, kb));
        assert(label_map(a).contains_key(kb));
        let i = choose|i: int| 0 <= i < a.len() && #[trigger] a[i].0 == kb;
        if ka != kb {
            assert(lex_lt(b[j].0, b[lb].0));
            assert(lex_lt(a[i].0, a[la].0));
            lemma_lex_asymmetric(ka, kb);
        }
        assert(a[la].1 == label_map(a)[ka]);
        assert(b[lb].1 == label_map(b)[kb]);
        let ia = a.drop_last();
        let ib = b.drop_last();
        lemma_label_map(ia);
        lemma_label_map(ib);
        lemma_lex_irreflexive(ka);
        assert(!has_key(ia, ka)) by {
            if has_key(ia, ka) {
                let x = choose|x: int| 0 <= x < ia.len() && #[trigger] ia[x].0 == ka;
                assert(lex_lt(a[x].0, a[la].0));
            }
        }
        assert(!has_key(ib, ka)) by {
            if has_key(ib, ka) {
                let x = choose|x: int| 0 <= x < ib.len() && #[trigger] ib[x].0 == ka;
                assert(lex_lt(b[x].0, b[lb].0));
            }
        }
        assert(label_map(ia) =~= label_map(a).remove(ka));
        assert(label_map(ib) =~= label_map(b).remove(ka));
        lemma_canonical_unique(ia, ib);
        assert(a =~= ia.push(a[la]));
        assert(b =~= ib.push(b[lb]));
    }
}

/// Setting a key in a label sequence sets it in the mapping that the
/// sequence stands for.
pub proof fn lemma_label_map_insert(s: LabelSeq, k: Seq<u8>, v: Seq<u8>)
    requires
        canonical_labels(s),
        valid_key(k),
    ensures
        label_map(label_insert(s, k, v)) == label_map(s).insert(k, v),
{
    let t = label_insert(s, k, v);
    let r = rank(s, k);
    lemma_rank(s, k);
    lemma_insert_canonical(s, k, v);
    lemma_label_map(s);
    lemma_label_map(t);
    let replaced = r < s.len() && s[r].0 == k;
    assert(t[r] == (k, v));
    assert(has_key(t, k));
    assert forall|x: Seq<u8>| has_key(t, x) <==> (has_key(s, x) || x == k) by {
        if has_key(t, x) && x != k {
            let j = choose|j: int| 0 <= j < t.len() && #[trigger] t[j].0 == x;
            let i = if replaced || j < r {
                j
            } else {
                j - 1
            };
            assert(s[i].0 == x);
        }
        if has_key(s, x) && x != k {
            let i = choose|i: int| 0 <= i < s.len() && #[trigger] s[i].0 == x;
            let j = if replaced || i < r {
                i
            } else {
                i + 1
            };
            assert(t[j].0 == x);
        }
    }
    assert forall|x: Seq<u8>| has_key(s, x) && x != k implies label_map(t)[x] == label_map(
        s,
    )[x] by {
        let i = choose|i: int| 0 <= i < s.len() && #[trigger] s[i].0 == x;
        let j = if replaced || i < r {
            i
        } else {
            i + 1
        };
        assert(t[j] == s[i]);
        assert(label_map(t)[t[j].0] == t[j].1);
        assert(label_map(s)[s[i].0] == s[i].1);
    }
    assert(label_map(t)[t[r].0] == t[r].1);
    assert(label_map(t) =~= label_map(s).insert(k, v)) by {
        assert forall|x: Seq<u8>| label_map(t).contains_key(x) <==> label_map(s).insert(
            k,
            v,
        ).contains_key(x) by {}
    }
}

/// Labels may be set in any order: setting two different keys one way
/// round or the other gives the same label sequence.
pub proof fn lemma_insert_order_irrelevant(
    s: LabelSeq,
    k1: Seq<u8>,
    v1: Seq<u8>,
    k2: Seq<u8>,
    v2: Seq<u8>,
)
    requires
        canonical_labels(s),
        valid_key(k1),
        valid_key(k2),
        k1 != k2,
    ensures
        label_insert(label_insert(s, k1, v1), k2, v2) == label_insert(
            label_insert(s, k2, v2),
            k1,
            v1,
        ),
{
    let a1 = label_insert(s, k1, v1);
    let b1 = label_insert(s, k2, v2);
    lemma_insert_canonical(s, k1, v1);
    lemma_insert_canonical(s, k2, v2);
    lemma_insert_canonical(a1, k2, v2);
    lemma_insert_canonical(b1, k1, v1);
    lemma_label_map_insert(s, k1, v1);
    lemma_label_map_insert(s, k2, v2);
    lemma_label_map_insert(a1, k2, v2);
    lemma_label_map_insert(b1, k1, v1);
    assert(label_map(s).insert(k1, v1).insert(k2, v2) =~= label_map(s).insert(k2, v2).insert(
        k1,
        v1,
    ));
    lemma_canonical_unique(label_insert(a1, k2, v2), label_insert(b1, k1, v1));
}

/// One label: a key and its value.
#[derive(Debug)]
pub struct Label {
    pub key: Vec<u8>,
    pub value: Vec<u8>,
}

impl View for Label {
    type V = (Seq<u8>, Seq<u8>);

    open spec fn view(&self) -> (Seq<u8>, Seq<u8>) {
        (self.key@, self.value@)
    }
}

/// A mapping from label keys to label values.
#[derive(Debug)]
pub struct LabelSet {
    entries: Vec<Label>,
}

impl View for LabelSet {
    type V = LabelSeq;

    closed spec fn view(&self) -> LabelSeq {
        self.entries@.map_values(|l: Label| l@)
    }
}

impl LabelSet {
    /// The invariant of a label set: well-formed keys, strictly ascending.
    pub open spec fn wf(&self) -> bool {
        canonical_labels(self@)
    }

    /// The empty label set.
    pub fn new() -> (r: LabelSet)
        ensures
            r@ == LabelSeq::empty(),
            r.wf(),
    {
        let r = LabelSet { entries: Vec::new() };
        assert(r@ =~= LabelSeq::empty());
        r
    }

    /// The number of labels.
    pub fn len(&self) -> (n: usize)
        ensures
            n == self@.len(),
    {
        self.entries.len()
    }

    /// The key of the `i`-th label in ascending key order.
    pub fn key_at(&self, i: usize) -> (k: &Vec<u8>)
        requires
            i < self@.len(),
        ensures
            k@ == self@[i as int].0,
    {
        &self.entries[i].key
    }

    /// The value of the `i`-th label in ascending key order.
    pub fn value_at(&self, i: usize) -> (v: &Vec<u8>)
        requires
            i < self@.len(),
        ensures
            v@ == self@[i as int].1,
    {
        &self.entries[i].value
    }

    /// The place of `key` in the order of this set's keys.
    fn position(&self, key: &[u8]) -> (i: usize)
        ensures
            i == rank(self@, key@),
            i <= self@.len(),
    {
        let mut i: usize = 0;
        while i < self.entries.len() && bytes_less(self.entries[i].key.as_slice(), key)
            invariant
                i <= self.entries.len(),
                rank(self@, key@) == rank_from(self@, key@, i as int),
            decreases self.entries.len() - i,
        {
            i += 1;
        }
        i
    }

    /// The value of `key`, if the set has that key.
    pub fn get(&self, key: &[u8]) -> (r: Option<&Vec<u8>>)
        ensures
            match r {
                Some(v) => label_lookup(self@, key@) == Some(v@),
                None => label_lookup(self@, key@).is_none(),
            },
    {
        let i = self.position(key);
        if i < self.entries.len() && bytes_equal(self.entries[i].key.as_slice(), key) {
            Some(&self.entries[i].value)
        } else {
            None
        }
    }

    /// Whether the set has `key`.
    pub fn contains_key(&self, key: &[u8]) -> (r: bool)
        requires
            self.wf(),
        ensures
            r == has_key(self@, key@),
    {
        proof {
            lemma_rank(self@, key@);
        }
        let i = self.position(key);
        i < self.entries.len() && bytes_equal(self.entries[i].key.as_slice(), key)
    }

    /// Sets `key` to `value`, replacing the value that the key had. A key
    /// that is not well formed is refused and the set stays as it was.
    pub fn insert(&mut self, key: Vec<u8>, value: Vec<u8>) -> (ok: bool)
        requires
            old(self).wf(),
        ensures
            final(self).wf(),
            ok == valid_key(key@),
            ok ==> final(self)@ == label_insert(old(self)@, key@, value@),
            !ok ==> final(self)@ == old(self)@,
    {
        if !is_valid_key(key.as_slice()) {
            return false;
        }
        proof {
            lemma_insert_canonical(self@, key@, value@);
        }
        let i = self.position(key.as_slice());
        if i < self.entries.len() && bytes_equal(self.entries[i].key.as_slice(), key.as_slice()) {
            self.entries.set(i, Label { key, value });
            assert(self@ =~= label_insert(old(self)@, key@, value@));
        } else {
            self.entries.insert(i, Label { key, value });
            assert(self@ =~= label_insert(old(self)@, key@, value@));
        }
        true
    }

    /// Whether two label sets hold the same pairs.
    pub fn equals(&self, other: &LabelSet) -> (r: bool)
        ensures
            r == (self@ == other@),
    {
        if self.entries.len() != other.entries.len() {
            assert(self@.len() != other@.len());
            return false;
        }
        let mut i: usize = 0;
        while i < self.entries.len()
            invariant
                i <= self.entries.len(),
                self.entries.len() == other.entries.len(),
                forall|j: int| 0 <= j < i ==> self@[j] == other@[j],
            decreases self.entries.len() - i,
        {
            if !bytes_equal(self.entries[i].key.as_slice(), other.entries[i].key.as_slice())
                || !bytes_equal(
                self.entries[i].value.as_slice(),
                other.entries[i].value.as_slice(),
            ) {
                assert(self@[i as int] != other@[i as int]);
                return false;
            }
            i += 1;
        }
        assert(self@ =~= other@);
        true
    }

    /// A copy of this label set.
    pub fn copy(&self) -> (r: LabelSet)
        ensures
            r@ == self@,
    {
        let mut entries: Vec<Label> = Vec::new();
        let mut i: usize = 0;
        while i < self.entries.len()
            invariant
                i <= self.entries.len(),
                entries@.len() == i,
                forall|j: int| 0 <= j < i ==> (#[trigger] entries@[j])@ == self.entries@[j]@,
            decreases self.entries.len() - i,
        {
            entries.push(
                Label {
                    key: copy_bytes(self.entries[i].key.as_slice()),
                    value: copy_bytes(self.entries[i].value.as_slice()),
                },
            );
            i += 1;
        }
        let r = LabelSet { entries };
        assert(r@ =~= self@);
        r
    }
}

} // verus!
