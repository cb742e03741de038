//! The mapping from key to statistics, held as a vector of entries sorted by
//! key. Keys are compared as exact bytes: two keys share an entry only when
//! they are byte for byte the same.

use vstd::prelude::*;
use crate::keys::{compare_keys, key_lt, lemma_key_lt_irreflexive, lemma_key_lt_total, lemma_key_lt_transitive};
use crate::stats::{combine, in_value_range, single, StatModel, StatRecord};

verus! {

/// One key and its statistics.
#[derive(Debug)]
pub struct Entry {
    pub key: Vec<u8>,
    pub stats: StatRecord,
}

/// Every key sorts strictly before every later key.
pub open spec fn keys_sorted(s: Seq<Entry>) -> bool {
    forall|i: int, j: int| 0 <= i < j < s.len() ==> key_lt(#[trigger] s[i].key@, #[trigger] s[j].key@)
}

pub open spec fn has_key(s: Seq<Entry>, k: Seq<u8>) -> bool {
    exists|i: int| 0 <= i < s.len() && #[trigger] s[i].key@ == k
}

pub open spec fn key_index(s: Seq<Entry>, k: Seq<u8>) -> int {
    choose|i: int| 0 <= i < s.len() && #[trigger] s[i].key@ == k
}

/// The mapping that a sequence of entries with distinct keys stands for.
pub open spec fn entries_map(s: Seq<Entry>) -> Map<Seq<u8>, StatModel> {
    Map::new(|k: Seq<u8>| has_key(s, k), |k: Seq<u8>| s[key_index(s, k)].stats@)
}

/// The mapping after one more value `v` of key `k`.
pub open spec fn observe_map(m: Map<Seq<u8>, StatModel>, k: Seq<u8>, v: int) -> Map<Seq<u8>, StatModel> {
    if m.contains_key(k) {
        m.insert(k, combine(m[k], single(v)))
    } else {
        m.insert(k, single(v))
    }
}

/// The mapping after the statistics `s` of key `k` are folded in.
pub open spec fn absorb_map(m: Map<Seq<u8>, StatModel>, k: Seq<u8>, s: StatModel) -> Map<Seq<u8>, StatModel> {
    if m.contains_key(k) {
        m.insert(k, combine(m[k], s))
    } else {
        m.insert(k, s)
    }
}

/// Key by key union of two mappings, combining the statistics of shared keys.
pub open spec fn merge_maps(a: Map<Seq<u8>, StatModel>, b: Map<Seq<u8>, StatModel>) -> Map<Seq<u8>, StatModel> {
    Map::new(
        |k: Seq<u8>| a.contains_key(k) || b.contains_key(k),
        |k: Seq<u8>|
            if a.contains_key(k) && b.contains_key(k) {
                combine(a[k], b[k])
            } else if a.contains_key(k) {
                a[k]
            } else {
                b[k]
            },
    )
}

/// Merging two aggregates does not depend on their order.
pub proof fn lemma_merge_commutative(a: Map<Seq<u8>, StatModel>, b: Map<Seq<u8>, StatModel>)
    ensures
        merge_maps(a, b) == merge_maps(b, a),
{
    assert(merge_maps(a, b) =~= merge_maps(b, a));
}

/// Merging aggregates does not depend on how the merges are grouped.
pub proof fn lemma_merge_associative(a: Map<Seq<u8>, StatModel>, b: Map<Seq<u8>, StatModel>, c: Map<Seq<u8>, StatModel>)
    ensures
        merge_maps(merge_maps(a, b), c) == merge_maps(a, merge_maps(b, c)),
{
    assert(merge_maps(merge_maps(a, b), c) =~= merge_maps(a, merge_maps(b, c)));
}

/// Two local aggregates merged into a shared one give the same result in
/// either order.
pub proof fn lemma_merge_order(shared: Map<Seq<u8>, StatModel>, a: Map<Seq<u8>, StatModel>, b: Map<Seq<u8>, StatModel>)
    ensures
        merge_maps(merge_maps(shared, a), b) == merge_maps(merge_maps(shared, b), a),
{
    lemma_merge_associative(shared, a, b);
    lemma_merge_associative(shared, b, a);
    lemma_merge_commutative(a, b);
}

/// The empty aggregate changes nothing in a merge.
pub proof fn lemma_merge_empty(a: Map<Seq<u8>, StatModel>)
    ensures
        merge_maps(a, Map::<Seq<u8>, StatModel>::empty()) == a,
        merge_maps(Map::<Seq<u8>, StatModel>::empty(), a) == a,
{
    assert(merge_maps(a, Map::<Seq<u8>, StatModel>::empty()) =~= a);
    assert(merge_maps(Map::<Seq<u8>, StatModel>::empty(), a) =~= a);
}

/// Observing a value is merging in the aggregate of that one value.
pub proof fn lemma_observe_is_merge(m: Map<Seq<u8>, StatModel>, k: Seq<u8>, v: int)
    ensures
        observe_map(m, k, v) == merge_maps(m, observe_map(Map::<Seq<u8>, StatModel>::empty(), k, v)),
{
    assert(observe_map(m, k, v) =~= merge_maps(m, observe_map(Map::<Seq<u8>, StatModel>::empty(), k, v)));
}

/// In sorted entries the statistics of a key are those of its one entry.
pub proof fn lemma_entries_map_at(s: Seq<Entry>, i: int)
    requires
        keys_sorted(s),
        0 <= i < s.len(),
    ensures
        entries_map(s).contains_key(s[i].key@),
        entries_map(s)[s[i].key@] == s[i].stats@,
{
    let k = s[i].key@;
    assert(has_key(s, k));
    let j = key_index(s, k);
    if j < i {
        assert(key_lt(s[j].key@, s[i].key@));
        lemma_key_lt_irreflexive(k);
    } else if j > i {
        assert(key_lt(s[i].key@, s[j].key@));
        lemma_key_lt_irreflexive(k);
    }
}

proof fn lemma_entries_map_ext(s: Seq<Entry>, t: Seq<Entry>, m: Map<Seq<u8>, StatModel>)
    requires
        keys_sorted(t),
        forall|k: Seq<u8>| has_key(t, k) <==> m.contains_key(k),
        forall|j: int| 0 <= j < t.len() ==> m[#[trigger] t[j].key@] == t[j].stats@,
    ensures
        entries_map(t) == m,
{
    assert forall|k: Seq<u8>| #[trigger] entries_map(t).contains_key(k) implies entries_map(t)[k] == m[k] by {
        let j = key_index(t, k);
        lemma_entries_map_at(t, j);
    }
    assert(entries_map(t) =~= m);
}

proof fn lemma_entries_map_take(s: Seq<Entry>, i: int)
    requires
        keys_sorted(s),
        0 <= i < s.len(),
    ensures
        !entries_map(s.take(i)).contains_key(s[i].key@),
        entries_map(s.take(i + 1)) == entries_map(s.take(i)).insert(s[i].key@, s[i].stats@),
{
    let p = s.take(i);
    let q = s.take(i + 1);
    let k = s[i].key@;
    if has_key(p, k) {
        let j = choose|j: int| 0 <= j < p.len() && #[trigger] p[j].key@ == k;
        assert(key_lt(s[j].key@, s[i].key@));
        lemma_key_lt_irreflexive(k);
    }
    let m = entries_map(p).insert(k, s[i].stats@);
    assert forall|k2: Seq<u8>| has_key(q, k2) <==> m.contains_key(k2) by {
        if has_key(q, k2) && k2 != k {
            let j = choose|j: int| 0 <= j < q.len() && #[trigger] q[j].key@ == k2;
            assert(p[j].key@ == k2);
        }
        if k2 == k {
            assert(q[i].key@ == k);
        }
        if has_key(p, k2) {
            let j = choose|j: int| 0 <= j < p.len() && #[trigger] p[j].key@ == k2;
            assert(q[j].key@ == k2);
        }
    }
    assert forall|j: int| 0 <= j < q.len() implies m[#[trigger] q[j].key@] == q[j].stats@ by {
        if j < i {
            assert(p[j] == q[j]);
            lemma_entries_map_at(p, j);
            assert(key_lt(s[j].key@, s[i].key@));
            lemma_key_lt_irreflexive(k);
        }
    }
    lemma_entries_map_ext(q, q, m);
}

proof fn lemma_merge_absorb(a: Map<Seq<u8>, StatModel>, b: Map<Seq<u8>, StatModel>, k: Seq<u8>, st: StatModel)
    requires
        !b.contains_key(k),
    ensures
        merge_maps(a, b.insert(k, st)) == absorb_map(merge_maps(a, b), k, st),
{
    assert(merge_maps(a, b.insert(k, st)) =~= absorb_map(merge_maps(a, b), k, st));
}

proof fn lemma_entries_map_drop_last(s: Seq<Entry>)
    requires
        keys_sorted(s),
        s.len() > 0,
    ensures
        keys_sorted(s.drop_last()),
        entries_map(s.drop_last()) == entries_map(s).remove(s.last().key@),
{
    let p = s.drop_last();
    let k = s.last().key@;
    let m = entries_map(s).remove(k);
    assert forall|k2: Seq<u8>| has_key(p, k2) <==> m.contains_key(k2) by {
        if has_key(p, k2) {
            let j = choose|j: int| 0 <= j < p.len() && #[trigger] p[j].key@ == k2;
            assert(s[j].key@ == k2);
            assert(key_lt(s[j].key@, s[s.len() - 1].key@));
            lemma_key_lt_irreflexive(k);
        }
        if m.contains_key(k2) {
            let j = choose|j: int| 0 <= j < s.len() && #[trigger] s[j].key@ == k2;
            assert(j != s.len() - 1);
            assert(p[j].key@ == k2);
        }
    }
    assert forall|j: int| 0 <= j < p.len() implies m[#[trigger] p[j].key@] == p[j].stats@ by {
        assert(p[j] == s[j]);
        lemma_entries_map_at(s, j);
        assert(key_lt(s[j].key@, s[s.len() - 1].key@));
        lemma_key_lt_irreflexive(k);
    }
    lemma_entries_map_ext(p, p, m);
}

/// Two sorted entry sequences that stand for the same aggregate hold the same
/// keys and statistics, position by position.
pub proof fn lemma_sorted_entries_unique(s: Seq<Entry>, t: Seq<Entry>)
    requires
        keys_sorted(s),
        keys_sorted(t),
        entries_map(s) == entries_map(t),
    ensures
        s.len() == t.len(),
        forall|i: int| 0 <= i < s.len() ==> #[trigger] s[i].key@ == t[i].key@ && s[i].stats@ == t[i].stats@,
    decreases s.len(),
{
    if s.len() == 0 && t.len() > 0 {
        lemma_entries_map_at(t, 0);
    } else if s.len() > 0 && t.len() == 0 {
        lemma_entries_map_at(s, 0);
    } else if s.len() > 0 {
        let ls = s.len() - 1;
        let lt = t.len() - 1;
        let ks = s[ls].key@;
        let kt = t[lt].key@;
        lemma_entries_map_at(s, ls);
        lemma_entries_map_at(t, lt);
        if ks != kt {
            let j = key_index(t, ks);
            let i = key_index(s, kt);
            assert(key_lt(t[j].key@, kt) || j == lt);
            assert(key_lt(s[i].key@, ks) || i == ls);
            lemma_key_lt_total(ks, kt);
        }
        lemma_entries_map_drop_last(s);
        lemma_entries_map_drop_last(t);
        lemma_sorted_entries_unique(s.drop_last(), t.drop_last());
        assert forall|i: int| 0 <= i < s.len() implies #[trigger] s[i].key@ == t[i].key@ && s[i].stats@ == t[i].stats@ by {
            if i < ls {
                assert(s.drop_last()[i] == s[i]);
                assert(t.drop_last()[i] == t[i]);
            }
        }
    }
}

/// An owned copy of a key.
pub fn copy_key(key: &[u8]) -> (r: Vec<u8>)
    ensures
        r@ == key@,
{
    let mut r: Vec<u8> = Vec::with_capacity(key.len());
    let mut i: usize = 0;
    while i < key.len()
        invariant
            i <= key.len(),
            r@ == key@.subrange(0, i as int),
        decreases key.len() - i,
    {
        r.push(key[i]);
        i += 1;
        assert(r@ =~= key@.subrange(0, i as int));
    }
    assert(r@ =~= key@);
    r
}

/// Per-key statistics of all records observed so far.
#[derive(Debug)]
pub struct Aggregate {
    pub entries: Vec<Entry>,
    pub observed: u64,
}

impl View for Aggregate {
    type V = Map<Seq<u8>, StatModel>;

    open spec fn view(&self) -> Map<Seq<u8>, StatModel> {
        entries_map(self.entries@)
    }
}

impl Aggregate {
    /// Entries sorted by key, each well-formed, none counting more records
    /// than have been observed in all.
    pub open spec fn wf(&self) -> bool {
        &&& keys_sorted(self.entries@)
        &&& forall|i: int| 0 <= i < self.entries@.len() ==> (#[trigger] self.entries@[i]).stats.wf()
        &&& forall|i: int| 0 <= i < self.entries@.len() ==> (#[trigger] self.entries@[i]).stats.count <= self.observed
    }

    /// An aggregate with no key.
    pub fn new() -> (r: Aggregate)
        ensures
            r.wf(),
            r@ == Map::<Seq<u8>, StatModel>::empty(),
            r.observed == 0,
    {
        let r = Aggregate { entries: Vec::new(), observed: 0 };
        assert(r@ =~= Map::<Seq<u8>, StatModel>::empty());
        r
    }

    /// Number of records observed, directly or through merges.
    pub fn observed(&self) -> (r: u64)
        ensures
            r == self.observed,
    {
        self.observed
    }

    /// Where `key` stands: `Ok(i)` when entry `i` has it, else `Err(i)` with
    /// `i` the position that keeps the keys sorted.
    pub fn find(&self, key: &[u8]) -> (r: Result<usize, usize>)
        requires
            self.wf(),
        ensures
            match r {
                Ok(i) => i < self.entries@.len() && self.entries@[i as int].key@ == key@,
                Err(i) => {
                    &&& i <= self.entries@.len()
                    &&& forall|j: int| 0 <= j < i ==> key_lt(#[trigger] self.entries@[j].key@, key@)
                    &&& forall|j: int| i <= j < self.entries@.len() ==> key_lt(key@, #[trigger] self.entries@[j].key@)
                },
            },
    {
        let mut lo: usize = 0;
        let mut hi: usize = self.entries.len();
        while lo < hi
            invariant
                self.wf(),
                lo <= hi <= self.entries@.len(),
                forall|j: int| 0 <= j < lo ==> key_lt(#[trigger] self.entries@[j].key@, key@),
                forall|j: int| hi <= j < self.entries@.len() ==> key_lt(key@, #[trigger] self.entries@[j].key@),
            decreases hi - lo,
        {
            let mid = lo + (hi - lo) / 2;
            let c = compare_keys(self.entries[mid].key.as_slice(), key);
            if c == 0 {
                return Ok(mid);
            } else if c < 0 {
                assert forall|j: int| 0 <= j < mid + 1 implies key_lt(#[trigger] self.entries@[j].key@, key@) by {
                    if j < mid {
                        lemma_key_lt_transitive(self.entries@[j].key@, self.entries@[mid as int].key@, key@);
                    }
                }
                lo = mid + 1;
            } else {
                assert forall|j: int| mid <= j < self.entries@.len() implies key_lt(key@, #[trigger] self.entries@[j].key@) by {
                    if j > mid {
                        lemma_key_lt_transitive(key@, self.entries@[mid as int].key@, self.entries@[j].key@);
                    }
                }
                hi = mid;
            }
        }
        Err(lo)
    }

    /// Folds the statistics `st` of `key` into the entry of `key`, making one
    /// when there is none.
    fn absorb(&mut self, key: &[u8], st: StatRecord)
        requires
            old(self).wf(),
            st.wf(),
            st.count <= old(self).observed,
            old(self)@.contains_key(key@) ==> old(self)@[key@].count + st.count <= old(self).observed,
        ensures
            final(self).wf(),
            final(self)@ == absorb_map(old(self)@, key@, st@),
            final(self).observed == old(self).observed,
    {
        let ghost s = self.entries@;
        let ghost m = self@;
        let ghost k = key@;
        let found = self.find(key);
        match found {
            Ok(i) => {
                proof {
                    lemma_entries_map_at(s, i as int);
                }
                let mut cur = self.entries[i].stats;
                cur.merge(&st);
                self.entries[i].stats = cur;
                let ghost t = self.entries@;
                proof {
                    let m2 = absorb_map(m, k, st@);
                    assert(t[i as int].key@ == k);
                    assert forall|j: int| 0 <= j < t.len() && j != i implies #[trigger] t[j] == s[j] by {}
                    assert forall|k2: Seq<u8>| has_key(t, k2) <==> m2.contains_key(k2) by {
                        if has_key(t, k2) {
                            let j = choose|j: int| 0 <= j < t.len() && #[trigger] t[j].key@ == k2;
                            if j != i {
                                assert(s[j].key@ == k2);
                                assert(has_key(s, k2));
                            }
                        }
                        if m2.contains_key(k2) && k2 != k {
                            let j = choose|j: int| 0 <= j < s.len() && #[trigger] s[j].key@ == k2;
                            assert(t[j].key@ == k2);
                        }
                    }
                    assert forall|j: int| 0 <= j < t.len() implies m2[#[trigger] t[j].key@] == t[j].stats@ by {
                        if j != i {
                            lemma_entries_map_at(s, j);
                            if j < i {
                                assert(key_lt(s[j].key@, s[i as int].key@));
                            } else {
                                assert(key_lt(s[i as int].key@, s[j].key@));
                            }
                            lemma_key_lt_irreflexive(k);
                        }
                    }
                    lemma_entries_map_ext(s, t, m2);
                }
            },
            Err(i) => {
                let e = Entry { key: copy_key(key), stats: st };
                self.entries.insert(i, e);
                let ghost t = self.entries@;
                proof {
                    let m2 = absorb_map(m, k, st@);
                    assert(!m.contains_key(k)) by {
                        if has_key(s, k) {
                            let j = choose|j: int| 0 <= j < s.len() && #[trigger] s[j].key@ == k;
                            lemma_key_lt_irreflexive(k);
                            if j < i {
                            } else {
                            }
                        }
                    }
                    assert forall|a: int, b: int| 0 <= a < b < t.len() implies key_lt(#[trigger] t[a].key@, #[trigger] t[b].key@) by {
                        if b < i {
                        } else if a > i {
                            assert(t[a] == s[a - 1] && t[b] == s[b - 1]);
                        } else if a == i {
                            assert(t[b] == s[b - 1]);
                        } else if b == i {
                        } else {
                            assert(t[b] == s[b - 1]);
                            lemma_key_lt_transitive(t[a].key@, k, t[b].key@);
                        }
                    }
                    assert forall|k2: Seq<u8>| has_key(t, k2) <==> m2.contains_key(k2) by {
                        if has_key(t, k2) && k2 != k {
                            let j = choose|j: int| 0 <= j < t.len() && #[trigger] t[j].key@ == k2;
                            if j < i {
                                assert(s[j].key@ == k2);
                            } else {
                                assert(s[j - 1].key@ == k2);
                            }
                            assert(has_key(s, k2));
                        }
                        if k2 == k {
                            assert(t[i as int].key@ == k);
                        }
                        if m2.contains_key(k2) && k2 != k {
                            let j = choose|j: int| 0 <= j < s.len() && #[trigger] s[j].key@ == k2;
                            if j < i {
                                assert(t[j].key@ == k2);
                            } else {
                                assert(t[j + 1].key@ == k2);
                            }
                        }
                    }
                    assert forall|j: int| 0 <= j < t.len() implies m2[#[trigger] t[j].key@] == t[j].stats@ by {
                        if j < i {
                            lemma_entries_map_at(s, j);
                            lemma_key_lt_irreflexive(k);
                        } else if j > i {
                            assert(t[j] == s[j - 1]);
                            lemma_entries_map_at(s, j - 1);
                            lemma_key_lt_irreflexive(k);
                        }
                    }
                    lemma_entries_map_ext(s, t, m2);
                }
            },
        }
    }

    /// Records one more value of `key`.
    pub fn observe(&mut self, key: &[u8], value: i32)
        requires
            old(self).wf(),
            in_value_range(value as int),
            old(self).observed < u64::MAX,
        ensures
            final(self).wf(),
            final(self)@ == observe_map(old(self)@, key@, value as int),
            final(self).observed == old(self).observed + 1,
    {
        self.observed = self.observed + 1;
        proof {
            if self@.contains_key(key@) {
                let j = key_index(self.entries@, key@);
                lemma_entries_map_at(self.entries@, j);
            }
        }
        self.absorb(key, StatRecord::new(value));
    }

    /// Folds every entry of `other`, a finished aggregate of another worker,
    /// into this one.
    pub fn merge_from(&mut self, other: Aggregate)
        requires
            old(self).wf(),
            other.wf(),
            old(self).observed + other.observed <= u64::MAX,
        ensures
            final(self).wf(),
            final(self)@ == merge_maps(old(self)@, other@),
            final(self).observed == old(self).observed + other.observed,
    {
        let ghost a = self@;
        let ghost oa = self.observed;
        let ghost s = self.entries@;
        let ghost o = other.entries@;
        self.observed = self.observed + other.observed;
        proof {
            assert forall|k: Seq<u8>| #[trigger] a.contains_key(k) implies a[k].count <= oa by {
                lemma_entries_map_at(s, key_index(s, k));
            }
            assert(entries_map(o.take(0)) =~= Map::<Seq<u8>, StatModel>::empty());
            assert(merge_maps(a, Map::<Seq<u8>, StatModel>::empty()) =~= a);
        }
        let mut i: usize = 0;
        let n = other.entries.len();
        while i < n
            invariant
                n == o.len(),
                other.entries@ == o,
                other.wf(),
                i <= n,
                self.wf(),
                self.observed == oa + other.observed,
                forall|k: Seq<u8>| #[trigger] a.contains_key(k) ==> a[k].count <= oa,
                self@ == merge_maps(a, entries_map(o.take(i as int))),
            decreases n - i,
        {
            let st = other.entries[i].stats;
            proof {
                lemma_entries_map_take(o, i as int);
                let k = o[i as int].key@;
                if self@.contains_key(k) {
                    assert(a.contains_key(k));
                }
            }
            self.absorb(other.entries[i].key.as_slice(), st);
            proof {
                lemma_merge_absorb(a, entries_map(o.take(i as int)), o[i as int].key@, st@);
            }
            i += 1;
        }
        assert(o.take(n as int) =~= o);
    }
}

} // verus!
