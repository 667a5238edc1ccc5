//! The merge reducer: folds partition accumulators into one globally
//! ordered accumulator, combining statistics for keys that appear in more
//! than one partition.
//!
//! The global accumulator keeps its entries sorted ascending by key in
//! byte-lexicographic order, with no duplicate keys.

use vstd::prelude::*;

use crate::accumulate::{
    comb_maps, entries_distinct, entries_map, entries_wf, lemma_entries_map_dom,
    lemma_entries_map_index, PartitionAcc,
};
use crate::bytes::{bytes_eq, key_lt, lemma_lex_transitive, lemma_lex_trichotomy, lex_lt};
use crate::measurement::{comb_rec, combine_measurement, Measurement, StatRec};

verus! {

/// Whether entry keys are strictly ascending in byte-lexicographic order.
pub open spec fn sorted_entries(es: Seq<(Vec<u8>, Measurement)>) -> bool {
    forall|i: int, j: int| 0 <= i < j < es.len() ==> lex_lt(
        (#[trigger] es[i]).0@,
        (#[trigger] es[j]).0@,
    )
}

/// Strictly ascending keys are distinct keys.
pub proof fn lemma_sorted_distinct(es: Seq<(Vec<u8>, Measurement)>)
    requires
        sorted_entries(es),
    ensures
        entries_distinct(es),
{
    assert forall|i: int, j: int| 0 <= i < j < es.len() implies (#[trigger] es[i]).0@
        != (#[trigger] es[j]).0@ by {
        lemma_lex_trichotomy(es[i].0@, es[j].0@);
    }
}

/// Replacing the measurement of entry `i`, key kept, updates exactly that
/// key in the mapping.
proof fn lemma_replace_entry(
    es: Seq<(Vec<u8>, Measurement)>,
    fs: Seq<(Vec<u8>, Measurement)>,
    i: int,
)
    requires
        entries_distinct(es),
        0 <= i < es.len(),
        fs.len() == es.len(),
        fs[i].0 == es[i].0,
        forall|j: int| 0 <= j < es.len() && j != i ==> fs[j] == es[j],
    ensures
        entries_map(fs) == entries_map(es).insert(es[i].0@, fs[i].1.model()),
    decreases es.len(),
{
    lemma_entries_map_index(es, i);
    if i == es.len() - 1 {
        assert(fs.drop_last() =~= es.drop_last());
        assert(entries_map(fs) =~= entries_map(es).insert(es[i].0@, fs[i].1.model()));
    } else {
        assert(entries_distinct(es.drop_last()));
        assert(forall|j: int| 0 <= j < es.drop_last().len() && j != i ==> es.drop_last()[j]
            == fs.drop_last()[j]);
        assert(es.drop_last()[i] == es[i] && fs.drop_last()[i] == fs[i]);
        lemma_replace_entry(es.drop_last(), fs.drop_last(), i);
        assert(fs.last() == es.last());
        assert(es.last().0@ != es[i].0@);
        assert(entries_map(fs) =~= entries_map(es).insert(es[i].0@, fs[i].1.model()));
    }
}

/// Inserting an entry with a fresh key anywhere in the sequence adds exactly
/// that key to the mapping.
proof fn lemma_entries_map_insert_mid(
    es: Seq<(Vec<u8>, Measurement)>,
    p: int,
    e: (Vec<u8>, Measurement),
)
    requires
        0 <= p <= es.len(),
        forall|j: int| 0 <= j < es.len() ==> (#[trigger] es[j]).0@ != e.0@,
    ensures
        entries_map(es.insert(p, e)) == entries_map(es).insert(e.0@, e.1.model()),
    decreases es.len() - p,
{
    let s = es.insert(p, e);
    if p == es.len() {
        assert(s.drop_last() =~= es);
        assert(s.last() == e);
    } else {
        assert(s.last() == es.last());
        assert(s.drop_last() =~= es.drop_last().insert(p, e));
        assert(forall|j: int| 0 <= j < es.drop_last().len() ==> es.drop_last()[j] == es[j]);
        lemma_entries_map_insert_mid(es.drop_last(), p, e);
        assert(entries_map(s) =~= entries_map(es).insert(e.0@, e.1.model()));
    }
}

/// Merging in a mapping extended by a fresh key is one merge then one
/// combine-or-seed of that key.
proof fn lemma_comb_maps_insert(
    a: Map<Seq<u8>, StatRec>,
    b: Map<Seq<u8>, StatRec>,
    k: Seq<u8>,
    r: StatRec,
)
    requires
        !b.dom().contains(k),
    ensures
        a.dom().contains(k) ==> comb_maps(a, b.insert(k, r)) == comb_maps(a, b).insert(
            k,
            comb_rec(a[k], r),
        ),
        !a.dom().contains(k) ==> comb_maps(a, b.insert(k, r)) == comb_maps(a, b).insert(k, r),
{
    if a.dom().contains(k) {
        assert(comb_maps(a, b.insert(k, r)) =~= comb_maps(a, b).insert(k, comb_rec(a[k], r)));
    } else {
        assert(comb_maps(a, b.insert(k, r)) =~= comb_maps(a, b).insert(k, r));
    }
}

/// The global accumulator: one entry per key seen in any partition, sorted
/// ascending by key with no duplicate keys.
pub struct GlobalAcc {
    /// The entries; `wf` keeps their keys strictly ascending and their
    /// statistics well-formed.
    pub entries: Vec<(Vec<u8>, Measurement)>,
}

impl GlobalAcc {
    /// The mapping this accumulator holds.
    pub open spec fn view(&self) -> Map<Seq<u8>, StatRec> {
        entries_map(self.entries@)
    }

    /// Well-formed: keys strictly ascending, statistics well-formed.
    pub open spec fn wf(&self) -> bool {
        sorted_entries(self.entries@) && entries_wf(self.entries@)
    }

    /// An empty accumulator.
    pub fn new() -> (r: GlobalAcc)
        ensures
            r.wf(),
            r@ == Map::<Seq<u8>, StatRec>::empty(),
    {
        GlobalAcc { entries: Vec::new() }
    }

    /// Merges one partition accumulator in after checking that no key's
    /// total count would overflow. Returns true and merges exactly when
    /// every key's counts fit; returns false and leaves the accumulator
    /// unchanged otherwise.
    pub fn try_merge_into(&mut self, part: &PartitionAcc) -> (r: bool)
        requires
            old(self).wf(),
            part.wf(),
        ensures
            final(self).wf(),
            r <==> (forall|k: Seq<u8>|
                #[trigger] old(self)@.dom().contains(k) && part@.dom().contains(k) ==> old(
                    self,
                )@[k].count + part@[k].count <= u64::MAX),
            r ==> final(self)@ == comb_maps(old(self)@, part@),
            !r ==> *final(self) == *old(self),
    {
        let pn = part.entries.len();
        let n = self.entries.len();
        let mut t: usize = 0;
        while t < pn
            invariant
                0 <= t <= pn,
                pn == part.entries@.len(),
                n == self.entries@.len(),
                *self == *old(self),
                self.wf(),
                part.wf(),
                forall|j: int|
                    0 <= j < t ==> (self@.dom().contains((#[trigger] part.entries@[j]).0@)
                        ==> self@[part.entries@[j].0@].count + part.entries@[j].1.count
                        <= u64::MAX),
            decreases pn - t,
        {
            let e = &part.entries[t];
            let key: &[u8] = e.0.as_slice();
            let ghost k = key@;
            let mut i: usize = 0;
            while i < n
                invariant
                    0 <= i <= n,
                    n == self.entries@.len(),
                    *self == *old(self),
                    self.wf(),
                    part.wf(),
                    pn == part.entries@.len(),
                    t < pn,
                    k == part.entries@[t as int].0@,
                    k == key@,
                    part.entries@[t as int].1 == e.1,
                    forall|j: int| 0 <= j < i ==> (#[trigger] self.entries@[j]).0@ != k,
                ensures
                    0 <= i <= n,
                    n == self.entries@.len(),
                    *self == *old(self),
                    i < n ==> self.entries@[i as int].0@ == k && self.entries@[i as int].1.count
                        + part.entries@[t as int].1.count <= u64::MAX,
                    i == n ==> forall|j: int| 0 <= j < n ==> (#[trigger] self.entries@[j]).0@ != k,
                decreases n - i,
            {
                if bytes_eq(self.entries[i].0.as_slice(), key) {
                    if self.entries[i].1.count > u64::MAX - e.1.count {
                        proof {
                            lemma_sorted_distinct(self.entries@);
                            lemma_entries_map_index(self.entries@, i as int);
                            lemma_entries_map_index(part.entries@, t as int);
                            assert(self@.dom().contains(k) && part@.dom().contains(k));
                            assert(self@[k].count + part@[k].count > u64::MAX);
                        }
                        return false;
                    }
                    break ;
                }
                i = i + 1;
            }
            proof {
                lemma_sorted_distinct(self.entries@);
                lemma_entries_map_index(part.entries@, t as int);
                if i < n {
                    lemma_entries_map_index(self.entries@, i as int);
                } else if self@.dom().contains(k) {
                    lemma_entries_map_dom(self.entries@, k);
                    let w = choose|w: int| 0 <= w < self.entries@.len() && (
                    #[trigger] self.entries@[w]).0@ == k;
                    assert(false);
                }
            }
            t = t + 1;
        }
        proof {
            assert forall|k: Seq<u8>|
                #[trigger] self@.dom().contains(k) && part@.dom().contains(k) implies self@[k].count
                + part@[k].count <= u64::MAX by {
                lemma_entries_map_dom(part.entries@, k);
                let j = choose|j: int| 0 <= j < part.entries@.len() && (
                #[trigger] part.entries@[j]).0@ == k;
                lemma_entries_map_index(part.entries@, j);
            }
        }
        self.merge_into(part);
        true
    }

    /// Merges one partition accumulator in: every key of either side appears
    /// afterwards, statistics combined where a key stood in both. Order of
    /// arrival of partitions does not matter, as merging mappings is
    /// commutative and associative.
    pub fn merge_into(&mut self, part: &PartitionAcc)
        requires
            old(self).wf(),
            part.wf(),
            forall|k: Seq<u8>|
                #[trigger] old(self)@.dom().contains(k) && part@.dom().contains(k) ==> old(
                    self,
                )@[k].count + part@[k].count <= u64::MAX,
        ensures
            final(self).wf(),
            final(self)@ == comb_maps(old(self)@, part@),
    {
        let pn = part.entries.len();
        let mut t: usize = 0;
        while t < pn
            invariant
                0 <= t <= pn,
                pn == part.entries@.len(),
                part.wf(),
                self.wf(),
                self@ == comb_maps(old(self)@, entries_map(part.entries@.take(t as int))),
                forall|k: Seq<u8>|
                    #[trigger] old(self)@.dom().contains(k) && part@.dom().contains(k) ==> old(
                        self,
                    )@[k].count + part@[k].count <= u64::MAX,
            decreases pn - t,
        {
            let e = &part.entries[t];
            let key: &[u8] = e.0.as_slice();
            let m = e.1;
            let ghost k = key@;
            proof {
                lemma_entries_map_index(part.entries@, t as int);
                assert(part@.dom().contains(k) && part@[k] == m.model());
                if entries_map(part.entries@.take(t as int)).dom().contains(k) {
                    lemma_entries_map_dom(part.entries@.take(t as int), k);
                    let i = choose|i: int| 0 <= i < part.entries@.take(t as int).len() && (
                    #[trigger] part.entries@.take(t as int)[i]).0@ == k;
                    assert(part.entries@[i].0@ == part.entries@[t as int].0@);
                    assert(false);
                }
                assert(part.entries@.take(t as int + 1).drop_last() =~= part.entries@.take(
                    t as int,
                ));
                lemma_sorted_distinct(self.entries@);
            }
            let n = self.entries.len();
            let mut p: usize = 0;
            loop
                invariant
                    0 <= p <= n,
                    n == self.entries@.len(),
                    forall|j: int| 0 <= j < p ==> lex_lt((#[trigger] self.entries@[j]).0@, k),
                    k == key@,
                ensures
                    0 <= p <= n,
                    forall|j: int| 0 <= j < p ==> lex_lt((#[trigger] self.entries@[j]).0@, k),
                    p < n ==> !lex_lt(self.entries@[p as int].0@, k),
                decreases n - p,
            {
                if p >= n {
                    break ;
                }
                if !key_lt(self.entries[p].0.as_slice(), key) {
                    break ;
                }
                p = p + 1;
            }
            let ghost es = self.entries@;
            let ghost pre = self@;
            if p < n && bytes_eq(self.entries[p].0.as_slice(), key) {
                proof {
                    lemma_entries_map_index(es, p as int);
                    assert(pre.dom().contains(k) && pre[k] == es[p as int].1.model());
                    assert(old(self)@.dom().contains(k));
                    assert(pre[k] == old(self)@[k]);
                }
                let slot = vstd::std_specs::vec::vec_index_mut(&mut self.entries, p);
                combine_measurement(&mut slot.1, m);
                proof {
                    let fs = self.entries@;
                    assert(forall|j: int| 0 <= j < es.len() && j != p ==> fs[j] == es[j]);
                    lemma_replace_entry(es, fs, p as int);
                    assert(forall|i: int, j: int| 0 <= i < j < fs.len() ==> fs[i].0 == es[i].0
                        && fs[j].0 == es[j].0);
                    assert(sorted_entries(fs));
                    assert(entries_wf(fs)) by {
                        assert(forall|j: int| 0 <= j < fs.len() && j != p ==> (#[trigger] fs[j]).1
                            == es[j].1);
                    }
                    lemma_comb_maps_insert(
                        old(self)@,
                        entries_map(part.entries@.take(t as int)),
                        k,
                        m.model(),
                    );
                    assert(self@ =~= comb_maps(
                        old(self)@,
                        entries_map(part.entries@.take(t as int + 1)),
                    ));
                }
            } else {
                proof {
                    if p < n {
                        lemma_lex_trichotomy(es[p as int].0@, k);
                        assert(lex_lt(k, es[p as int].0@));
                    }
                    assert forall|j: int| p <= j < es.len() implies lex_lt(
                        k,
                        (#[trigger] es[j]).0@,
                    ) by {
                        if j > p {
                            lemma_lex_transitive(k, es[p as int].0@, es[j].0@);
                        }
                    }
                    assert forall|j: int| 0 <= j < es.len() implies (#[trigger] es[j]).0@ != k by {
                        lemma_lex_trichotomy(es[j].0@, k);
                    }
                    if old(self)@.dom().contains(k) {
                        lemma_entries_map_dom(es, k);
                        assert(false);
                    }
                }
                let owned_key = vstd::slice::slice_to_vec(key);
                self.entries.insert(p, (owned_key, m));
                proof {
                    let fs = self.entries@;
                    assert(fs == es.insert(p as int, (es.insert(p as int, fs[p as int])[p as int])));
                    assert(fs[p as int].0@ == k && fs[p as int].1 == m);
                    lemma_entries_map_insert_mid(es, p as int, fs[p as int]);
                    assert forall|i: int, j: int| 0 <= i < j < fs.len() implies lex_lt(
                        (#[trigger] fs[i]).0@,
                        (#[trigger] fs[j]).0@,
                    ) by {
                        if i < p && j == p {
                            assert(fs[i] == es[i]);
                        } else if i == p && j > p {
                            assert(fs[j] == es[j - 1]);
                        } else if j < p {
                            assert(fs[i] == es[i] && fs[j] == es[j]);
                        } else if i < p && j > p {
                            assert(fs[i] == es[i] && fs[j] == es[j - 1]);
                            lemma_lex_transitive(es[i].0@, k, es[j - 1].0@);
                        } else if i > p {
                            assert(fs[i] == es[i - 1] && fs[j] == es[j - 1]);
                        }
                    }
                    assert(entries_wf(fs)) by {
                        assert(forall|j: int| 0 <= j < p ==> fs[j] == es[j]);
                        assert(forall|j: int| p < j < fs.len() ==> #[trigger] fs[j] == es[j - 1]);
                    }
                    lemma_comb_maps_insert(
                        old(self)@,
                        entries_map(part.entries@.take(t as int)),
                        k,
                        m.model(),
                    );
                    assert(self@ =~= comb_maps(
                        old(self)@,
                        entries_map(part.entries@.take(t as int + 1)),
                    ));
                }
            }
            t = t + 1;
        }
        proof {
            assert(part.entries@.take(pn as int) =~= part.entries@);
        }
    }
}

} // verus!
