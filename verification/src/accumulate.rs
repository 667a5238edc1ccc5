//! The partition accumulator: per-key running statistics over one
//! line-aligned byte range, and the mathematical model of scanning.
//!
//! The model of a buffer is the fold of its records, line by line, into a
//! mapping from key to statistic. The accumulator holds one entry per
//! distinct key, in first-seen order; no order is promised within a
//! partition.

use vstd::prelude::*;

use crate::bytes::{
    ends_terminated, first_idx, has_byte, lemma_first_idx_props, lemma_first_idx_unique,
    lemma_lines_append, lemma_lines_empty, lines_of, bytes_eq, find_byte, TERM,
};
use crate::measurement::{
    comb_rec, lemma_comb_associates, lemma_comb_commutes, lemma_upd_is_comb_seed, seed_rec,
    upd_rec, Measurement, StatRec, update_measurement, VAL_LIMIT,
};
use crate::parse::{line_key, line_value, parse_record, valid_line};
use crate::Error;

verus! {

/// Whether every line of buffer `s` is well-formed.
pub open spec fn all_lines_ok(s: Seq<u8>) -> bool {
    forall|i: int| 0 <= i < lines_of(s).len() ==> valid_line(#[trigger] lines_of(s)[i])
}

/// The record of one line: its key and its value in tenths.
pub open spec fn line_record(l: Seq<u8>) -> (Seq<u8>, int) {
    (line_key(l), line_value(l))
}

/// The records of a buffer, in line order.
pub open spec fn records_of(s: Seq<u8>) -> Seq<(Seq<u8>, int)> {
    lines_of(s).map_values(|l: Seq<u8>| line_record(l))
}

/// One record folded into a mapping: seed the key or update its statistic.
pub open spec fn apply_step(m: Map<Seq<u8>, StatRec>, k: Seq<u8>, v: int) -> Map<Seq<u8>, StatRec> {
    if m.dom().contains(k) {
        m.insert(k, upd_rec(m[k], v))
    } else {
        m.insert(k, seed_rec(v))
    }
}

/// The mapping that a sequence of records folds into, record by record.
pub open spec fn acc_model(rs: Seq<(Seq<u8>, int)>) -> Map<Seq<u8>, StatRec>
    decreases rs.len(),
{
    if rs.len() == 0 {
        Map::empty()
    } else {
        apply_step(acc_model(rs.drop_last()), rs.last().0, rs.last().1)
    }
}

/// How many records of `rs` bear key `k`.
pub open spec fn count_key(rs: Seq<(Seq<u8>, int)>, k: Seq<u8>) -> int
    decreases rs.len(),
{
    if rs.len() == 0 {
        0
    } else {
        count_key(rs.drop_last(), k) + if rs.last().0 == k {
            1int
        } else {
            0int
        }
    }
}

/// A key's occurrence count is at most the number of records.
pub proof fn lemma_count_key_le_len(rs: Seq<(Seq<u8>, int)>, k: Seq<u8>)
    ensures
        0 <= count_key(rs, k) <= rs.len(),
    decreases rs.len(),
{
    if rs.len() > 0 {
        lemma_count_key_le_len(rs.drop_last(), k);
    }
}

/// A key is in the folded mapping exactly when some record bears it, and its
/// `count` is then the number of records that bear it.
pub proof fn lemma_acc_model_count(rs: Seq<(Seq<u8>, int)>, k: Seq<u8>)
    ensures
        acc_model(rs).dom().contains(k) <==> count_key(rs, k) > 0,
        acc_model(rs).dom().contains(k) ==> acc_model(rs)[k].count == count_key(rs, k),
    decreases rs.len(),
{
    if rs.len() > 0 {
        lemma_acc_model_count(rs.drop_last(), k);
        lemma_count_key_le_len(rs.drop_last(), k);
    }
}

/// The merge of two mappings: every key of either, statistics combined where
/// a key stands in both.
pub open spec fn comb_maps(a: Map<Seq<u8>, StatRec>, b: Map<Seq<u8>, StatRec>) -> Map<
    Seq<u8>,
    StatRec,
> {
    Map::new(
        |k: Seq<u8>| a.dom().contains(k) || b.dom().contains(k),
        |k: Seq<u8>|
            if a.dom().contains(k) && b.dom().contains(k) {
                comb_rec(a[k], b[k])
            } else if a.dom().contains(k) {
                a[k]
            } else {
                b[k]
            },
    )
}

/// The empty mapping is the merge's identity.
pub proof fn lemma_comb_maps_empty(m: Map<Seq<u8>, StatRec>)
    ensures
        comb_maps(Map::empty(), m) == m,
        comb_maps(m, Map::empty()) == m,
{
    assert(comb_maps(Map::empty(), m) =~= m);
    assert(comb_maps(m, Map::empty()) =~= m);
}

/// Merging mappings is commutative: the order of arrival does not matter.
pub proof fn lemma_comb_maps_commutes(a: Map<Seq<u8>, StatRec>, b: Map<Seq<u8>, StatRec>)
    ensures
        comb_maps(a, b) == comb_maps(b, a),
{
    assert forall|k: Seq<u8>| a.dom().contains(k) && b.dom().contains(k) implies comb_rec(a[k], b[k])
        == comb_rec(b[k], a[k]) by {
        lemma_comb_commutes(a[k], b[k]);
    }
    assert(comb_maps(a, b) =~= comb_maps(b, a));
}

/// Merging mappings is associative.
pub proof fn lemma_comb_maps_associates(
    a: Map<Seq<u8>, StatRec>,
    b: Map<Seq<u8>, StatRec>,
    c: Map<Seq<u8>, StatRec>,
)
    ensures
        comb_maps(comb_maps(a, b), c) == comb_maps(a, comb_maps(b, c)),
{
    assert forall|k: Seq<u8>| a.dom().contains(k) && b.dom().contains(k) && c.dom().contains(
        k,
    ) implies comb_rec(comb_rec(a[k], b[k]), c[k]) == comb_rec(a[k], comb_rec(b[k], c[k])) by {
        lemma_comb_associates(a[k], b[k], c[k]);
    }
    assert(comb_maps(comb_maps(a, b), c) =~= comb_maps(a, comb_maps(b, c)));
}

/// One step of the fold commutes with merging a mapping in from the left.
proof fn lemma_apply_step_comb(a: Map<Seq<u8>, StatRec>, b: Map<Seq<u8>, StatRec>, k: Seq<u8>, v: int)
    ensures
        apply_step(comb_maps(a, b), k, v) == comb_maps(a, apply_step(b, k, v)),
{
    if a.dom().contains(k) && b.dom().contains(k) {
        lemma_upd_is_comb_seed(b[k], v);
        lemma_upd_is_comb_seed(comb_rec(a[k], b[k]), v);
        lemma_comb_associates(a[k], b[k], seed_rec(v));
    } else if a.dom().contains(k) {
        lemma_upd_is_comb_seed(a[k], v);
    }
    assert(apply_step(comb_maps(a, b), k, v) =~= comb_maps(a, apply_step(b, k, v)));
}

/// The fold of concatenated record sequences is the merge of their folds:
/// scanning partitions separately and merging loses and adds nothing.
pub proof fn lemma_acc_model_append(rs1: Seq<(Seq<u8>, int)>, rs2: Seq<(Seq<u8>, int)>)
    ensures
        acc_model(rs1 + rs2) == comb_maps(acc_model(rs1), acc_model(rs2)),
    decreases rs2.len(),
{
    if rs2.len() == 0 {
        assert(rs1 + rs2 =~= rs1);
        lemma_comb_maps_empty(acc_model(rs1));
    } else {
        let kv = rs2.last();
        assert((rs1 + rs2).drop_last() =~= rs1 + rs2.drop_last());
        assert((rs1 + rs2).last() == kv);
        lemma_acc_model_append(rs1, rs2.drop_last());
        lemma_apply_step_comb(acc_model(rs1), acc_model(rs2.drop_last()), kv.0, kv.1);
    }
}

/// Well-formed lines take at least three bytes each: delimiter, one value
/// byte, terminator. So a buffer holds at most a third of its length in
/// lines.
pub proof fn lemma_lines_len_bound(s: Seq<u8>)
    requires
        all_lines_ok(s),
    ensures
        3 * lines_of(s).len() <= s.len(),
    decreases s.len(),
{
    if has_byte(s, TERM) {
        lemma_first_idx_props(s, TERM);
        let i = first_idx(s, TERM);
        let rest = s.skip(i + 1);
        assert(lines_of(s)[0] == s.take(i));
        assert(valid_line(s.take(i)));
        crate::parse::lemma_valid_line_len(s.take(i));
        assert(forall|j: int| 0 <= j < lines_of(rest).len() ==> #[trigger] lines_of(rest)[j]
            == lines_of(s)[j + 1]);
        assert(all_lines_ok(rest));
        lemma_lines_len_bound(rest);
    }
}

/// The fold of a sequence of partition mappings, in order of arrival.
pub open spec fn comb_all(ms: Seq<Map<Seq<u8>, StatRec>>) -> Map<Seq<u8>, StatRec>
    decreases ms.len(),
{
    if ms.len() == 0 {
        Map::empty()
    } else {
        comb_maps(comb_all(ms.drop_last()), ms.last())
    }
}

/// A concatenation of terminated stretches is terminated.
proof fn lemma_flatten_terminated(parts: Seq<Seq<u8>>)
    requires
        forall|i: int| 0 <= i < parts.len() ==> ends_terminated(#[trigger] parts[i]),
    ensures
        ends_terminated(parts.flatten()),
    decreases parts.len(),
{
    if parts.len() > 0 {
        lemma_flatten_terminated(parts.drop_last());
        parts.drop_last().lemma_flatten_push(parts.last());
        assert(parts.drop_last().push(parts.last()) =~= parts);
        let f = parts.drop_last().flatten();
        let l = parts.last();
        assert(parts.flatten() == f + l);
        if l.len() > 0 {
            assert((f + l)[(f + l).len() - 1] == l[l.len() - 1]);
        } else {
            assert(f + l =~= f);
        }
    }
}

/// Partitioning a buffer on line boundaries changes nothing: the fold of the
/// whole buffer's records equals the merge of the partitions' folds, in
/// partition order, and the whole is well-formed exactly when every
/// partition is. With the merge commutative and associative, any number of
/// workers and any line-aligned boundary placement yield the same mapping.
pub proof fn lemma_partition_independent(parts: Seq<Seq<u8>>)
    requires
        forall|i: int| 0 <= i < parts.len() - 1 ==> ends_terminated(#[trigger] parts[i]),
    ensures
        acc_model(records_of(parts.flatten())) == comb_all(
            parts.map_values(|p: Seq<u8>| acc_model(records_of(p))),
        ),
        all_lines_ok(parts.flatten()) <==> (forall|i: int|
            0 <= i < parts.len() ==> all_lines_ok(#[trigger] parts[i])),
    decreases parts.len(),
{
    let ms = parts.map_values(|p: Seq<u8>| acc_model(records_of(p)));
    if parts.len() == 0 {
        assert(parts.flatten() =~= Seq::<u8>::empty());
        assert(!has_byte(Seq::<u8>::empty(), TERM));
        assert(lines_of(Seq::<u8>::empty()) == Seq::<Seq<u8>>::empty());
        assert(records_of(Seq::<u8>::empty()) =~= Seq::<(Seq<u8>, int)>::empty());
    } else {
        let front_parts = parts.drop_last();
        let l = parts.last();
        let front = front_parts.flatten();
        lemma_partition_independent(front_parts);
        lemma_flatten_terminated(front_parts);
        front_parts.lemma_flatten_push(l);
        assert(front_parts.push(l) =~= parts);
        let whole = parts.flatten();
        assert(whole == front + l);
        lemma_lines_append(front, l);
        assert(records_of(whole) =~= records_of(front) + records_of(l));
        lemma_acc_model_append(records_of(front), records_of(l));
        assert(ms.drop_last() =~= front_parts.map_values(|p: Seq<u8>| acc_model(records_of(p))));
        assert(ms.last() == acc_model(records_of(l)));
        assert(acc_model(records_of(whole)) == comb_all(ms));

        let lf = lines_of(front);
        let ll = lines_of(l);
        assert(lines_of(whole) == lf + ll);
        if all_lines_ok(whole) {
            assert forall|j: int| 0 <= j < lf.len() implies valid_line(#[trigger] lf[j]) by {
                assert(lf[j] == lines_of(whole)[j]);
            }
            assert forall|j: int| 0 <= j < ll.len() implies valid_line(#[trigger] ll[j]) by {
                assert(ll[j] == lines_of(whole)[lf.len() + j]);
            }
            assert(all_lines_ok(front) && all_lines_ok(l));
            assert(forall|i: int| 0 <= i < front_parts.len() ==> all_lines_ok(
                #[trigger] front_parts[i],
            ));
            assert forall|i: int| 0 <= i < parts.len() implies all_lines_ok(
                #[trigger] parts[i],
            ) by {
                if i < parts.len() - 1 {
                    assert(parts[i] == front_parts[i]);
                }
            }
        }
        if forall|i: int| 0 <= i < parts.len() ==> all_lines_ok(#[trigger] parts[i]) {
            assert forall|i: int| 0 <= i < front_parts.len() implies all_lines_ok(
                #[trigger] front_parts[i],
            ) by {
                assert(front_parts[i] == parts[i]);
            }
            assert(all_lines_ok(front));
            assert(all_lines_ok(l));
            assert forall|j: int| 0 <= j < lines_of(whole).len() implies valid_line(
                #[trigger] lines_of(whole)[j],
            ) by {
                if j < lf.len() {
                    assert(lines_of(whole)[j] == lf[j]);
                } else {
                    assert(lines_of(whole)[j] == ll[j - lf.len()]);
                }
            }
        }
    }
}

/// The mapping a sequence of entries stands for.
pub open spec fn entries_map(es: Seq<(Vec<u8>, Measurement)>) -> Map<Seq<u8>, StatRec>
    decreases es.len(),
{
    if es.len() == 0 {
        Map::empty()
    } else {
        entries_map(es.drop_last()).insert(es.last().0@, es.last().1.model())
    }
}

/// Whether no two entries bear the same key.
pub open spec fn entries_distinct(es: Seq<(Vec<u8>, Measurement)>) -> bool {
    forall|i: int, j: int| 0 <= i < j < es.len() ==> (#[trigger] es[i]).0@ != (#[trigger] es[j]).0@
}

/// Whether every entry's measurement is well-formed.
pub open spec fn entries_wf(es: Seq<(Vec<u8>, Measurement)>) -> bool {
    forall|i: int| 0 <= i < es.len() ==> (#[trigger] es[i]).1.wf()
}

/// Each entry of a distinct sequence is found in its mapping unchanged.
pub proof fn lemma_entries_map_index(es: Seq<(Vec<u8>, Measurement)>, i: int)
    requires
        entries_distinct(es),
        0 <= i < es.len(),
    ensures
        entries_map(es).dom().contains(es[i].0@),
        entries_map(es)[es[i].0@] == es[i].1.model(),
    decreases es.len(),
{
    if i < es.len() - 1 {
        assert(entries_distinct(es.drop_last()));
        assert(es.drop_last()[i] == es[i]);
        lemma_entries_map_index(es.drop_last(), i);
    }
}

/// Every key of the mapping comes from some entry.
pub proof fn lemma_entries_map_dom(es: Seq<(Vec<u8>, Measurement)>, k: Seq<u8>)
    requires
        entries_map(es).dom().contains(k),
    ensures
        exists|i: int| 0 <= i < es.len() && (#[trigger] es[i]).0@ == k,
    decreases es.len(),
{
    if es.len() > 0 && es.last().0@ != k {
        lemma_entries_map_dom(es.drop_last(), k);
        let i = choose|i: int| 0 <= i < es.drop_last().len() && (#[trigger] es.drop_last()[i]).0@
            == k;
        assert(es[i].0@ == k);
    }
}

/// The accumulator of one partition: one entry per distinct key, in
/// first-seen order.
pub struct PartitionAcc {
    /// The entries; `wf` keeps their keys distinct and their statistics
    /// well-formed.
    pub entries: Vec<(Vec<u8>, Measurement)>,
}

impl PartitionAcc {
    /// The mapping this accumulator holds.
    pub open spec fn view(&self) -> Map<Seq<u8>, StatRec> {
        entries_map(self.entries@)
    }

    /// Well-formed: keys distinct, statistics well-formed.
    pub open spec fn wf(&self) -> bool {
        entries_distinct(self.entries@) && entries_wf(self.entries@)
    }

    /// An empty accumulator.
    pub fn new() -> (r: PartitionAcc)
        ensures
            r.wf(),
            r@ == Map::<Seq<u8>, StatRec>::empty(),
    {
        PartitionAcc { entries: Vec::new() }
    }

    /// Applies one record: seeds an absent key with the value, updates a
    /// present key's statistic in place.
    pub fn apply(&mut self, key: &[u8], value: i64)
        requires
            old(self).wf(),
            -VAL_LIMIT <= value <= VAL_LIMIT,
            old(self)@.dom().contains(key@) ==> old(self)@[key@].count < u64::MAX,
        ensures
            final(self).wf(),
            final(self)@ == apply_step(old(self)@, key@, value as int),
    {
        let n = self.entries.len();
        let mut i: usize = 0;
        while i < n
            invariant
                0 <= i <= n,
                n == self.entries@.len(),
                *self == *old(self),
                old(self).wf(),
                -VAL_LIMIT <= value <= VAL_LIMIT,
                old(self)@.dom().contains(key@) ==> old(self)@[key@].count < u64::MAX,
                forall|j: int| 0 <= j < i ==> (#[trigger] self.entries@[j]).0@ != key@,
            decreases n - i,
        {
            if bytes_eq(self.entries[i].0.as_slice(), key) {
                proof {
                    lemma_entries_map_index(self.entries@, i as int);
                }
                let e = vstd::std_specs::vec::vec_index_mut(&mut self.entries, i);
                update_measurement(&mut e.1, value);
                proof {
                    lemma_update_entry(old(self).entries@, self.entries@, i as int, value as int);
                }
                return ;
            }
            i = i + 1;
        }
        proof {
            if self@.dom().contains(key@) {
                lemma_entries_map_dom(self.entries@, key@);
            }
        }
        let owned_key = vstd::slice::slice_to_vec(key);
        let m = Measurement::new(value);
        self.entries.push((owned_key, m));
        proof {
            assert(self.entries@.drop_last() =~= old(self).entries@);
            assert(final(self)@ =~= apply_step(old(self)@, key@, value as int));
        }
    }
}

/// Parses one line and folds its record into the partition accumulator:
/// seeds an absent key, updates a present one. Leaves the accumulator
/// untouched and returns `MalformedRecord` exactly when the line is not
/// well-formed.
pub fn process_line(line: &[u8], accumulator: &mut PartitionAcc) -> (r: Result<(), Error>)
    requires
        old(accumulator).wf(),
        old(accumulator)@.dom().contains(line_key(line@)) ==> old(accumulator)@[line_key(
            line@,
        )].count < u64::MAX,
    ensures
        final(accumulator).wf(),
        r is Ok <==> valid_line(line@),
        r is Ok ==> final(accumulator)@ == apply_step(
            old(accumulator)@,
            line_key(line@),
            line_value(line@),
        ),
        r matches Err(e) ==> e == Error::MalformedRecord && *final(accumulator) == *old(
            accumulator,
        ),
{
    match parse_record(line) {
        Ok((key, value)) => {
            accumulator.apply(key, value);
            Ok(())
        },
        Err(e) => Err(e),
    }
}

/// Scans one line-aligned byte range: each complete line is parsed and its
/// record applied in order. Returns the partition's mapping exactly when
/// every line is well-formed, and aborts with `MalformedRecord` at the first
/// that is not. Bytes after the last terminator belong to no line and are
/// ignored.
pub fn process_chunk(chunk: &[u8]) -> (r: Result<PartitionAcc, Error>)
    ensures
        r is Ok <==> all_lines_ok(chunk@),
        r matches Ok(acc) ==> acc.wf() && acc@ == acc_model(records_of(chunk@)),
        r matches Err(e) ==> e == Error::MalformedRecord,
{
    let n = chunk.len();
    let mut acc = PartitionAcc::new();
    let mut start: usize = 0;
    loop
        invariant
            0 <= start <= n,
            n == chunk@.len(),
            ends_terminated(chunk@.take(start as int)),
            acc.wf(),
            acc@ == acc_model(records_of(chunk@.take(start as int))),
            all_lines_ok(chunk@.take(start as int)),
            3 * lines_of(chunk@.take(start as int)).len() <= start,
        decreases n - start,
    {
        let ghost done = chunk@.take(start as int);
        let ghost tail = chunk@.skip(start as int);
        let rest = &chunk[start..n];
        proof {
            assert(rest@ =~= tail);
            assert(done + tail =~= chunk@);
            lemma_lines_append(done, tail);
        }
        match find_byte(rest, TERM) {
            None => {
                proof {
                    lemma_lines_empty(tail);
                    assert(lines_of(chunk@) =~= lines_of(done));
                    assert(records_of(chunk@) =~= records_of(done));
                }
                return Ok(acc);
            },
            Some(rel) => {
                proof {
                    lemma_first_idx_props(tail, TERM);
                }
                let idx = start + rel;
                let line = &chunk[start..idx];
                proof {
                    assert(line@ =~= tail.take(rel as int));
                    assert(lines_of(tail)[0] == line@);
                    assert(lines_of(chunk@)[lines_of(done).len() as int] == line@);
                }
                proof {
                    let rs = records_of(done);
                    lemma_acc_model_count(rs, line_key(line@));
                    lemma_count_key_le_len(rs, line_key(line@));
                }
                match process_line(line, &mut acc) {
                    Err(e) => {
                        proof {
                            assert(!valid_line(lines_of(chunk@)[lines_of(done).len() as int]));
                        }
                        return Err(e);
                    },
                    Ok(()) => {
                        proof {
                            crate::parse::lemma_valid_line_len(line@);
                            let seg = line@ + seq![TERM];
                            assert(chunk@.take(idx + 1) =~= done + seg);
                            lemma_lines_append(done, seg);
                            crate::bytes::lemma_lines_single(line@);
                            assert(lines_of(chunk@.take(idx + 1)) == lines_of(done).push(line@));
                            let rs = records_of(done);
                            let rs2 = records_of(chunk@.take(idx + 1));
                            assert(rs2 =~= rs.push(line_record(line@)));
                            assert(rs2.drop_last() =~= rs);
                            assert(acc@ == acc_model(rs2));
                            assert(chunk@.take(idx + 1)[idx as int] == TERM);
                            assert(ends_terminated(chunk@.take(idx + 1)));
                            assert forall|i: int| 0 <= i < lines_of(chunk@.take(idx + 1)).len()
                                implies valid_line(#[trigger] lines_of(chunk@.take(idx + 1))[i]) by {
                                if i < lines_of(done).len() {
                                    assert(lines_of(chunk@.take(idx + 1))[i] == lines_of(done)[i]);
                                } else {
                                    assert(lines_of(chunk@.take(idx + 1))[i] == line@);
                                }
                            }
                        }
                        start = idx + 1;
                    },
                }
            },
        }
    }
}

/// Updating the statistic of entry `i` in place updates exactly that key in
/// the mapping.
proof fn lemma_update_entry(
    es: Seq<(Vec<u8>, Measurement)>,
    fs: Seq<(Vec<u8>, Measurement)>,
    i: int,
    v: int,
)
    requires
        entries_distinct(es),
        entries_wf(es),
        0 <= i < es.len(),
        fs.len() == es.len(),
        fs[i].0 == es[i].0,
        fs[i].1.model() == upd_rec(es[i].1.model(), v),
        fs[i].1.wf(),
        forall|j: int| 0 <= j < es.len() && j != i ==> fs[j] == es[j],
    ensures
        entries_distinct(fs),
        entries_wf(fs),
        entries_map(fs) == apply_step(entries_map(es), es[i].0@, v),
    decreases es.len(),
{
    assert forall|a: int, b: int| 0 <= a < b < fs.len() implies (#[trigger] fs[a]).0@
        != (#[trigger] fs[b]).0@ by {
        assert(es[a].0 == fs[a].0 && es[b].0 == fs[b].0);
    }
    assert forall|a: int| 0 <= a < fs.len() implies (#[trigger] fs[a]).1.wf() by {
        if a != i {
            assert(fs[a] == es[a]);
        }
    }
    lemma_entries_map_index(es, i);
    if i == es.len() - 1 {
        assert(fs.drop_last() =~= es.drop_last());
        assert(entries_map(fs) =~= apply_step(entries_map(es), es[i].0@, v));
    } else {
        assert(entries_distinct(es.drop_last()));
        assert(entries_wf(es.drop_last()));
        assert(forall|j: int| 0 <= j < es.drop_last().len() && j != i ==> es.drop_last()[j]
            == fs.drop_last()[j]);
        assert(es.drop_last()[i] == es[i] && fs.drop_last()[i] == fs[i]);
        lemma_update_entry(es.drop_last(), fs.drop_last(), i, v);
        assert(fs.last() == es.last());
        assert(es.last().0@ != es[i].0@);
        assert(entries_map(fs) =~= apply_step(entries_map(es), es[i].0@, v));
    }
}

} // verus!
