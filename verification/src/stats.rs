//! Mathematical model of aggregation.
//!
//! A record is a key with one scaled value. Aggregation folds a sequence of
//! records into a map from key to running statistics; merging two aggregation
//! results is the pointwise join of two such maps. The lemmas here show that
//! the join is commutative and associative and that folding distributes over
//! concatenation of record sequences, which together make the merge of
//! per-slice tables independent of slicing and of merge order.

use vstd::prelude::*;

verus! {

use vstd::math::min;
use vstd::math::max;
use crate::order::lex_lt;
use crate::order::lemma_lex_trichotomy;
use crate::order::lemma_lex_trans;

/// One parsed record: a key and its scaled value.
pub struct Rec {
    pub key: Seq<u8>,
    pub val: int,
}

/// Running statistics of one key.
pub struct Stats {
    pub min: int,
    pub max: int,
    pub total: int,
    pub count: nat,
}

/// The statistics of a key seen exactly once.
pub open spec fn stats_one(v: int) -> Stats {
    Stats { min: v, max: v, total: v, count: 1 }
}

/// Statistics after one more value.
pub open spec fn stats_add(s: Stats, v: int) -> Stats {
    Stats { min: min(s.min, v), max: max(s.max, v), total: s.total + v, count: s.count + 1 }
}

/// Statistics of the union of two groups of sightings.
pub open spec fn stats_join(a: Stats, b: Stats) -> Stats {
    Stats {
        min: min(a.min, b.min),
        max: max(a.max, b.max),
        total: a.total + b.total,
        count: a.count + b.count,
    }
}

pub type StatsMap = Map<Seq<u8>, Stats>;

/// Folds one record into an aggregation map.
pub open spec fn upd_map(m: StatsMap, r: Rec) -> StatsMap {
    if m.contains_key(r.key) {
        m.insert(r.key, stats_add(m[r.key], r.val))
    } else {
        m.insert(r.key, stats_one(r.val))
    }
}

/// The aggregation map of a record sequence.
pub open spec fn agg_map(rs: Seq<Rec>) -> StatsMap
    decreases rs.len(),
{
    if rs.len() == 0 {
        Map::empty()
    } else {
        upd_map(agg_map(rs.drop_last()), rs.last())
    }
}

/// Pointwise join of two aggregation maps.
pub open spec fn combine(m1: StatsMap, m2: StatsMap) -> StatsMap {
    Map::new(
        |k: Seq<u8>| m1.contains_key(k) || m2.contains_key(k),
        |k: Seq<u8>|
            if m1.contains_key(k) && m2.contains_key(k) {
                stats_join(m1[k], m2[k])
            } else if m1.contains_key(k) {
                m1[k]
            } else {
                m2[k]
            },
    )
}

/// The empty map is a right unit of the join.
pub proof fn lemma_combine_empty_r(m: StatsMap)
    ensures
        combine(m, Map::empty()) == m,
{
    assert(combine(m, Map::empty()) =~= m);
}

/// The empty map is a left unit of the join.
pub proof fn lemma_combine_empty_l(m: StatsMap)
    ensures
        combine(Map::empty(), m) == m,
{
    assert(combine(Map::empty(), m) =~= m);
}

/// Joining aggregation maps is commutative: merging worker results in either
/// order yields the same table.
pub proof fn lemma_combine_comm(m1: StatsMap, m2: StatsMap)
    ensures
        combine(m1, m2) == combine(m2, m1),
{
    assert(combine(m1, m2) =~= combine(m2, m1));
}

/// Joining aggregation maps is associative: any merge-tree shape over the
/// same worker results yields the same table.
pub proof fn lemma_combine_assoc(m1: StatsMap, m2: StatsMap, m3: StatsMap)
    ensures
        combine(combine(m1, m2), m3) == combine(m1, combine(m2, m3)),
{
    assert(combine(combine(m1, m2), m3) =~= combine(m1, combine(m2, m3)));
}

/// Folding a record into the right side of a join folds it into the joined map.
pub proof fn lemma_combine_upd(m1: StatsMap, m2: StatsMap, r: Rec)
    ensures
        combine(m1, upd_map(m2, r)) == upd_map(combine(m1, m2), r),
{
    assert(combine(m1, upd_map(m2, r)) =~= upd_map(combine(m1, m2), r));
}

/// Aggregating a concatenation equals joining the two aggregations: scanning
/// a buffer whole or in two record-aligned parts gives the same statistics.
pub proof fn lemma_agg_map_concat(r1: Seq<Rec>, r2: Seq<Rec>)
    ensures
        agg_map(r1 + r2) == combine(agg_map(r1), agg_map(r2)),
    decreases r2.len(),
{
    if r2.len() == 0 {
        assert(r1 + r2 =~= r1);
        lemma_combine_empty_r(agg_map(r1));
    } else {
        assert((r1 + r2).drop_last() =~= r1 + r2.drop_last());
        assert((r1 + r2).last() == r2.last());
        lemma_agg_map_concat(r1, r2.drop_last());
        lemma_combine_upd(agg_map(r1), agg_map(r2.drop_last()), r2.last());
    }
}

/// One drained table entry: a key with its statistics.
pub struct EntryV {
    pub key: Seq<u8>,
    pub min: int,
    pub max: int,
    pub total: int,
    pub count: nat,
}

impl EntryV {
    pub open spec fn stats(self) -> Stats {
        Stats { min: self.min, max: self.max, total: self.total, count: self.count }
    }
}

/// The entry of a key seen exactly once.
pub open spec fn entry_one(key: Seq<u8>, v: int) -> EntryV {
    EntryV { key: key, min: v, max: v, total: v, count: 1 }
}

/// An entry after one more value.
pub open spec fn entry_upd(e: EntryV, v: int) -> EntryV {
    EntryV {
        key: e.key,
        min: min(e.min, v),
        max: max(e.max, v),
        total: e.total + v,
        count: e.count + 1,
    }
}

/// Entries stand in strictly ascending key order, so each key appears once.
pub open spec fn sorted_keys(es: Seq<EntryV>) -> bool {
    forall|i: int, j: int|
        0 <= i < j < es.len() ==> lex_lt(#[trigger] es[i].key, #[trigger] es[j].key)
}

/// The map a table stands for.
pub open spec fn tbl_map(es: Seq<EntryV>) -> StatsMap
    decreases es.len(),
{
    if es.len() == 0 {
        Map::empty()
    } else {
        tbl_map(es.drop_first()).insert(es[0].key, es[0].stats())
    }
}

/// A key is in the table's map exactly when some entry holds it.
pub proof fn lemma_tbl_map_dom(es: Seq<EntryV>, k: Seq<u8>)
    ensures
        tbl_map(es).contains_key(k) == exists|i: int| 0 <= i < es.len() && es[i].key == k,
    decreases es.len(),
{
    if es.len() > 0 {
        lemma_tbl_map_dom(es.drop_first(), k);
        if es[0].key == k {
            assert(es[0].key == k);
        } else if tbl_map(es).contains_key(k) {
            let i = choose|i: int| 0 <= i < es.drop_first().len() && es.drop_first()[i].key == k;
            assert(es[i + 1].key == k);
        } else if exists|i: int| 0 <= i < es.len() && es[i].key == k {
            let i = choose|i: int| 0 <= i < es.len() && es[i].key == k;
            assert(es.drop_first()[i - 1].key == k);
        }
    }
}

/// Inserts one record into a sorted table, keeping it sorted; the table's
/// map gains exactly that record.
pub open spec fn ins(es: Seq<EntryV>, key: Seq<u8>, v: int) -> Seq<EntryV>
    decreases es.len(),
{
    if es.len() == 0 {
        seq![entry_one(key, v)]
    } else if lex_lt(es[0].key, key) {
        seq![es[0]] + ins(es.drop_first(), key, v)
    } else if es[0].key == key {
        seq![entry_upd(es[0], v)] + es.drop_first()
    } else {
        seq![entry_one(key, v)] + es
    }
}

/// The table of a record sequence: every record folded in, in order.
pub open spec fn agg_seq(rs: Seq<Rec>) -> Seq<EntryV>
    decreases rs.len(),
{
    if rs.len() == 0 {
        Seq::empty()
    } else {
        ins(agg_seq(rs.drop_last()), rs.last().key, rs.last().val)
    }
}

/// What `ins` does: order and per-key statistics, for any sorted table.
pub proof fn lemma_ins(es: Seq<EntryV>, key: Seq<u8>, v: int)
    requires
        sorted_keys(es),
    ensures
        sorted_keys(ins(es, key, v)),
        tbl_map(ins(es, key, v)) == upd_map(tbl_map(es), Rec { key: key, val: v }),
        forall|j: int|
            0 <= j < ins(es, key, v).len() ==> (#[trigger] ins(es, key, v)[j].key == key
                || exists|i: int| 0 <= i < es.len() && es[i].key == ins(es, key, v)[j].key),
    decreases es.len(),
{
    let r = ins(es, key, v);
    lemma_tbl_map_dom(es, key);
    if es.len() == 0 {
        assert(r.drop_first() =~= Seq::<EntryV>::empty());
        assert(r[0].stats() == stats_one(v));
        assert(tbl_map(r) == tbl_map(r.drop_first()).insert(key, stats_one(v)));
        assert(tbl_map(r) =~= upd_map(tbl_map(es), Rec { key: key, val: v }));
    } else if lex_lt(es[0].key, key) {
        let tail = es.drop_first();
        assert(sorted_keys(tail)) by {
            assert forall|i: int, j: int| 0 <= i < j < tail.len() implies lex_lt(
                #[trigger] tail[i].key,
                #[trigger] tail[j].key,
            ) by {
                assert(es[i + 1].key == tail[i].key);
                assert(es[j + 1].key == tail[j].key);
            }
        }
        lemma_ins(tail, key, v);
        let rt = ins(tail, key, v);
        assert(r =~= seq![es[0]] + rt);
        // Order: the head is below the old tail keys and below the new key.
        assert forall|i: int, j: int| 0 <= i < j < r.len() implies lex_lt(
            #[trigger] r[i].key,
            #[trigger] r[j].key,
        ) by {
            if i == 0 {
                assert(r[j].key == rt[j - 1].key);
                if rt[j - 1].key != key {
                    let w = choose|w: int| 0 <= w < tail.len() && tail[w].key == rt[j - 1].key;
                    assert(es[w + 1].key == tail[w].key);
                }
            } else {
                assert(r[i].key == rt[i - 1].key);
                assert(r[j].key == rt[j - 1].key);
            }
        }
        // Map: the head's insert commutes with the record's fold.
        lemma_tbl_map_dom(tail, key);
        assert(r.drop_first() =~= rt);
        assert(tbl_map(r) == tbl_map(rt).insert(es[0].key, es[0].stats()));
        lemma_lex_trichotomy(es[0].key, key);
        let m = tbl_map(tail);
        let k0 = es[0].key;
        let s0 = es[0].stats();
        assert(tbl_map(es) == m.insert(k0, s0));
        assert(k0 != key);
        if m.contains_key(key) {
            assert(tbl_map(rt) == m.insert(key, stats_add(m[key], v)));
            assert(tbl_map(es).contains_key(key));
            assert(tbl_map(es)[key] == m[key]);
            assert(upd_map(tbl_map(es), Rec { key: key, val: v }) == m.insert(k0, s0).insert(
                key,
                stats_add(m[key], v),
            ));
            assert(tbl_map(r) =~= upd_map(tbl_map(es), Rec { key: key, val: v }));
        } else {
            assert(tbl_map(rt) == m.insert(key, stats_one(v)));
            assert(!tbl_map(es).contains_key(key));
            assert(upd_map(tbl_map(es), Rec { key: key, val: v }) == m.insert(k0, s0).insert(
                key,
                stats_one(v),
            ));
            assert(tbl_map(r) =~= upd_map(tbl_map(es), Rec { key: key, val: v }));
        }
    } else if es[0].key == key {
        assert(r.drop_first() =~= es.drop_first());
        assert(tbl_map(r) =~= upd_map(tbl_map(es), Rec { key: key, val: v }));
        assert forall|i: int, j: int| 0 <= i < j < r.len() implies lex_lt(
            #[trigger] r[i].key,
            #[trigger] r[j].key,
        ) by {
            assert(r[j].key == es[j].key);
            assert(r[i].key == es[i].key);
        }
    } else {
        lemma_lex_trichotomy(es[0].key, key);
        assert(lex_lt(key, es[0].key));
        assert(r =~= seq![entry_one(key, v)] + es);
        assert(r.drop_first() =~= es);
        assert forall|i: int, j: int| 0 <= i < j < r.len() implies lex_lt(
            #[trigger] r[i].key,
            #[trigger] r[j].key,
        ) by {
            if i == 0 {
                assert(r[j].key == es[j - 1].key);
                if j - 1 > 0 {
                    lemma_lex_trans(key, es[0].key, es[j - 1].key);
                }
            } else {
                assert(r[i].key == es[i - 1].key);
                assert(r[j].key == es[j - 1].key);
            }
        }
        assert(tbl_map(r) =~= upd_map(tbl_map(es), Rec { key: key, val: v }));
    }
}

/// Field bounds every live entry obeys: at least one sighting, extrema in
/// the fixed-point range, and a total bounded by count times the range.
pub open spec fn entry_bounds(e: EntryV) -> bool {
    &&& 1 <= e.count
    &&& -(crate::VAL_MAX as int) <= e.min <= e.max <= crate::VAL_MAX as int
    &&& -(e.count * crate::VAL_MAX as int) <= e.total <= e.count * crate::VAL_MAX as int
}

pub open spec fn entries_bounded(es: Seq<EntryV>) -> bool {
    forall|i: int| 0 <= i < es.len() ==> entry_bounds(#[trigger] es[i])
}

/// No entry has seen more sightings than `n`.
pub open spec fn counts_le(es: Seq<EntryV>, n: int) -> bool {
    forall|i: int| 0 <= i < es.len() ==> (#[trigger] es[i]).count <= n
}

/// Folding an in-range value into a table keeps every entry bounded and
/// raises the sighting bound by at most one.
pub proof fn lemma_ins_bounds(es: Seq<EntryV>, key: Seq<u8>, v: int, n: int)
    requires
        entries_bounded(es),
        counts_le(es, n),
        0 <= n,
        -(crate::VAL_MAX as int) <= v <= crate::VAL_MAX as int,
    ensures
        entries_bounded(ins(es, key, v)),
        counts_le(ins(es, key, v), n + 1),
    decreases es.len(),
{
    let r = ins(es, key, v);
    if es.len() == 0 {
    } else if lex_lt(es[0].key, key) {
        let tail = es.drop_first();
        lemma_ins_bounds(tail, key, v, n);
        let rt = ins(tail, key, v);
        assert forall|i: int| 0 <= i < r.len() implies entry_bounds(#[trigger] r[i])
            && r[i].count <= n + 1 by {
            if i > 0 {
                assert(r[i] == rt[i - 1]);
            }
        }
    } else if es[0].key == key {
        let e = es[0];
        assert(entry_bounds(entry_upd(e, v))) by {
            assert((e.count + 1) * crate::VAL_MAX as int == e.count * crate::VAL_MAX as int
                + crate::VAL_MAX as int) by (nonlinear_arith);
        }
        assert forall|i: int| 0 <= i < r.len() implies entry_bounds(#[trigger] r[i])
            && r[i].count <= n + 1 by {
            if i > 0 {
                assert(r[i] == es[i]);
            }
        }
    } else {
        assert forall|i: int| 0 <= i < r.len() implies entry_bounds(#[trigger] r[i])
            && r[i].count <= n + 1 by {
            if i > 0 {
                assert(r[i] == es[i - 1]);
            }
        }
    }
}

/// The table of a record sequence is sorted, stands for the aggregation map
/// of those records, and holds only keys that occur in them.
pub proof fn lemma_agg_seq(rs: Seq<Rec>)
    ensures
        sorted_keys(agg_seq(rs)),
        tbl_map(agg_seq(rs)) == agg_map(rs),
        forall|j: int|
            0 <= j < agg_seq(rs).len() ==> exists|i: int|
                0 <= i < rs.len() && rs[i].key == #[trigger] agg_seq(rs)[j].key,
    decreases rs.len(),
{
    if rs.len() > 0 {
        lemma_agg_seq(rs.drop_last());
        let prev = agg_seq(rs.drop_last());
        lemma_ins(prev, rs.last().key, rs.last().val);
        let r = agg_seq(rs);
        assert forall|j: int| 0 <= j < r.len() implies exists|i: int|
            0 <= i < rs.len() && rs[i].key == #[trigger] r[j].key by {
            if r[j].key == rs.last().key {
                assert(rs[rs.len() - 1].key == r[j].key);
            } else {
                let w = choose|w: int| 0 <= w < prev.len() && prev[w].key == r[j].key;
                let i = choose|i: int|
                    0 <= i < rs.drop_last().len() && rs.drop_last()[i].key == prev[w].key;
                assert(rs[i].key == r[j].key);
            }
        }
    }
}

/// The statistics a sorted table carries for the key of its head entry.
proof fn lemma_tbl_map_drop(es: Seq<EntryV>)
    requires
        sorted_keys(es),
        es.len() > 0,
    ensures
        tbl_map(es).contains_key(es[0].key),
        tbl_map(es)[es[0].key] == es[0].stats(),
        tbl_map(es.drop_first()) == tbl_map(es).remove(es[0].key),
{
    let tail = es.drop_first();
    lemma_tbl_map_dom(tail, es[0].key);
    if tbl_map(tail).contains_key(es[0].key) {
        let i = choose|i: int| 0 <= i < tail.len() && tail[i].key == es[0].key;
        assert(es[i + 1].key == es[0].key);
        lemma_lex_trichotomy(es[0].key, es[i + 1].key);
        assert(false);
    }
    assert(tbl_map(tail) =~= tbl_map(es).remove(es[0].key));
}

/// Two sorted tables that stand for the same map are the same table: the
/// sorted drain of an aggregation is canonical, so merge results do not
/// depend on how the work was split or in which order tables were merged.
pub proof fn lemma_sorted_map_eq(e1: Seq<EntryV>, e2: Seq<EntryV>)
    requires
        sorted_keys(e1),
        sorted_keys(e2),
        tbl_map(e1) == tbl_map(e2),
    ensures
        e1 == e2,
    decreases e1.len(),
{
    if e1.len() == 0 {
        if e2.len() > 0 {
            lemma_tbl_map_drop(e2);
            assert(tbl_map(e1).contains_key(e2[0].key));
            assert(false);
        }
        assert(e1 =~= e2);
    } else if e2.len() == 0 {
        lemma_tbl_map_drop(e1);
        assert(false);
    } else {
        lemma_tbl_map_drop(e1);
        lemma_tbl_map_drop(e2);
        let k1 = e1[0].key;
        let k2 = e2[0].key;
        // The head key of a sorted table is the least key of its map, so the
        // two heads agree.
        if k1 != k2 {
            lemma_tbl_map_dom(e2, k1);
            let i = choose|i: int| 0 <= i < e2.len() && e2[i].key == k1;
            lemma_tbl_map_dom(e1, k2);
            let j = choose|j: int| 0 <= j < e1.len() && e1[j].key == k2;
            lemma_lex_trichotomy(k1, k2);
            if i > 0 {
                assert(lex_lt(k2, e2[i].key));
            }
            if j > 0 {
                assert(lex_lt(k1, e1[j].key));
            }
            assert(false);
        }
        assert(e1[0].stats() == e2[0].stats());
        let t1 = e1.drop_first();
        let t2 = e2.drop_first();
        assert(sorted_keys(t1)) by {
            assert forall|i: int, j: int| 0 <= i < j < t1.len() implies lex_lt(
                #[trigger] t1[i].key,
                #[trigger] t1[j].key,
            ) by {
                assert(e1[i + 1].key == t1[i].key);
                assert(e1[j + 1].key == t1[j].key);
            }
        }
        assert(sorted_keys(t2)) by {
            assert forall|i: int, j: int| 0 <= i < j < t2.len() implies lex_lt(
                #[trigger] t2[i].key,
                #[trigger] t2[j].key,
            ) by {
                assert(e2[i + 1].key == t2[i].key);
                assert(e2[j + 1].key == t2[j].key);
            }
        }
        lemma_sorted_map_eq(t1, t2);
        assert(e1[0].min == e2[0].min && e1[0].max == e2[0].max && e1[0].total == e2[0].total
            && e1[0].count == e2[0].count);
        assert forall|i: int| 0 <= i < e1.len() implies e1[i] == e2[i] by {
            if i > 0 {
                assert(e1[i] == t1[i - 1]);
                assert(e2[i] == t2[i - 1]);
            }
        }
        assert(e1 =~= e2);
    }
}

/// How many record sightings a table has absorbed in all.
pub open spec fn sum_counts(es: Seq<EntryV>) -> int
    decreases es.len(),
{
    if es.len() == 0 {
        0
    } else {
        es[0].count + sum_counts(es.drop_first())
    }
}

pub proof fn lemma_sum_counts_nonneg(es: Seq<EntryV>)
    ensures
        sum_counts(es) >= 0,
        forall|i: int| 0 <= i < es.len() ==> (#[trigger] es[i]).count <= sum_counts(es),
    decreases es.len(),
{
    if es.len() > 0 {
        lemma_sum_counts_nonneg(es.drop_first());
        assert forall|i: int| 0 <= i < es.len() implies (#[trigger] es[i]).count <= sum_counts(
            es,
        ) by {
            if i > 0 {
                assert(es.drop_first()[i - 1] == es[i]);
            }
        }
    }
}

/// Folding one record raises the absorbed total by exactly one.
pub proof fn lemma_ins_sum(es: Seq<EntryV>, key: Seq<u8>, v: int)
    ensures
        sum_counts(ins(es, key, v)) == sum_counts(es) + 1,
    decreases es.len(),
{
    let r = ins(es, key, v);
    if es.len() == 0 {
        assert(r.drop_first() =~= Seq::<EntryV>::empty());
        assert(r[0] == entry_one(key, v));
        assert(sum_counts(r) == 1 + sum_counts(r.drop_first()));
    } else if lex_lt(es[0].key, key) {
        lemma_ins_sum(es.drop_first(), key, v);
        assert(r.drop_first() =~= ins(es.drop_first(), key, v));
        assert(r[0] == es[0]);
        assert(sum_counts(r) == r[0].count + sum_counts(r.drop_first()));
        assert(sum_counts(es) == es[0].count + sum_counts(es.drop_first()));
    } else if es[0].key == key {
        assert(r.drop_first() =~= es.drop_first());
        assert(r[0] == entry_upd(es[0], v));
        assert(sum_counts(r) == r[0].count + sum_counts(r.drop_first()));
        assert(sum_counts(es) == es[0].count + sum_counts(es.drop_first()));
    } else {
        assert(r.drop_first() =~= es);
        assert(r[0] == entry_one(key, v));
        assert(sum_counts(r) == 1 + sum_counts(r.drop_first()));
    }
}

/// A table aggregated from records has absorbed exactly those records.
pub proof fn lemma_agg_seq_sum(rs: Seq<Rec>)
    ensures
        sum_counts(agg_seq(rs)) == rs.len(),
    decreases rs.len(),
{
    if rs.len() > 0 {
        lemma_agg_seq_sum(rs.drop_last());
        lemma_ins_sum(agg_seq(rs.drop_last()), rs.last().key, rs.last().val);
    }
}

/// A key absent from the right map joins from the left side alone.
pub proof fn lemma_combine_insert_l(m1: StatsMap, m2: StatsMap, k: Seq<u8>, s: Stats)
    requires
        !m2.contains_key(k),
    ensures
        combine(m1.insert(k, s), m2) == combine(m1, m2).insert(k, s),
{
    assert(combine(m1.insert(k, s), m2) =~= combine(m1, m2).insert(k, s));
}

/// A key absent from the left map joins from the right side alone.
pub proof fn lemma_combine_insert_r(m1: StatsMap, m2: StatsMap, k: Seq<u8>, s: Stats)
    requires
        !m1.contains_key(k),
    ensures
        combine(m1, m2.insert(k, s)) == combine(m1, m2).insert(k, s),
{
    assert(combine(m1, m2.insert(k, s)) =~= combine(m1, m2).insert(k, s));
}

/// A key inserted on both sides joins to the join of the two statistics.
pub proof fn lemma_combine_insert_both(m1: StatsMap, m2: StatsMap, k: Seq<u8>, s1: Stats, s2: Stats)
    ensures
        combine(m1.insert(k, s1), m2.insert(k, s2)) == combine(m1, m2).insert(
            k,
            stats_join(s1, s2),
        ),
{
    assert(combine(m1.insert(k, s1), m2.insert(k, s2)) =~= combine(m1, m2).insert(
        k,
        stats_join(s1, s2),
    ));
}

/// Folding one record grows a table by at most one entry.
pub proof fn lemma_ins_len(es: Seq<EntryV>, key: Seq<u8>, v: int)
    ensures
        es.len() <= ins(es, key, v).len() <= es.len() + 1,
    decreases es.len(),
{
    if es.len() > 0 && lex_lt(es[0].key, key) {
        lemma_ins_len(es.drop_first(), key, v);
    }
}

/// A scan that has passed `i` entries whose keys lie below the new key may
/// insert into the remainder: the passed prefix stays put.
pub proof fn lemma_ins_skip(es: Seq<EntryV>, key: Seq<u8>, v: int, i: int)
    requires
        0 <= i <= es.len(),
        forall|j: int| 0 <= j < i ==> lex_lt((#[trigger] es[j]).key, key),
    ensures
        ins(es, key, v) == es.take(i) + ins(es.skip(i), key, v),
    decreases i,
{
    if i == 0 {
        assert(es.skip(0) =~= es);
        assert(es.take(0) + ins(es, key, v) =~= ins(es, key, v));
    } else {
        let tail = es.drop_first();
        assert(lex_lt(es[0].key, key));
        assert forall|j: int| 0 <= j < i - 1 implies lex_lt((#[trigger] tail[j]).key, key) by {
            assert(tail[j] == es[j + 1]);
        }
        lemma_ins_skip(tail, key, v, i - 1);
        assert(tail.skip(i - 1) =~= es.skip(i));
        assert(ins(es, key, v) == seq![es[0]] + (tail.take(i - 1) + ins(
            tail.skip(i - 1),
            key,
            v,
        )));
        assert(seq![es[0]] + (tail.take(i - 1) + ins(es.skip(i), key, v)) =~= es.take(i) + ins(
            es.skip(i),
            key,
            v,
        ));
    }
}

/// The values of a value sequence, paired with one fixed key.
pub open spec fn recs_of(key: Seq<u8>, vals: Seq<int>) -> Seq<Rec> {
    Seq::new(vals.len(), |i: int| Rec { key: key, val: vals[i] })
}

pub open spec fn seq_min(vals: Seq<int>) -> int
    decreases vals.len(),
{
    if vals.len() == 0 {
        0
    } else if vals.len() == 1 {
        vals[0]
    } else {
        min(seq_min(vals.drop_last()), vals.last())
    }
}

pub open spec fn seq_max(vals: Seq<int>) -> int
    decreases vals.len(),
{
    if vals.len() == 0 {
        0
    } else if vals.len() == 1 {
        vals[0]
    } else {
        max(seq_max(vals.drop_last()), vals.last())
    }
}

pub open spec fn seq_sum(vals: Seq<int>) -> int
    decreases vals.len(),
{
    if vals.len() == 0 {
        0
    } else {
        seq_sum(vals.drop_last()) + vals.last()
    }
}

/// Round-trip aggregation: one key seen `n` times carries exactly the
/// arithmetic minimum, maximum, total and count of its `n` values. The mean
/// rendered for such an entry is fixed by the formatter's contract as
/// `mean_scaled(total, count)`.
pub proof fn lemma_round_trip(key: Seq<u8>, vals: Seq<int>)
    requires
        vals.len() >= 1,
    ensures
        agg_map(recs_of(key, vals)).dom() == set![key],
        agg_map(recs_of(key, vals))[key].min == seq_min(vals),
        agg_map(recs_of(key, vals))[key].max == seq_max(vals),
        agg_map(recs_of(key, vals))[key].total == seq_sum(vals),
        agg_map(recs_of(key, vals))[key].count == vals.len(),
    decreases vals.len(),
{
    let rs = recs_of(key, vals);
    if vals.len() == 1 {
        assert(rs.drop_last() =~= Seq::<Rec>::empty());
        assert(agg_map(rs.drop_last()) == Map::<Seq<u8>, Stats>::empty());
        assert(!Map::<Seq<u8>, Stats>::empty().contains_key(key));
        assert(agg_map(rs) == Map::<Seq<u8>, Stats>::empty().insert(key, stats_one(vals[0])));
        assert(agg_map(rs)[key] == stats_one(vals[0]));
        assert(seq_sum(vals.drop_last()) == 0);
        assert(seq_sum(vals) == vals[0]);
        assert(agg_map(rs).dom() =~= set![key]);
    } else {
        assert(rs.drop_last() =~= recs_of(key, vals.drop_last()));
        lemma_round_trip(key, vals.drop_last());
        let prev = agg_map(recs_of(key, vals.drop_last()));
        assert(prev.contains_key(key));
        assert(agg_map(rs) == prev.insert(key, stats_add(prev[key], vals.last())));
        assert(agg_map(rs).dom() =~= set![key]);
    }
}

} // verus!
