//! The merge reducer.
//!
//! Two aggregation results, each sorted by key, combine into one sorted
//! result in a single two-pointer pass: equal keys join their statistics,
//! unequal keys are emitted in order. The merged table stands for the
//! pointwise join of the two maps, so merging is commutative and associative
//! up to the canonical sorted form.

use vstd::prelude::*;

verus! {

use vstd::math::min;
use vstd::math::max;
use crate::order::KeyOrd;
use crate::order::key_cmp;
use crate::order::lex_lt;
use crate::order::lemma_lex_trans;
use crate::order::lemma_lex_trichotomy;
use crate::stats::EntryV;
use crate::stats::combine;
use crate::stats::entries_bounded;
use crate::stats::lemma_combine_insert_both;
use crate::stats::lemma_combine_insert_l;
use crate::stats::lemma_combine_insert_r;
use crate::stats::sorted_keys;
use crate::stats::stats_join;
use crate::stats::sum_counts;
use crate::stats::lemma_sum_counts_nonneg;
use crate::stats::tbl_map;
use crate::table::Summary;
use crate::table::views;
use crate::table::SummaryEntry;

/// One entry for a key seen on both sides.
pub open spec fn join_entry(x: EntryV, y: EntryV) -> EntryV {
    EntryV {
        key: x.key,
        min: min(x.min, y.min),
        max: max(x.max, y.max),
        total: x.total + y.total,
        count: x.count + y.count,
    }
}

/// The two-pointer merge of two sorted tables.
pub open spec fn merge_seq(a: Seq<EntryV>, b: Seq<EntryV>) -> Seq<EntryV>
    decreases a.len() + b.len(),
{
    if a.len() == 0 {
        b
    } else if b.len() == 0 {
        a
    } else if lex_lt(a[0].key, b[0].key) {
        seq![a[0]] + merge_seq(a.drop_first(), b)
    } else if a[0].key == b[0].key {
        seq![join_entry(a[0], b[0])] + merge_seq(a.drop_first(), b.drop_first())
    } else {
        seq![b[0]] + merge_seq(a, b.drop_first())
    }
}

proof fn lemma_sorted_drop_first(es: Seq<EntryV>)
    requires
        sorted_keys(es),
        es.len() > 0,
    ensures
        sorted_keys(es.drop_first()),
        entries_bounded(es) ==> entries_bounded(es.drop_first()),
{
    let t = es.drop_first();
    assert forall|i: int, j: int| 0 <= i < j < t.len() implies lex_lt(
        (#[trigger] t[i]).key,
        (#[trigger] t[j]).key,
    ) by {
        assert(es[i + 1] == t[i]);
        assert(es[j + 1] == t[j]);
    }
    if entries_bounded(es) {
        assert forall|i: int| 0 <= i < t.len() implies crate::stats::entry_bounds(
            #[trigger] t[i],
        ) by {
            assert(es[i + 1] == t[i]);
        }
    }
}

/// What the merge of two sorted tables is: sorted again, standing for the
/// joined map, drawing its keys from the two sides, bounded when they are,
/// and absorbing the sightings of both.
pub proof fn lemma_merge_seq(a: Seq<EntryV>, b: Seq<EntryV>)
    requires
        sorted_keys(a),
        sorted_keys(b),
    ensures
        sorted_keys(merge_seq(a, b)),
        tbl_map(merge_seq(a, b)) == combine(tbl_map(a), tbl_map(b)),
        forall|j: int|
            0 <= j < merge_seq(a, b).len() ==> (exists|i: int|
                0 <= i < a.len() && a[i].key == (#[trigger] merge_seq(a, b)[j]).key) || (
            exists|i: int| 0 <= i < b.len() && b[i].key == merge_seq(a, b)[j].key),
        entries_bounded(a) && entries_bounded(b) ==> entries_bounded(merge_seq(a, b)),
        sum_counts(merge_seq(a, b)) == sum_counts(a) + sum_counts(b),
    decreases a.len() + b.len(),
{
    let r = merge_seq(a, b);
    if a.len() == 0 {
        crate::stats::lemma_combine_empty_l(tbl_map(b));
    } else if b.len() == 0 {
        crate::stats::lemma_combine_empty_r(tbl_map(a));
    } else if lex_lt(a[0].key, b[0].key) {
        lemma_sorted_drop_first(a);
        lemma_merge_seq(a.drop_first(), b);
        let m = merge_seq(a.drop_first(), b);
        assert(r == seq![a[0]] + m);
        assert(r.drop_first() =~= m);
        // The emitted head key lies below every key of the rest.
        assert forall|i: int, j: int| 0 <= i < j < r.len() implies lex_lt(
            (#[trigger] r[i]).key,
            (#[trigger] r[j]).key,
        ) by {
            if i == 0 {
                assert(r[j].key == m[j - 1].key);
                if exists|w: int| 0 <= w < a.drop_first().len() && a.drop_first()[w].key == m[j
                    - 1].key {
                    let w = choose|w: int|
                        0 <= w < a.drop_first().len() && a.drop_first()[w].key == m[j - 1].key;
                    assert(a[w + 1].key == m[j - 1].key);
                } else {
                    let w = choose|w: int| 0 <= w < b.len() && b[w].key == m[j - 1].key;
                    if w > 0 {
                        lemma_lex_trans(a[0].key, b[0].key, b[w].key);
                    }
                }
            } else {
                assert(r[i].key == m[i - 1].key);
                assert(r[j].key == m[j - 1].key);
            }
        }
        // The head key is fresh on the right, so its insert joins from the left.
        crate::stats::lemma_tbl_map_dom(b, a[0].key);
        if tbl_map(b).contains_key(a[0].key) {
            let w = choose|w: int| 0 <= w < b.len() && b[w].key == a[0].key;
            if w > 0 {
                lemma_lex_trans(a[0].key, b[0].key, b[w].key);
            }
            lemma_lex_trichotomy(a[0].key, b[w].key);
            assert(false);
        }
        lemma_combine_insert_l(tbl_map(a.drop_first()), tbl_map(b), a[0].key, a[0].stats());
        assert(tbl_map(a) == tbl_map(a.drop_first()).insert(a[0].key, a[0].stats()));
        assert(tbl_map(r) == tbl_map(m).insert(a[0].key, a[0].stats()));
        assert forall|j: int| 0 <= j < r.len() implies (exists|i: int|
            0 <= i < a.len() && a[i].key == (#[trigger] r[j]).key) || (exists|i: int|
            0 <= i < b.len() && b[i].key == r[j].key) by {
            if j == 0 {
                assert(a[0].key == r[0].key);
            } else {
                assert(r[j].key == m[j - 1].key);
                if exists|w: int| 0 <= w < a.drop_first().len() && a.drop_first()[w].key == m[j
                    - 1].key {
                    let w = choose|w: int|
                        0 <= w < a.drop_first().len() && a.drop_first()[w].key == m[j - 1].key;
                    assert(a[w + 1].key == r[j].key);
                }
            }
        }
        if entries_bounded(a) && entries_bounded(b) {
            assert forall|i: int| 0 <= i < r.len() implies crate::stats::entry_bounds(
                #[trigger] r[i],
            ) by {
                if i == 0 {
                    assert(crate::stats::entry_bounds(a[0]));
                } else {
                    assert(r[i] == m[i - 1]);
                }
            }
        }
    } else if a[0].key == b[0].key {
        lemma_sorted_drop_first(a);
        lemma_sorted_drop_first(b);
        lemma_merge_seq(a.drop_first(), b.drop_first());
        let m = merge_seq(a.drop_first(), b.drop_first());
        let h = join_entry(a[0], b[0]);
        assert(r == seq![h] + m);
        assert(r.drop_first() =~= m);
        assert forall|i: int, j: int| 0 <= i < j < r.len() implies lex_lt(
            (#[trigger] r[i]).key,
            (#[trigger] r[j]).key,
        ) by {
            if i == 0 {
                assert(r[j].key == m[j - 1].key);
                if exists|w: int| 0 <= w < a.drop_first().len() && a.drop_first()[w].key == m[j
                    - 1].key {
                    let w = choose|w: int|
                        0 <= w < a.drop_first().len() && a.drop_first()[w].key == m[j - 1].key;
                    assert(a[w + 1].key == m[j - 1].key);
                } else {
                    let w = choose|w: int|
                        0 <= w < b.drop_first().len() && b.drop_first()[w].key == m[j - 1].key;
                    assert(b[w + 1].key == m[j - 1].key);
                }
            } else {
                assert(r[i].key == m[i - 1].key);
                assert(r[j].key == m[j - 1].key);
            }
        }
        crate::stats::lemma_tbl_map_dom(a.drop_first(), a[0].key);
        if tbl_map(a.drop_first()).contains_key(a[0].key) {
            let w = choose|w: int|
                0 <= w < a.drop_first().len() && a.drop_first()[w].key == a[0].key;
            assert(lex_lt(a[0].key, a[w + 1].key));
            lemma_lex_trichotomy(a[0].key, a[w + 1].key);
            assert(false);
        }
        crate::stats::lemma_tbl_map_dom(b.drop_first(), b[0].key);
        if tbl_map(b.drop_first()).contains_key(b[0].key) {
            let w = choose|w: int|
                0 <= w < b.drop_first().len() && b.drop_first()[w].key == b[0].key;
            assert(lex_lt(b[0].key, b[w + 1].key));
            lemma_lex_trichotomy(b[0].key, b[w + 1].key);
            assert(false);
        }
        lemma_combine_insert_both(
            tbl_map(a.drop_first()),
            tbl_map(b.drop_first()),
            a[0].key,
            a[0].stats(),
            b[0].stats(),
        );
        assert(h.stats() == stats_join(a[0].stats(), b[0].stats()));
        assert(tbl_map(r) == tbl_map(m).insert(h.key, h.stats()));
        assert forall|j: int| 0 <= j < r.len() implies (exists|i: int|
            0 <= i < a.len() && a[i].key == (#[trigger] r[j]).key) || (exists|i: int|
            0 <= i < b.len() && b[i].key == r[j].key) by {
            if j == 0 {
                assert(a[0].key == r[0].key);
            } else {
                assert(r[j].key == m[j - 1].key);
                if exists|w: int| 0 <= w < a.drop_first().len() && a.drop_first()[w].key == m[j
                    - 1].key {
                    let w = choose|w: int|
                        0 <= w < a.drop_first().len() && a.drop_first()[w].key == m[j - 1].key;
                    assert(a[w + 1].key == r[j].key);
                } else {
                    let w = choose|w: int|
                        0 <= w < b.drop_first().len() && b.drop_first()[w].key == m[j - 1].key;
                    assert(b[w + 1].key == r[j].key);
                }
            }
        }
        if entries_bounded(a) && entries_bounded(b) {
            assert forall|i: int| 0 <= i < r.len() implies crate::stats::entry_bounds(
                #[trigger] r[i],
            ) by {
                if i == 0 {
                    assert(crate::stats::entry_bounds(a[0]));
                    assert(crate::stats::entry_bounds(b[0]));
                    assert((a[0].count + b[0].count) * crate::VAL_MAX as int == a[0].count
                        * crate::VAL_MAX as int + b[0].count * crate::VAL_MAX as int)
                        by (nonlinear_arith);
                } else {
                    assert(r[i] == m[i - 1]);
                }
            }
        }
    } else {
        lemma_lex_trichotomy(a[0].key, b[0].key);
        lemma_sorted_drop_first(b);
        lemma_merge_seq(a, b.drop_first());
        let m = merge_seq(a, b.drop_first());
        assert(r == seq![b[0]] + m);
        assert(r.drop_first() =~= m);
        assert forall|i: int, j: int| 0 <= i < j < r.len() implies lex_lt(
            (#[trigger] r[i]).key,
            (#[trigger] r[j]).key,
        ) by {
            if i == 0 {
                assert(r[j].key == m[j - 1].key);
                if exists|w: int| 0 <= w < a.len() && a[w].key == m[j - 1].key {
                    let w = choose|w: int| 0 <= w < a.len() && a[w].key == m[j - 1].key;
                    if w > 0 {
                        lemma_lex_trans(b[0].key, a[0].key, a[w].key);
                    }
                } else {
                    let w = choose|w: int|
                        0 <= w < b.drop_first().len() && b.drop_first()[w].key == m[j - 1].key;
                    assert(b[w + 1].key == m[j - 1].key);
                }
            } else {
                assert(r[i].key == m[i - 1].key);
                assert(r[j].key == m[j - 1].key);
            }
        }
        crate::stats::lemma_tbl_map_dom(a, b[0].key);
        if tbl_map(a).contains_key(b[0].key) {
            let w = choose|w: int| 0 <= w < a.len() && a[w].key == b[0].key;
            if w > 0 {
                lemma_lex_trans(b[0].key, a[0].key, a[w].key);
            }
            lemma_lex_trichotomy(b[0].key, a[w].key);
            assert(false);
        }
        lemma_combine_insert_r(tbl_map(a), tbl_map(b.drop_first()), b[0].key, b[0].stats());
        assert(tbl_map(b) == tbl_map(b.drop_first()).insert(b[0].key, b[0].stats()));
        assert(tbl_map(r) == tbl_map(m).insert(b[0].key, b[0].stats()));
        assert forall|j: int| 0 <= j < r.len() implies (exists|i: int|
            0 <= i < a.len() && a[i].key == (#[trigger] r[j]).key) || (exists|i: int|
            0 <= i < b.len() && b[i].key == r[j].key) by {
            if j == 0 {
                assert(b[0].key == r[0].key);
            } else {
                assert(r[j].key == m[j - 1].key);
                if !(exists|w: int| 0 <= w < a.len() && a[w].key == m[j - 1].key) {
                    let w = choose|w: int|
                        0 <= w < b.drop_first().len() && b.drop_first()[w].key == m[j - 1].key;
                    assert(b[w + 1].key == r[j].key);
                }
            }
        }
        if entries_bounded(a) && entries_bounded(b) {
            assert forall|i: int| 0 <= i < r.len() implies crate::stats::entry_bounds(
                #[trigger] r[i],
            ) by {
                if i == 0 {
                    assert(crate::stats::entry_bounds(b[0]));
                } else {
                    assert(r[i] == m[i - 1]);
                }
            }
        }
    }
}

/// Merge order-independence, one half: merging two sorted tables in either
/// order yields the same table.
pub proof fn lemma_merge_seq_comm(a: Seq<EntryV>, b: Seq<EntryV>)
    requires
        sorted_keys(a),
        sorted_keys(b),
    ensures
        merge_seq(a, b) == merge_seq(b, a),
{
    lemma_merge_seq(a, b);
    lemma_merge_seq(b, a);
    crate::stats::lemma_combine_comm(tbl_map(a), tbl_map(b));
    crate::stats::lemma_sorted_map_eq(merge_seq(a, b), merge_seq(b, a));
}

/// Merge order-independence, the other half: any merge-tree shape over
/// sorted tables yields the same table, so a reduction over worker results
/// may pair them arbitrarily.
pub proof fn lemma_merge_seq_assoc(a: Seq<EntryV>, b: Seq<EntryV>, c: Seq<EntryV>)
    requires
        sorted_keys(a),
        sorted_keys(b),
        sorted_keys(c),
    ensures
        merge_seq(merge_seq(a, b), c) == merge_seq(a, merge_seq(b, c)),
{
    lemma_merge_seq(a, b);
    lemma_merge_seq(b, c);
    lemma_merge_seq(merge_seq(a, b), c);
    lemma_merge_seq(a, merge_seq(b, c));
    crate::stats::lemma_combine_assoc(tbl_map(a), tbl_map(b), tbl_map(c));
    crate::stats::lemma_sorted_map_eq(merge_seq(merge_seq(a, b), c), merge_seq(a, merge_seq(b, c)));
}

impl Summary {
    /// Merges two sorted per-slice results into one sorted result: equal
    /// keys join their statistics, all other entries carry over in order.
    #[verifier::loop_isolation(false)]
    pub fn merge(self, other: Self) -> (r: Self)
        requires
            sorted_keys(self@),
            sorted_keys(other@),
            entries_bounded(self@),
            entries_bounded(other@),
            sum_counts(self@) + sum_counts(other@) <= u64::MAX as int,
        ensures
            r@ == merge_seq(self@, other@),
    {
        let ghost av0 = self@;
        let ghost bv0 = other@;
        let mut a = self.data;
        let mut b = other.data;
        let mut out: Vec<SummaryEntry> = Vec::new();
        proof {
            assert(views(out@) + merge_seq(views(a@), views(b@)) =~= merge_seq(av0, bv0));
            lemma_sum_counts_nonneg(views(a@));
            lemma_sum_counts_nonneg(views(b@));
        }
        loop
            invariant
                merge_seq(av0, bv0) == views(out@) + merge_seq(views(a@), views(b@)),
                sorted_keys(views(a@)),
                sorted_keys(views(b@)),
                entries_bounded(views(a@)),
                entries_bounded(views(b@)),
                sum_counts(views(a@)) + sum_counts(views(b@)) <= u64::MAX as int,
            decreases a@.len() + b@.len(),
        {
            let ghost va = views(a@);
            let ghost vb = views(b@);
            proof {
                lemma_sum_counts_nonneg(va);
                lemma_sum_counts_nonneg(vb);
            }
            if a.len() == 0 && b.len() == 0 {
                proof {
                    assert(va.len() == 0 && vb.len() == 0);
                    assert(merge_seq(va, vb) =~= Seq::<EntryV>::empty());
                    assert(views(out@) + merge_seq(va, vb) =~= views(out@));
                }
                return Summary { data: out };
            }
            if b.len() == 0 {
                let e = a.remove(0);
                out.push(e);
                proof {
                    assert(views(a@) =~= va.drop_first());
                    assert(merge_seq(va, vb) == va);
                    assert(va =~= seq![e@] + va.drop_first());
                    assert(merge_seq(va.drop_first(), vb) == va.drop_first());
                    assert(views(out@) =~= views(out@.drop_last()) + seq![e@]);
                    assert(views(out@) + merge_seq(views(a@), vb) =~= merge_seq(av0, bv0));
                    lemma_sorted_drop_first(va);
                }
                continue ;
            }
            if a.len() == 0 {
                let e = b.remove(0);
                out.push(e);
                proof {
                    assert(views(b@) =~= vb.drop_first());
                    assert(merge_seq(va, vb) == vb);
                    assert(vb =~= seq![e@] + vb.drop_first());
                    assert(merge_seq(va, vb.drop_first()) == vb.drop_first());
                    assert(views(out@) =~= views(out@.drop_last()) + seq![e@]);
                    assert(views(out@) + merge_seq(va, views(b@)) =~= merge_seq(av0, bv0));
                    lemma_sorted_drop_first(vb);
                }
                continue ;
            }
            let ord = key_cmp(&a[0].name, &b[0].name);
            if ord == KeyOrd::Less {
                let e = a.remove(0);
                out.push(e);
                proof {
                    assert(lex_lt(va[0].key, vb[0].key));
                    assert(views(a@) =~= va.drop_first());
                    assert(merge_seq(va, vb) == seq![e@] + merge_seq(va.drop_first(), vb));
                    assert(views(out@) =~= views(out@.drop_last()) + seq![e@]);
                    assert(views(out@) + merge_seq(views(a@), vb) =~= merge_seq(av0, bv0));
                    lemma_sorted_drop_first(va);
                }
            } else if ord == KeyOrd::Equal {
                let ea = a.remove(0);
                let eb = b.remove(0);
                proof {
                    assert(ea@ == va[0] && eb@ == vb[0]);
                    assert(crate::stats::entry_bounds(va[0]));
                    assert(crate::stats::entry_bounds(vb[0]));
                    let ca = va[0].count as int;
                    let cb = vb[0].count as int;
                    assert(ca + cb <= u64::MAX as int);
                    assert((ca + cb) * crate::VAL_MAX as int == ca * crate::VAL_MAX as int + cb
                        * crate::VAL_MAX as int) by (nonlinear_arith);
                    assert((ca + cb) * crate::VAL_MAX as int <= u64::MAX as int
                        * crate::VAL_MAX as int) by (nonlinear_arith)
                        requires
                            0 <= ca + cb <= u64::MAX as int,
                    ;
                }
                let e = SummaryEntry {
                    name: ea.name,
                    min: if ea.min <= eb.min {
                        ea.min
                    } else {
                        eb.min
                    },
                    max: if ea.max >= eb.max {
                        ea.max
                    } else {
                        eb.max
                    },
                    total: ea.total + eb.total,
                    count: ea.count + eb.count,
                };
                out.push(e);
                proof {
                    assert(e@ == join_entry(va[0], vb[0]));
                    assert(views(a@) =~= va.drop_first());
                    assert(views(b@) =~= vb.drop_first());
                    assert(merge_seq(va, vb) == seq![e@] + merge_seq(
                        va.drop_first(),
                        vb.drop_first(),
                    ));
                    assert(views(out@) =~= views(out@.drop_last()) + seq![e@]);
                    assert(views(out@) + merge_seq(views(a@), views(b@)) =~= merge_seq(av0, bv0));
                    lemma_sorted_drop_first(va);
                    lemma_sorted_drop_first(vb);
                }
            } else {
                let e = b.remove(0);
                out.push(e);
                proof {
                    assert(lex_lt(vb[0].key, va[0].key));
                    lemma_lex_trichotomy(va[0].key, vb[0].key);
                    assert(views(b@) =~= vb.drop_first());
                    assert(merge_seq(va, vb) == seq![e@] + merge_seq(va, vb.drop_first()));
                    assert(views(out@) =~= views(out@.drop_last()) + seq![e@]);
                    assert(views(out@) + merge_seq(va, views(b@)) =~= merge_seq(av0, bv0));
                    lemma_sorted_drop_first(vb);
                }
            }
        }
    }
}

} // verus!
