//! The aggregation table.
//!
//! One table is built per slice while scanning. It keys entries by the exact
//! key bytes and keeps them in strictly ascending byte-lexicographic order,
//! so each distinct key appears at most once and the drained table is already
//! sorted for the merge.

use vstd::prelude::*;

verus! {

use crate::order::KeyOrd;
use crate::order::key_cmp;
use crate::order::lex_lt;
use crate::stats::EntryV;
use crate::stats::entry_one;
use crate::stats::entry_upd;
use crate::stats::entries_bounded;
use crate::stats::counts_le;
use crate::stats::ins;
use crate::stats::lemma_ins_skip;
use crate::stats::sorted_keys;

/// One key's running aggregate: extrema, total and count of its scaled
/// values.
pub struct SummaryEntry {
    pub name: Vec<u8>,
    pub min: i64,
    pub max: i64,
    pub total: i128,
    pub count: u64,
}

impl View for SummaryEntry {
    type V = EntryV;

    open spec fn view(&self) -> EntryV {
        EntryV {
            key: self.name@,
            min: self.min as int,
            max: self.max as int,
            total: self.total as int,
            count: self.count as nat,
        }
    }
}

impl SummaryEntry {
    /// A fresh entry that has seen no value yet: the extrema start at the
    /// sentinels that any first value displaces.
    pub fn new(name: Vec<u8>) -> (r: Self)
        ensures
            r@.key == name@,
            r@.min == i64::MAX as int,
            r@.max == i64::MIN as int,
            r@.total == 0,
            r@.count == 0,
    {
        Self { name, min: i64::MAX, max: i64::MIN, total: 0, count: 0 }
    }

    /// Folds one more value into the aggregate.
    pub fn update(&mut self, value: i64)
        requires
            -(crate::VAL_MAX as int) <= value as int <= crate::VAL_MAX as int,
            old(self)@.count < u64::MAX as nat,
            -(old(self)@.count * crate::VAL_MAX as int) <= old(self)@.total <= old(
                self,
            )@.count * crate::VAL_MAX as int,
        ensures
            final(self)@ == entry_upd(old(self)@, value as int),
    {
        proof {
            let c = old(self)@.count;
            assert(c * crate::VAL_MAX as int <= u64::MAX as int * crate::VAL_MAX as int)
                by (nonlinear_arith)
                requires
                    c <= u64::MAX as nat,
            ;
        }
        if value < self.min {
            self.min = value;
        }
        if value > self.max {
            self.max = value;
        }
        self.total = self.total + value as i128;
        self.count = self.count + 1;
    }
}

/// A per-slice aggregation result: entries in strictly ascending key order.
pub struct Summary {
    pub data: Vec<SummaryEntry>,
}

/// The entry views a vector of entries stands for, in order.
pub open spec fn views(d: Seq<SummaryEntry>) -> Seq<EntryV> {
    Seq::new(d.len(), |i: int| d[i]@)
}

impl View for Summary {
    type V = Seq<EntryV>;

    open spec fn view(&self) -> Seq<EntryV> {
        views(self.data@)
    }
}

impl Summary {
    /// The empty table.
    pub fn new() -> (r: Self)
        ensures
            r@ == Seq::<EntryV>::empty(),
    {
        let r = Self { data: Vec::new() };
        proof {
            assert(r@ =~= Seq::<EntryV>::empty());
        }
        r
    }

    /// How many distinct keys the table holds.
    pub fn len(&self) -> (r: usize)
        ensures
            r == self@.len(),
    {
        self.data.len()
    }

    /// Folds one record into the table: updates the key's entry in place, or
    /// inserts a fresh one at its sorted position.
    pub fn update(&mut self, name: Vec<u8>, value: i64)
        requires
            sorted_keys(old(self)@),
            entries_bounded(old(self)@),
            counts_le(old(self)@, u64::MAX as int - 1),
            -(crate::VAL_MAX as int) <= value as int <= crate::VAL_MAX as int,
            old(self)@.len() < usize::MAX,
        ensures
            final(self)@ == ins(old(self)@, name@, value as int),
    {
        let ghost es = self@;
        let ghost key = name@;
        let ghost v = value as int;
        let mut i: usize = 0;
        loop
            invariant
                0 <= i <= self.data.len(),
                es == old(self)@,
                self@ == es,
                sorted_keys(es),
                entries_bounded(es),
                counts_le(es, u64::MAX as int - 1),
                es.len() < usize::MAX,
                -(crate::VAL_MAX as int) <= v <= crate::VAL_MAX as int,
                key == name@,
                v == value as int,
                forall|j: int| 0 <= j < i ==> lex_lt((#[trigger] es[j]).key, key),
            decreases self.data.len() - i,
        {
            proof {
                lemma_ins_skip(es, key, v, i as int);
            }
            if i == self.data.len() {
                // Every key is below the new one: append a fresh entry.
                let mut e = SummaryEntry::new(name);
                e.update(value);
                self.data.push(e);
                proof {
                    assert(es.skip(i as int) =~= Seq::<EntryV>::empty());
                    assert(e@ == entry_one(key, v));
                    assert(ins(es.skip(i as int), key, v) == seq![entry_one(key, v)]);
                    assert(self@ =~= es.take(i as int) + ins(es.skip(i as int), key, v));
                    assert(self@ == ins(es, key, v));
                }
                return ;
            }
            let ord = key_cmp(&self.data[i].name, &name);
            if ord == KeyOrd::Equal {
                proof {
                    assert(es[i as int].key == key);
                    crate::order::lemma_lex_trichotomy(es[i as int].key, key);
                }
                let mut e = self.data.remove(i);
                proof {
                    assert(e@ == es[i as int]);
                    assert(es[i as int].count <= u64::MAX as int - 1);
                }
                e.update(value);
                self.data.insert(i, e);
                proof {
                    let rest = es.skip(i as int);
                    assert(rest[0] == es[i as int]);
                    assert(!lex_lt(rest[0].key, key));
                    assert(ins(rest, key, v) == seq![entry_upd(rest[0], v)] + rest.drop_first());
                    assert(self@ =~= es.take(i as int) + ins(rest, key, v));
                    assert(self@ == ins(es, key, v));
                }
                return ;
            }
            if ord == KeyOrd::Greater {
                // The new key sorts before this entry: insert it here.
                let mut e = SummaryEntry::new(name);
                e.update(value);
                self.data.insert(i, e);
                proof {
                    let rest = es.skip(i as int);
                    assert(rest[0] == es[i as int]);
                    crate::order::lemma_lex_trichotomy(es[i as int].key, key);
                    assert(!lex_lt(rest[0].key, key) && rest[0].key != key);
                    assert(e@ == entry_one(key, v));
                    assert(ins(rest, key, v) == seq![entry_one(key, v)] + rest);
                    assert(self@ =~= es.take(i as int) + ins(rest, key, v));
                    assert(self@ == ins(es, key, v));
                }
                return ;
            }
            proof {
                assert(lex_lt(es[i as int].key, key));
            }
            i = i + 1;
        }
    }
}

} // verus!
