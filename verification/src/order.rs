//! Byte-lexicographic order on keys.
//!
//! Aggregation tables are drained and merged in ascending byte order of the
//! raw key bytes, so the whole pipeline rests on one strict total order over
//! byte sequences.

use vstd::prelude::*;

verus! {

/// Strict byte-lexicographic order: `a` comes before `b` when, at the first
/// position where they differ, `a` holds the smaller byte, or `a` is a
/// proper prefix of `b`.
pub open spec fn lex_lt(a: Seq<u8>, b: Seq<u8>) -> bool
    decreases a.len(),
{
    if b.len() == 0 {
        false
    } else if a.len() == 0 {
        true
    } else if a[0] < b[0] {
        true
    } else if a[0] > b[0] {
        false
    } else {
        lex_lt(a.drop_first(), b.drop_first())
    }
}

/// Of `lex_lt(a, b)`, `a == b` and `lex_lt(b, a)`, exactly one holds.
pub proof fn lemma_lex_trichotomy(a: Seq<u8>, b: Seq<u8>)
    ensures
        lex_lt(a, b) || a == b || lex_lt(b, a),
        lex_lt(a, b) ==> !lex_lt(b, a) && a != b,
        lex_lt(b, a) ==> !lex_lt(a, b) && a != b,
    decreases a.len(),
{
    if a.len() == 0 && b.len() == 0 {
        assert(a =~= b);
    } else if a.len() > 0 && b.len() > 0 && a[0] == b[0] {
        lemma_lex_trichotomy(a.drop_first(), b.drop_first());
        if a.drop_first() == b.drop_first() {
            assert forall|i: int| 0 <= i < a.len() implies a[i] == b[i] by {
                if i > 0 {
                    assert(a[i] == a.drop_first()[i - 1]);
                    assert(b[i] == b.drop_first()[i - 1]);
                }
            }
            assert(a =~= b);
        }
        if a == b {
            assert(a.drop_first() =~= b.drop_first());
        }
    }
}

/// The order is transitive.
pub proof fn lemma_lex_trans(a: Seq<u8>, b: Seq<u8>, c: Seq<u8>)
    requires
        lex_lt(a, b),
        lex_lt(b, c),
    ensures
        lex_lt(a, c),
    decreases a.len(),
{
    if a.len() > 0 && b.len() > 0 && c.len() > 0 {
        if a[0] == b[0] && b[0] == c[0] {
            lemma_lex_trans(a.drop_first(), b.drop_first(), c.drop_first());
        }
    }
}

/// Outcome of comparing two keys.
#[derive(Debug, Clone, Copy, PartialEq, Eq, Structural)]
pub enum KeyOrd {
    Less,
    Equal,
    Greater,
}

proof fn lemma_lex_head_step(a: Seq<u8>, b: Seq<u8>, i: int)
    requires
        0 <= i < a.len(),
        i < b.len(),
        a[i] == b[i],
    ensures
        lex_lt(a.skip(i), b.skip(i)) == lex_lt(a.skip(i + 1), b.skip(i + 1)),
{
    assert(a.skip(i).drop_first() =~= a.skip(i + 1));
    assert(b.skip(i).drop_first() =~= b.skip(i + 1));
}

/// Compares two keys in byte-lexicographic order.
pub fn key_cmp(a: &Vec<u8>, b: &Vec<u8>) -> (r: KeyOrd)
    ensures
        (r == KeyOrd::Less) == lex_lt(a@, b@),
        (r == KeyOrd::Equal) == (a@ == b@),
        (r == KeyOrd::Greater) == lex_lt(b@, a@),
{
    proof {
        lemma_lex_trichotomy(a@, b@);
        assert(a@.skip(0) =~= a@);
        assert(b@.skip(0) =~= b@);
        assert(a@.take(0) =~= b@.take(0));
    }
    let mut i: usize = 0;
    loop
        invariant
            i <= a@.len(),
            i <= b@.len(),
            a@.take(i as int) == b@.take(i as int),
            lex_lt(a@, b@) == lex_lt(a@.skip(i as int), b@.skip(i as int)),
            lex_lt(b@, a@) == lex_lt(b@.skip(i as int), a@.skip(i as int)),
            lex_lt(a@, b@) || a@ == b@ || lex_lt(b@, a@),
            lex_lt(a@, b@) ==> !lex_lt(b@, a@) && a@ != b@,
            lex_lt(b@, a@) ==> !lex_lt(a@, b@) && a@ != b@,
        decreases a@.len() - i,
    {
        if i == a.len() {
            if i == b.len() {
                proof {
                    assert(a@.take(i as int) =~= a@);
                    assert(b@.take(i as int) =~= b@);
                }
                return KeyOrd::Equal;
            }
            assert(lex_lt(a@.skip(i as int), b@.skip(i as int)));
            return KeyOrd::Less;
        }
        if i == b.len() {
            assert(lex_lt(b@.skip(i as int), a@.skip(i as int)));
            return KeyOrd::Greater;
        }
        let ab = a[i];
        let bb = b[i];
        if ab < bb {
            assert(lex_lt(a@.skip(i as int), b@.skip(i as int)));
            return KeyOrd::Less;
        }
        if ab > bb {
            assert(lex_lt(b@.skip(i as int), a@.skip(i as int)));
            return KeyOrd::Greater;
        }
        proof {
            lemma_lex_head_step(a@, b@, i as int);
            lemma_lex_head_step(b@, a@, i as int);
            assert(a@.take(i + 1 as int) =~= b@.take(i + 1 as int));
        }
        i = i + 1;
    }
}

} // verus!
