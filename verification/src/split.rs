//! Truncation and partitioning.
//!
//! Truncation rounds a caller's byte limit down to the end of the last
//! complete record, so no partial record is ever parsed. The partitioner
//! then cuts the truncated range into consecutive, record-aligned slices,
//! one per worker, by snapping proportional targets forward to line starts:
//! the slices cover the range exactly, with no overlap and no byte dropped.

use vstd::prelude::*;

verus! {

use vstd::arithmetic::div_mod::lemma_div_by_multiple;
use vstd::arithmetic::div_mod::lemma_div_is_ordered;
use vstd::arithmetic::div_mod::lemma_div_pos_is_pos;
use vstd::arithmetic::div_mod::lemma_div_nonincreasing;
use crate::records::find0;
use crate::records::lemma_find0;
use crate::records::lemma_find0_at;
use crate::scan::find_byte_from;

/// Where a record-aligned range may begin or end: at the buffer start, right
/// after a newline, or at the buffer end.
pub open spec fn aligned(s: Seq<u8>, p: int) -> bool {
    p == 0 || p == s.len() || s[p - 1] == 10
}

/// The forward snap of a target offset: the byte after the next newline at
/// or after the target, the buffer length if no newline follows, or the
/// target itself when it is zero.
pub open spec fn snap(s: Seq<u8>, t: int) -> int
    recommends
        0 <= t <= s.len(),
{
    if t == 0 {
        0
    } else {
        let p = t + find0(s.skip(t), 10);
        if p >= s.len() {
            s.len() as int
        } else {
            p + 1
        }
    }
}

/// A snapped offset lies between its target and the buffer end, on a record
/// boundary.
pub proof fn lemma_snap(s: Seq<u8>, t: int)
    requires
        0 <= t <= s.len(),
    ensures
        t <= snap(s, t) <= s.len(),
        aligned(s, snap(s, t)),
{
    if t != 0 {
        lemma_find0(s.skip(t), 10);
        let f = find0(s.skip(t), 10);
        if t + f < s.len() {
            assert(s[t + f] == s.skip(t)[f]);
        }
    }
}

/// Snapping keeps the order of targets.
pub proof fn lemma_snap_mono(s: Seq<u8>, t1: int, t2: int)
    requires
        0 <= t1 <= t2 <= s.len(),
    ensures
        snap(s, t1) <= snap(s, t2),
{
    lemma_snap(s, t1);
    lemma_snap(s, t2);
    if t1 != 0 && t2 != 0 {
        let f1 = find0(s.skip(t1), 10);
        let f2 = find0(s.skip(t2), 10);
        lemma_find0(s.skip(t1), 10);
        lemma_find0(s.skip(t2), 10);
        if t2 + f2 < s.len() {
            // The newline found from the later target is visible from the
            // earlier one, so the earlier search stops at or before it.
            assert(s[t2 + f2] == s.skip(t2)[f2]);
            if t1 + f1 > t2 + f2 {
                assert(s.skip(t1)[t2 + f2 - t1] == s[t2 + f2]);
                assert(false);
            }
        }
    }
}

/// Position of the last newline at or before `c`, or `-1` if there is none.
pub open spec fn last_nl_before(s: Seq<u8>, c: int) -> int
    recommends
        c < s.len(),
    decreases c + 1,
{
    if c < 0 {
        -1
    } else if s[c] == 10 {
        c
    } else {
        last_nl_before(s, c - 1)
    }
}

pub proof fn lemma_last_nl(s: Seq<u8>, c: int)
    requires
        -1 <= c < s.len(),
    ensures
        -1 <= last_nl_before(s, c) <= c,
        last_nl_before(s, c) >= 0 ==> s[last_nl_before(s, c)] == 10,
        forall|j: int| last_nl_before(s, c) < j <= c ==> s[j] != 10,
    decreases c + 1,
{
    if c >= 0 && s[c] != 10 {
        lemma_last_nl(s, c - 1);
    }
}

/// The end of the truncated buffer: the whole buffer when there is no limit
/// or the limit reaches the end; otherwise the end of the last record whose
/// terminating newline lies at or before the limit.
pub open spec fn trunc_end(s: Seq<u8>, max_bytes: Option<usize>) -> int {
    match max_bytes {
        Option::None => s.len() as int,
        Option::Some(n) => if n >= s.len() {
            s.len() as int
        } else {
            last_nl_before(s, n as int) + 1
        },
    }
}

/// Rounds the byte limit down to the end of the last complete record: the
/// returned end is record-aligned, and no byte of a record whose newline
/// lies at or before the limit is lost.
#[verifier::loop_isolation(false)]
pub fn truncate_end(data: &Vec<u8>, max_bytes: Option<usize>) -> (r: usize)
    ensures
        r as int == trunc_end(data@, max_bytes),
        aligned(data@, r as int),
        r <= data@.len(),
{
    match max_bytes {
        Option::None => data.len(),
        Option::Some(n) => {
            if n >= data.len() {
                return data.len();
            }
            let mut i: usize = n + 1;
            loop
                invariant
                    0 <= i <= n + 1,
                    n < data@.len(),
                    forall|j: int| i <= j <= n ==> data@[j] != 10,
                decreases i,
            {
                if i == 0 {
                    proof {
                        lemma_last_nl(data@, n as int);
                        let p = last_nl_before(data@, n as int);
                        if p >= 0 {
                            assert(data@[p] != 10);
                            assert(false);
                        }
                    }
                    return 0;
                }
                if data[i - 1] == 10 {
                    proof {
                        lemma_last_nl(data@, n as int);
                        let p = last_nl_before(data@, n as int);
                        if p > i - 1 {
                            assert(data@[p] != 10);
                            assert(false);
                        }
                        if p < i - 1 {
                            assert(data@[i - 1] != 10);
                            assert(false);
                        }
                    }
                    return i;
                }
                i = i - 1;
            }
        },
    }
}

/// The proportional target of cut `i` among `count` workers over `len` bytes.
pub open spec fn cut_target(len: int, count: int, i: int) -> int {
    i * len / count
}

/// Returns the start of the next full line at or after `index` within
/// `data[..end]`: the byte after the next newline, `index` itself when it is
/// zero, or `end` when no newline follows.
pub fn find_split_index(data: &Vec<u8>, end: usize, index: usize) -> (r: usize)
    requires
        index <= end <= data@.len(),
    ensures
        r as int == snap(data@.take(end as int), index as int),
        index <= r <= end,
{
    let ghost s = data@.take(end as int);
    proof {
        lemma_snap(s, index as int);
    }
    if index == 0 {
        return 0;
    }
    let nl = find_byte_from(data, index, end, 10);
    proof {
        assert forall|q: int| 0 <= q < nl - index implies s.skip(index as int)[q] != 10 by {
            assert(s.skip(index as int)[q] == data@[index + q]);
        }
        if nl < end {
            assert(s.skip(index as int)[nl - index] == data@[nl as int]);
        }
        lemma_find0_at(s.skip(index as int), 10, nl - index);
    }
    if nl == end {
        end
    } else {
        nl + 1
    }
}

/// Cuts `data[..len]` into `count` consecutive, record-aligned ranges, one
/// per worker: proportional targets snapped forward to line starts. The
/// ranges never overlap, they cover the whole truncated buffer, and every
/// boundary is the buffer start, the buffer end, or the byte after a
/// newline. A worker whose range is empty holds no records.
#[verifier::loop_isolation(false)]
pub fn partition(data: &Vec<u8>, len: usize, count: usize) -> (r: Vec<(usize, usize)>)
    requires
        len <= data@.len(),
        1 <= count,
    ensures
        ({
            let s = data@.take(len as int);
            &&& r@.len() == count
            &&& forall|i: int|
                0 <= i < count ==> (#[trigger] r@[i]).0 as int == snap(
                    s,
                    cut_target(len as int, count as int, i),
                ) && r@[i].1 as int == snap(s, cut_target(len as int, count as int, i + 1))
            &&& r@[0].0 == 0
            &&& r@[count - 1].1 == len
            &&& forall|i: int| 0 <= i < count ==> (#[trigger] r@[i]).0 <= r@[i].1 <= len
            &&& forall|i: int| 0 < i < count ==> (#[trigger] r@[i]).0 == r@[i - 1].1
            &&& forall|i: int|
                0 <= i < count ==> aligned(s, (#[trigger] r@[i]).0 as int) && aligned(
                    s,
                    r@[i].1 as int,
                )
        }),
{
    let ghost s = data@.take(len as int);
    let mut r: Vec<(usize, usize)> = Vec::new();
    let mut prev: usize = 0;
    let mut k: usize = 0;
    proof {
        assert(s.len() == len as int);
        assert(cut_target(len as int, count as int, 0) == 0) by {
            lemma_div_pos_is_pos(0, count as int);
            lemma_div_nonincreasing(0, count as int);
        }
        assert(snap(s, 0) == 0);
    }
    loop
        invariant
            0 <= k <= count,
            r@.len() == k,
            prev as int == snap(s, cut_target(len as int, count as int, k as int)),
            prev <= len,
            forall|j: int|
                0 <= j < k ==> (#[trigger] r@[j]).0 as int == snap(
                    s,
                    cut_target(len as int, count as int, j),
                ) && r@[j].1 as int == snap(s, cut_target(len as int, count as int, j + 1)),
        decreases count - k,
    {
        if k == count {
            break ;
        }
        proof {
            let ii = k as int + 1;
            let ll = len as int;
            let cc = count as int;
            assert(ii * ll <= u128::MAX as int) by (nonlinear_arith)
                requires
                    0 <= ii <= u64::MAX as int + 1,
                    0 <= ll <= u64::MAX as int,
            ;
            assert(ii * ll >= 0) by (nonlinear_arith)
                requires
                    0 <= ii,
                    0 <= ll,
            ;
            assert(ii * ll <= cc * ll) by (nonlinear_arith)
                requires
                    0 <= ii <= cc,
                    0 <= ll,
            ;
            lemma_div_is_ordered(ii * ll, cc * ll, cc);
            lemma_div_by_multiple(ll, cc);
            assert(cc * ll == ll * cc) by (nonlinear_arith);
            assert(cut_target(ll, cc, ii) <= ll);
            lemma_div_pos_is_pos(ii * ll, cc);
        }
        let t128: u128 = ((k as u128) + 1) * (len as u128) / (count as u128);
        let t: usize = t128 as usize;
        let next = find_split_index(data, len, t);
        r.push((prev, next));
        prev = next;
        k = k + 1;
    }
    proof {
        let ll = len as int;
        let cc = count as int;
        assert(cut_target(ll, cc, cc) == ll) by {
            lemma_div_by_multiple(ll, cc);
            assert(cc * ll == ll * cc) by (nonlinear_arith);
        }
        assert(snap(s, ll) == ll) by {
            if ll != 0 {
                assert(s.skip(ll) =~= Seq::<u8>::empty());
            }
        }
        assert(r@[count - 1].1 == len);
        assert forall|j: int| 0 <= j < count implies (#[trigger] r@[j]).0 <= r@[j].1 <= len by {
            let a = cut_target(ll, cc, j);
            let b = cut_target(ll, cc, j + 1);
            assert(0 <= a && a <= b && b <= ll) by {
                lemma_div_pos_is_pos(j * ll, cc);
                assert(j * ll <= (j + 1) * ll) by (nonlinear_arith)
                    requires
                        0 <= j,
                        0 <= ll,
                ;
                lemma_div_is_ordered(j * ll, (j + 1) * ll, cc);
                assert((j + 1) * ll <= cc * ll) by (nonlinear_arith)
                    requires
                        j + 1 <= cc,
                        0 <= ll,
                ;
                lemma_div_is_ordered((j + 1) * ll, cc * ll, cc);
                lemma_div_by_multiple(ll, cc);
                assert(cc * ll == ll * cc) by (nonlinear_arith);
            }
            lemma_snap_mono(s, a, b);
            lemma_snap(s, b);
        }
        assert forall|j: int| 0 <= j < count implies aligned(s, (#[trigger] r@[j]).0 as int)
            && aligned(s, r@[j].1 as int) by {
            let a = cut_target(ll, cc, j);
            let b = cut_target(ll, cc, j + 1);
            assert(0 <= a <= ll && 0 <= b <= ll) by {
                lemma_div_pos_is_pos(j * ll, cc);
                lemma_div_pos_is_pos((j + 1) * ll, cc);
                assert(j * ll <= cc * ll && (j + 1) * ll <= cc * ll) by (nonlinear_arith)
                    requires
                        0 <= j,
                        j + 1 <= cc,
                        0 <= ll,
                ;
                lemma_div_is_ordered(j * ll, cc * ll, cc);
                lemma_div_is_ordered((j + 1) * ll, cc * ll, cc);
                lemma_div_by_multiple(ll, cc);
                assert(cc * ll == ll * cc) by (nonlinear_arith);
            }
            lemma_snap(s, a);
            lemma_snap(s, b);
        }
    }
    r
}

} // verus!
