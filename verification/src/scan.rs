//! The record scanner.
//!
//! A single left-to-right cursor pass over one record-aligned byte range:
//! each line is parsed into its key bytes and scaled value and folded into
//! the slice's aggregation table. The first grammar violation aborts the
//! scan with the error of the offending line.

use vstd::prelude::*;

verus! {

use crate::ParseError;
use crate::records::chunk_error;
use crate::records::chunk_records;
use crate::records::chunk_wf;
use crate::records::body_mag;
use crate::records::body_prefix_ok;
use crate::records::dv;
use crate::records::find_nd;
use crate::records::is_digit;
use crate::records::lemma_dv_nonneg;
use crate::records::lemma_dv_prefix_le;
use crate::records::lemma_find0_at;
use crate::records::lemma_find_nd_at;
use crate::records::line_error;
use crate::records::line_key;
use crate::records::line_rec;
use crate::records::line_semi;
use crate::records::line_val;
use crate::records::line_vpart;
use crate::records::vbody;
use crate::records::vneg;
use crate::records::wf_line;
use crate::records::lemma_wf_line;
use crate::stats::EntryV;
use crate::stats::Rec;
use crate::stats::agg_seq;
use crate::stats::counts_le;
use crate::stats::entries_bounded;
use crate::stats::ins;
use crate::stats::lemma_ins;
use crate::stats::lemma_ins_bounds;
use crate::stats::lemma_ins_len;
use crate::stats::sorted_keys;
use crate::table::Summary;
use crate::text::utf8_check;

/// First position of `b` in `data[from..to]`, or `to` if it does not occur.
pub fn find_byte_from(data: &Vec<u8>, from: usize, to: usize, b: u8) -> (r: usize)
    requires
        from <= to <= data@.len(),
    ensures
        from <= r <= to,
        r < to ==> data@[r as int] == b,
        forall|j: int| from <= j < r ==> data@[j] != b,
{
    let mut i: usize = from;
    loop
        invariant
            from <= i <= to <= data@.len(),
            forall|j: int| from <= j < i ==> data@[j] != b,
        decreases to - i,
    {
        if i == to {
            return i;
        }
        if data[i] == b {
            return i;
        }
        i = i + 1;
    }
}

/// First position in `data[from..to]` whose byte is no ASCII digit, or `to`.
fn find_non_digit_from(data: &Vec<u8>, from: usize, to: usize) -> (r: usize)
    requires
        from <= to <= data@.len(),
    ensures
        from <= r <= to,
        r < to ==> !is_digit(data@[r as int]),
        forall|j: int| from <= j < r ==> is_digit(data@[j]),
{
    let mut i: usize = from;
    loop
        invariant
            from <= i <= to <= data@.len(),
            forall|j: int| from <= j < i ==> is_digit(data@[j]),
        decreases to - i,
    {
        if i == to {
            return i;
        }
        let c = data[i];
        if c < 48 || c > 57 {
            return i;
        }
        i = i + 1;
    }
}

/// Copies `data[from..to]` into a fresh vector.
fn copy_range(data: &Vec<u8>, from: usize, to: usize) -> (r: Vec<u8>)
    requires
        from <= to <= data@.len(),
    ensures
        r@ == data@.subrange(from as int, to as int),
{
    let mut r: Vec<u8> = Vec::new();
    let mut i: usize = from;
    loop
        invariant
            from <= i <= to <= data@.len(),
            r@ =~= data@.subrange(from as int, i as int),
        decreases to - i,
    {
        if i == to {
            proof {
                assert(r@ =~= data@.subrange(from as int, to as int));
            }
            return r;
        }
        r.push(data[i]);
        i = i + 1;
        proof {
            assert(r@ =~= data@.subrange(from as int, i as int));
        }
    }
}

/// Parses one record line `data[i..j]` (newline-free) into its key bytes and
/// scaled value, or tells how the line violates the grammar.
#[verifier::loop_isolation(false)]
#[verifier::rlimit(100)]
pub fn parse_line(data: &Vec<u8>, i: usize, j: usize) -> (r: Result<(Vec<u8>, i64), ParseError>)
    requires
        i <= j <= data@.len(),
        forall|k: int| i <= k < j ==> data@[k] != 10,
    ensures
        ({
            let l = data@.subrange(i as int, j as int);
            match r {
                Ok((key, value)) => wf_line(l) && key@ == line_key(l) && value as int == line_val(
                    l,
                ),
                Err(e) => !wf_line(l) && e == line_error(l),
            }
        }),
{
    let ghost l = data@.subrange(i as int, j as int);
    // Key: everything before the first delimiter.
    let ps = find_byte_from(data, i, j, 59);
    proof {
        assert forall|q: int| 0 <= q < ps - i implies l[q] != 59 by {
            assert(l[q] == data@[i + q]);
        }
        if ps < j {
            assert(l[ps - i] == data@[ps as int]);
        }
        lemma_find0_at(l, 59, ps - i);
        assert(line_semi(l) == ps - i);
    }
    if ps == j {
        return Err(ParseError::MissingDelimiter);
    }
    if ps == i {
        return Err(ParseError::LeadingDelimiter);
    }
    proof {
        assert(line_vpart(l) =~= data@.subrange(ps + 1, j as int));
    }
    // Sign.
    let vstart = ps + 1;
    let neg = vstart < j && data[vstart] == 45;
    let bstart = if neg {
        vstart + 1
    } else {
        vstart
    };
    let ghost v = line_vpart(l);
    proof {
        assert(vneg(v) == neg);
        assert(vbody(v) =~= data@.subrange(bstart as int, j as int));
    }
    let ghost b = vbody(v);
    // Digits of the integer part.
    let nd = find_non_digit_from(data, bstart, j);
    proof {
        assert forall|q: int| 0 <= q < nd - bstart implies is_digit(b[q]) by {
            assert(b[q] == data@[bstart + q]);
        }
        if nd < j {
            assert(b[nd - bstart] == data@[nd as int]);
        }
        lemma_find_nd_at(b, nd - bstart);
        assert(find_nd(b) == nd - bstart);
    }
    // Shape: one or more digits, a dot, one digit.
    if nd == bstart || nd == j || data[nd] != 46 || nd + 1 == j {
        proof {
            assert(!body_prefix_ok(b));
        }
        return Err(ParseError::MalformedValue);
    }
    let fdb = data[nd + 1];
    if fdb < 48 || fdb > 57 {
        proof {
            assert(b[nd + 1 - bstart as int] == data@[nd + 1]);
            assert(!body_prefix_ok(b));
        }
        return Err(ParseError::MalformedValue);
    }
    proof {
        assert(b[nd + 1 - bstart as int] == data@[nd + 1]);
        assert(body_prefix_ok(b));
    }
    if nd + 2 < j {
        let extra = data[nd + 2];
        proof {
            assert(b[nd + 2 - bstart as int] == data@[nd + 2]);
            assert(b.len() > find_nd(b) + 2);
        }
        if extra >= 48 && extra <= 57 {
            return Err(ParseError::MalformedValue);
        }
        return Err(ParseError::MissingTerminator);
    }
    proof {
        assert(b.len() == find_nd(b) + 2);
    }
    // The integer part, in scaled form while it stays in range.
    let ghost ds = data@.subrange(bstart as int, nd as int);
    proof {
        assert(ds =~= b.take(find_nd(b)));
        assert forall|q: int| 0 <= q < ds.len() implies is_digit(ds[q]) by {
            assert(ds[q] == b[q]);
        }
        lemma_dv_nonneg(ds);
    }
    let mut val: i64 = 0;
    let mut p: usize = bstart;
    loop
        invariant
            bstart <= p <= nd <= data@.len(),
            ds == data@.subrange(bstart as int, nd as int),
            forall|q: int| 0 <= q < ds.len() ==> is_digit(ds[q]),
            val as int == dv(ds.take(p - bstart)),
            0 <= val <= crate::VAL_MAX,
        decreases nd - p,
    {
        if p == nd {
            break ;
        }
        let d = data[p];
        proof {
            assert(ds[p - bstart as int] == data@[p as int]);
            assert(ds.take(p + 1 - bstart as int).drop_last() =~= ds.take(p - bstart as int));
            assert(dv(ds.take(p + 1 - bstart as int)) == dv(ds.take(p - bstart as int)) * 10 + (
            ds[p - bstart as int] - 48));
        }
        let next = val * 10 + (d - 48) as i64;
        if next > crate::VAL_MAX {
            proof {
                assert(dv(ds.take(p + 1 - bstart as int)) > crate::VAL_MAX as int);
                lemma_dv_prefix_le(ds, p + 1 - bstart as int);
                assert(dv(ds) >= dv(ds.take(p + 1 - bstart as int)));
                assert(b[find_nd(b) + 1] == data@[nd + 1]);
                assert(is_digit(b[find_nd(b) + 1]));
                assert(body_mag(b) >= dv(ds) * 10);
                assert(body_mag(b) > crate::VAL_MAX as int);
            }
            return Err(ParseError::MalformedValue);
        }
        val = next;
        p = p + 1;
    }
    // The fractional digit completes the scaled magnitude.
    proof {
        assert(ds.take(nd - bstart as int) =~= ds);
    }
    let mag = val * 10 + (fdb - 48) as i64;
    proof {
        assert(b[find_nd(b) + 1] == data@[nd + 1]);
        assert(mag as int == body_mag(b));
    }
    if mag > crate::VAL_MAX {
        return Err(ParseError::MalformedValue);
    }
    // The key must be UTF-8 text.
    let key = copy_range(data, i, ps);
    proof {
        assert(key@ =~= line_key(l));
    }
    if !utf8_check(&key) {
        return Err(ParseError::InvalidKey);
    }
    let value = if neg {
        -mag
    } else {
        mag
    };
    proof {
        assert(wf_line(l));
        assert(value as int == line_val(l));
    }
    Ok((key, value))
}

/// Scans one record-aligned byte range `data[start..end]` into its own
/// aggregation table, or fails with the error of the first bad line.
#[verifier::loop_isolation(false)]
pub fn summarize_slice(data: &Vec<u8>, start: usize, end: usize) -> (r: Result<
    Summary,
    ParseError,
>)
    requires
        start <= end <= data@.len(),
    ensures
        ({
            let s = data@.subrange(start as int, end as int);
            match r {
                Ok(t) => chunk_wf(s) && t@ == agg_seq(chunk_records(s)) && sorted_keys(t@)
                    && entries_bounded(t@),
                Err(e) => !chunk_wf(s) && e == chunk_error(s),
            }
        }),
{
    let ghost s = data@.subrange(start as int, end as int);
    let mut t = Summary::new();
    let ghost mut done: Seq<Rec> = Seq::empty();
    let mut cur: usize = start;
    proof {
        assert(agg_seq(done) =~= Seq::<EntryV>::empty());
        assert(done + chunk_records(s) =~= chunk_records(s));
    }
    loop
        invariant
            start <= cur <= end,
            chunk_wf(s) == chunk_wf(data@.subrange(cur as int, end as int)),
            chunk_records(s) == done + chunk_records(data@.subrange(cur as int, end as int)),
            !chunk_wf(data@.subrange(cur as int, end as int)) ==> chunk_error(s) == chunk_error(
                data@.subrange(cur as int, end as int),
            ),
            t@ == agg_seq(done),
            sorted_keys(t@),
            entries_bounded(t@),
            counts_le(t@, done.len() as int),
            t@.len() <= done.len(),
            2 * done.len() <= cur - start,
        decreases end - cur,
    {
        let ghost rem = data@.subrange(cur as int, end as int);
        if cur == end {
            proof {
                assert(rem =~= Seq::<u8>::empty());
                assert(chunk_records(rem) =~= Seq::<Rec>::empty());
                assert(done + chunk_records(rem) =~= done);
            }
            return Ok(t);
        }
        let nl = find_byte_from(data, cur, end, 10);
        proof {
            assert forall|q: int| 0 <= q < nl - cur implies rem[q] != 10 by {
                assert(rem[q] == data@[cur + q]);
            }
            if nl < end {
                assert(rem[nl - cur] == data@[nl as int]);
            }
            lemma_find0_at(rem, 10, nl - cur);
        }
        if nl == cur {
            // An empty line holds no record; step over its newline.
            proof {
                assert(rem.drop_first() =~= data@.subrange(cur + 1, end as int));
            }
            cur = cur + 1;
            continue ;
        }
        let ghost l = data@.subrange(cur as int, nl as int);
        proof {
            assert(l =~= rem.take(nl - cur));
            if nl == end {
                assert(l =~= rem);
            } else {
                assert(rem.skip(nl - cur + 1) =~= data@.subrange(nl + 1, end as int));
            }
        }
        match parse_line(data, cur, nl) {
            Err(pe) => {
                proof {
                    assert(!chunk_wf(rem));
                    assert(chunk_error(rem) == pe);
                }
                return Err(pe);
            },
            Ok((key, value)) => {
                let ghost rec = line_rec(l);
                let ghost k = key@;
                proof {
                    lemma_wf_line(l);
                    assert(rec.key == k && rec.val == value as int);
                    assert(done.len() * 2 <= usize::MAX as int);
                }
                t.update(key, value);
                proof {
                    let done0 = done;
                    lemma_ins(agg_seq(done0), k, value as int);
                    lemma_ins_bounds(agg_seq(done0), k, value as int, done0.len() as int);
                    lemma_ins_len(agg_seq(done0), k, value as int);
                    done = done0.push(rec);
                    assert(done.drop_last() =~= done0);
                    assert(done.last() == rec);
                    assert(agg_seq(done) == ins(agg_seq(done0), k, value as int));
                }
                if nl == end {
                    proof {
                        assert(chunk_records(rem) == seq![rec]);
                        let rem2 = data@.subrange(end as int, end as int);
                        assert(rem2 =~= Seq::<u8>::empty());
                        assert(chunk_records(s) =~= done + chunk_records(rem2));
                    }
                    cur = end;
                } else {
                    proof {
                        let rem2 = data@.subrange(nl + 1, end as int);
                        assert(chunk_records(rem) == seq![rec] + chunk_records(rem2));
                        assert(chunk_records(s) =~= done + chunk_records(rem2));
                    }
                    cur = nl + 1;
                }
            },
        }
    }
}

} // verus!
