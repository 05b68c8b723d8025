//! A high-throughput aggregation engine over `key;value` record files.
//!
//! Given a contiguous byte buffer of newline-separated records, where each
//! record is a key, a `;`, and a signed decimal value with exactly one
//! fractional digit, the library computes per distinct key the minimum,
//! maximum and mean of all values, and renders one deterministic summary
//! string sorted by key in byte-lexicographic order.
//!
//! Values are held as scaled integers (the decimal value times ten), so
//! summation and mean rounding are exact.

use vstd::prelude::*;

pub mod cli;
pub mod format;
pub mod merge;
pub mod order;
pub mod records;
pub mod scan;
pub mod split;
pub mod stats;
pub mod table;
pub mod text;

verus! {

/// Scaled values admitted by the record grammar: the magnitude of a value
/// times ten must not exceed this bound.
pub const VAL_MAX: i64 = 2147483647;

/// How a single record line violates the grammar.
#[derive(Debug, Clone, Copy, PartialEq, Eq, Structural)]
pub enum ParseError {
    /// The line ends before any `;` delimiter.
    MissingDelimiter,
    /// The line starts with the `;` delimiter, so the key is empty.
    LeadingDelimiter,
    /// The value is not an optional `-`, digits, `.` and exactly one digit,
    /// or its magnitude does not fit the fixed-point range.
    MalformedValue,
    /// The record carries extra bytes where its terminator should stand.
    MissingTerminator,
    /// The key bytes are not valid UTF-8.
    InvalidKey,
}

/// What a whole summarization run can fail with.
#[derive(Debug, Clone, Copy, PartialEq, Eq, Structural)]
pub enum SummaryErrorKind {
    /// The byte source could not be opened or mapped.
    Io,
    /// Some record violates the input grammar.
    Parse(ParseError),
}

/// The error of a summarization run.
#[derive(Debug, Clone, Copy, PartialEq, Eq, Structural)]
pub struct SummaryError {
    pub kind: SummaryErrorKind,
}

use vstd::utf8::decode_utf8;
use vstd::utf8::valid_utf8;
use crate::format::format_bytes;
use crate::format::keys_utf8;
use crate::merge::lemma_merge_seq;
use crate::merge::merge_seq;
use crate::records::chunk_error;
use crate::records::chunk_records;
use crate::records::chunk_wf;
use crate::records::lemma_chunk_records_len;
use crate::records::lemma_chunk_records_utf8;
use crate::records::lemma_chunk_split;
use crate::scan::summarize_slice;
use crate::split::aligned;
use crate::split::partition;
use crate::split::trunc_end;
use crate::split::truncate_end;
use crate::stats::agg_map;
use crate::stats::agg_seq;
use crate::stats::entries_bounded;
use crate::stats::lemma_agg_map_concat;
use crate::stats::lemma_agg_seq;
use crate::stats::lemma_agg_seq_sum;
use crate::stats::lemma_sorted_map_eq;
use crate::stats::sorted_keys;
use crate::stats::sum_counts;
use crate::stats::tbl_map;
use crate::table::Summary;

/// Computes the canonical summary of the buffer, up to the byte limit, with
/// the work cut into `worker_count` record-aligned slices that are scanned
/// independently and merged. The result depends only on the truncated bytes,
/// never on the worker count: it is the rendering of the aggregation of all
/// records, sorted by key, or the error of the first bad line.
#[verifier::loop_isolation(false)]
#[verifier::rlimit(100)]
pub fn summarize(data: &Vec<u8>, max_bytes: Option<usize>, worker_count: usize) -> (r: Result<
    String,
    SummaryError,
>)
    requires
        worker_count >= 1,
    ensures
        ({
            let s = data@.take(trunc_end(data@, max_bytes));
            match r {
                Ok(out) => chunk_wf(s) && valid_utf8(format_bytes(agg_seq(chunk_records(s))))
                    && out@ == decode_utf8(format_bytes(agg_seq(chunk_records(s)))),
                Err(e) => !chunk_wf(s) && e == (SummaryError {
                    kind: SummaryErrorKind::Parse(chunk_error(s)),
                }),
            }
        }),
{
    let len = truncate_end(data, max_bytes);
    let ghost s = data@.take(len as int);
    let parts = partition(data, len, worker_count);
    let mut acc = Summary::new();
    let mut done_end: usize = 0;
    let mut w: usize = 0;
    proof {
        assert(s.take(0) =~= Seq::<u8>::empty());
        assert(chunk_records(s.take(0)) =~= Seq::<stats::Rec>::empty());
        assert(tbl_map(acc@) =~= agg_map(chunk_records(s.take(0))));
    }
    loop
        invariant
            w <= worker_count,
            w == 0 ==> done_end == 0,
            w > 0 ==> done_end as int == parts@[w - 1].1 as int,
            done_end <= len,
            aligned(s, done_end as int),
            chunk_wf(s.take(done_end as int)),
            sorted_keys(acc@),
            entries_bounded(acc@),
            keys_utf8(acc@),
            tbl_map(acc@) == agg_map(chunk_records(s.take(done_end as int))),
            sum_counts(acc@) == chunk_records(s.take(done_end as int)).len(),
        decreases worker_count - w,
    {
        if w == worker_count {
            break ;
        }
        let (st, en) = parts[w];
        proof {
            assert(parts@[w as int].0 == done_end);
            assert(parts@[w as int].1 == en);
            assert(st <= en <= len);
            assert(aligned(s, en as int));
        }
        let ghost pre = s.take(done_end as int);
        let ghost chunk = data@.subrange(st as int, en as int);
        let ghost upto = s.take(en as int);
        proof {
            assert(chunk =~= s.skip(done_end as int).take(en - done_end));
            assert(upto.take(done_end as int) =~= pre);
            assert(upto.skip(done_end as int) =~= chunk);
            if done_end < upto.len() && done_end > 0 {
                assert(upto[done_end - 1] == s[done_end - 1]);
            }
            lemma_chunk_split(upto, done_end as int);
        }
        match summarize_slice(data, st, en) {
            Err(pe) => {
                proof {
                    // The first bad line lies in this slice; everything
                    // before it is well formed, so its error is the error of
                    // the whole truncated buffer.
                    lemma_chunk_split(s, done_end as int);
                    let rest = s.skip(done_end as int);
                    assert(rest.take(en - done_end) =~= chunk);
                    assert(rest.skip(en - done_end) =~= s.skip(en as int));
                    if en - done_end > 0 && en < s.len() {
                        assert(rest[en - done_end - 1] == s[en - 1]);
                    }
                    lemma_chunk_split(rest, en - done_end);
                    assert(!chunk_wf(rest));
                    assert(!chunk_wf(s));
                    assert(chunk_error(s) == chunk_error(rest));
                    assert(chunk_error(rest) == chunk_error(chunk));
                }
                return Err(SummaryError { kind: SummaryErrorKind::Parse(pe) });
            },
            Ok(t) => {
                let ghost accv = acc@;
                let ghost tv = t@;
                proof {
                    let crs = chunk_records(chunk);
                    lemma_agg_seq(crs);
                    lemma_agg_seq_sum(crs);
                    lemma_chunk_records_utf8(chunk);
                    assert(keys_utf8(tv)) by {
                        assert forall|j: int| 0 <= j < tv.len() implies valid_utf8(
                            (#[trigger] tv[j]).key,
                        ) by {
                            let i = choose|i: int| 0 <= i < crs.len() && crs[i].key == tv[j].key;
                            assert(valid_utf8(crs[i].key));
                        }
                    }
                    // The absorbed sightings of both tables together count
                    // the records seen so far, which two bytes each bound.
                    lemma_chunk_records_len(upto);
                    assert(sum_counts(accv) + sum_counts(tv) == chunk_records(upto).len());
                    lemma_merge_seq(accv, tv);
                }
                acc = acc.merge(t);
                proof {
                    let crs = chunk_records(chunk);
                    assert(acc@ == merge_seq(accv, tv));
                    assert(tbl_map(acc@) == crate::stats::combine(tbl_map(accv), tbl_map(tv)));
                    lemma_agg_map_concat(chunk_records(pre), crs);
                    assert(keys_utf8(acc@)) by {
                        assert forall|j: int| 0 <= j < acc@.len() implies valid_utf8(
                            (#[trigger] acc@[j]).key,
                        ) by {
                            if exists|i: int| 0 <= i < accv.len() && accv[i].key == acc@[j].key {
                                let i = choose|i: int|
                                    0 <= i < accv.len() && accv[i].key == acc@[j].key;
                                assert(valid_utf8(accv[i].key));
                            } else {
                                let i = choose|i: int|
                                    0 <= i < tv.len() && tv[i].key == acc@[j].key;
                                assert(valid_utf8(tv[i].key));
                            }
                        }
                    }
                }
                done_end = en;
                w = w + 1;
            },
        }
    }
    proof {
        assert(done_end == len);
        assert(s.take(done_end as int) =~= s);
        let rs = chunk_records(s);
        lemma_agg_seq(rs);
        lemma_sorted_map_eq(acc@, agg_seq(rs));
        assert(acc@ == agg_seq(rs));
    }
    let out = acc.into_result();
    Ok(out)
}

} // verus!
