//! The formatter.
//!
//! The final sorted table renders as `{key1=min/mean/max, ...}` and a
//! newline. Every numeric field carries exactly one fractional digit; the
//! sign is attached to the rendered number and never to zero. The mean is
//! the scaled total divided by the count, rounded half away from zero, in
//! integer arithmetic only.

use vstd::prelude::*;

verus! {

use vstd::utf8::valid_utf8;
use vstd::utf8::valid_utf8_concat;
use vstd::utf8::decode_utf8;
use crate::stats::EntryV;
use crate::stats::entry_bounds;
use crate::stats::entries_bounded;
use crate::table::Summary;
use crate::table::SummaryEntry;
use crate::text::utf8_to_string;

/// The decimal digits of a non-negative number.
pub open spec fn dec_bytes(n: int) -> Seq<u8>
    decreases n,
{
    if n < 10 {
        seq![(48 + n) as u8]
    } else {
        dec_bytes(n / 10).push((48 + n % 10) as u8)
    }
}

/// How a scaled value renders: a `-` for negative values only, the units,
/// `.` and the tenths digit.
pub open spec fn render_scaled(v: int) -> Seq<u8> {
    let m = if v < 0 {
        -v
    } else {
        v
    };
    let digits = dec_bytes(m / 10) + seq![46u8, (48 + m % 10) as u8];
    if v < 0 {
        seq![45u8] + digits
    } else {
        digits
    }
}

/// The scaled mean of a total over a count, rounded half away from zero.
pub open spec fn mean_scaled(total: int, count: int) -> int {
    let t = if total < 0 {
        -total
    } else {
        total
    };
    let m = t / count + if 2 * (t % count) >= count {
        1int
    } else {
        0int
    };
    if total < 0 {
        -m
    } else {
        m
    }
}

/// The canonical text of one entry: `key=min/mean/max`.
pub open spec fn render_entry(e: EntryV) -> Seq<u8> {
    e.key + seq![61u8] + render_scaled(e.min) + seq![47u8] + render_scaled(
        mean_scaled(e.total, e.count as int),
    ) + seq![47u8] + render_scaled(e.max)
}

/// All entries in order, joined by `", "`.
pub open spec fn entries_bytes(es: Seq<EntryV>) -> Seq<u8>
    decreases es.len(),
{
    if es.len() == 0 {
        Seq::empty()
    } else if es.len() == 1 {
        render_entry(es[0])
    } else {
        entries_bytes(es.drop_last()) + seq![44u8, 32u8] + render_entry(es.last())
    }
}

/// The whole summary: the joined entries, braced, with a final newline.
pub open spec fn format_bytes(es: Seq<EntryV>) -> Seq<u8> {
    seq![123u8] + entries_bytes(es) + seq![125u8, 10u8]
}

/// Every key of the table is UTF-8 text.
pub open spec fn keys_utf8(es: Seq<EntryV>) -> bool {
    forall|i: int| 0 <= i < es.len() ==> valid_utf8((#[trigger] es[i]).key)
}

/// Rendered digits are ASCII digits.
proof fn lemma_dec_ascii(n: int)
    requires
        n >= 0,
    ensures
        forall|i: int| 0 <= i < dec_bytes(n).len() ==> 48 <= #[trigger] dec_bytes(n)[i] <= 57,
        dec_bytes(n).len() >= 1,
    decreases n,
{
    if n >= 10 {
        lemma_dec_ascii(n / 10);
        assert forall|i: int| 0 <= i < dec_bytes(n).len() implies 48 <= #[trigger] dec_bytes(
            n,
        )[i] <= 57 by {
            if i < dec_bytes(n / 10).len() {
                assert(dec_bytes(n)[i] == dec_bytes(n / 10)[i]);
            }
        }
    }
}

/// A rendered scaled value is ASCII text.
proof fn lemma_scaled_ascii(v: int)
    requires
        -0x7fff_ffff_ffff_ffff <= v <= 0x7fff_ffff_ffff_ffff,
    ensures
        forall|i: int|
            0 <= i < render_scaled(v).len() ==> #[trigger] render_scaled(v)[i] < 0x80,
        render_scaled(v).len() >= 3,
{
    let m = if v < 0 {
        -v
    } else {
        v
    };
    lemma_dec_ascii(m / 10);
    let digits = dec_bytes(m / 10) + seq![46u8, (48 + m % 10) as u8];
    assert forall|i: int| 0 <= i < digits.len() implies #[trigger] digits[i] < 0x80 by {
        if i < dec_bytes(m / 10).len() {
            assert(digits[i] == dec_bytes(m / 10)[i]);
        }
    }
    if v < 0 {
        assert forall|i: int|
            0 <= i < render_scaled(v).len() implies #[trigger] render_scaled(v)[i] < 0x80 by {
            if i > 0 {
                assert(render_scaled(v)[i] == digits[i - 1]);
            }
        }
    }
}

/// Any all-ASCII byte sequence is valid UTF-8.
proof fn lemma_ascii_valid(s: Seq<u8>)
    requires
        forall|i: int| 0 <= i < s.len() ==> #[trigger] s[i] < 0x80,
    ensures
        valid_utf8(s),
    decreases s.len(),
{
    if s.len() > 0 {
        let b0 = s[0];
        assert(vstd::utf8::is_leading_byte_width_1(b0));
        assert(((b0 & 0x7f) as u32) < 0x80) by (bit_vector);
        assert(vstd::utf8::codepoint_width_1(b0) < 0x80);
        assert(vstd::utf8::valid_first_scalar(s));
        assert(vstd::utf8::pop_first_scalar(s) =~= s.skip(1));
        assert forall|i: int| 0 <= i < s.skip(1).len() implies #[trigger] s.skip(1)[i]
            < 0x80 by {
            assert(s.skip(1)[i] == s[i + 1]);
        }
        lemma_ascii_valid(s.skip(1));
    }
}

/// The rendering of an entry with a UTF-8 key is valid UTF-8.
proof fn lemma_render_valid(e: EntryV)
    requires
        entry_bounds(e),
        valid_utf8(e.key),
    ensures
        valid_utf8(render_entry(e)),
{
    broadcast use valid_utf8_concat;

    let mv = mean_scaled(e.total, e.count as int);
    lemma_mean_bounds(e);
    lemma_scaled_ascii(e.min);
    lemma_scaled_ascii(mv);
    lemma_scaled_ascii(e.max);
    let rest = seq![61u8] + render_scaled(e.min) + seq![47u8] + render_scaled(mv) + seq![47u8]
        + render_scaled(e.max);
    assert forall|i: int| 0 <= i < rest.len() implies #[trigger] rest[i] < 0x80 by {}
    lemma_ascii_valid(rest);
    assert(render_entry(e) =~= e.key + rest);
}

/// The scaled mean of a bounded entry stays within one of the fixed-point
/// range.
pub proof fn lemma_mean_bounds(e: EntryV)
    requires
        entry_bounds(e),
    ensures
        -(crate::VAL_MAX as int) - 1 <= mean_scaled(e.total, e.count as int) <= crate::VAL_MAX
            as int + 1,
{
    let c = e.count as int;
    let t = if e.total < 0 {
        -e.total
    } else {
        e.total
    };
    assert(t <= c * crate::VAL_MAX as int);
    assert(t / c <= crate::VAL_MAX as int) by (nonlinear_arith)
        requires
            c >= 1,
            t >= 0,
            t <= c * crate::VAL_MAX as int,
    ;
    assert(t / c >= 0) by (nonlinear_arith)
        requires
            c >= 1,
            t >= 0,
    ;
}

/// The rendering of a whole table with UTF-8 keys is valid UTF-8.
pub proof fn lemma_format_valid(es: Seq<EntryV>)
    requires
        entries_bounded(es),
        keys_utf8(es),
    ensures
        valid_utf8(format_bytes(es)),
{
    lemma_entries_valid(es);
    lemma_ascii_valid(seq![123u8]);
    lemma_ascii_valid(seq![125u8, 10u8]);
    valid_utf8_concat(seq![123u8], entries_bytes(es));
    valid_utf8_concat(seq![123u8] + entries_bytes(es), seq![125u8, 10u8]);
}

proof fn lemma_entries_valid(es: Seq<EntryV>)
    requires
        entries_bounded(es),
        keys_utf8(es),
    ensures
        valid_utf8(entries_bytes(es)),
    decreases es.len(),
{
    broadcast use valid_utf8_concat;

    if es.len() == 0 {
        assert(valid_utf8(Seq::<u8>::empty()));
    } else if es.len() == 1 {
        lemma_render_valid(es[0]);
    } else {
        let d = es.drop_last();
        assert(entries_bounded(d) && keys_utf8(d)) by {
            assert forall|i: int| 0 <= i < d.len() implies entry_bounds(#[trigger] d[i])
                && valid_utf8(d[i].key) by {
                assert(d[i] == es[i]);
            }
        }
        lemma_entries_valid(d);
        lemma_render_valid(es.last());
        lemma_ascii_valid(seq![44u8, 32u8]);
        valid_utf8_concat(entries_bytes(d), seq![44u8, 32u8]);
        valid_utf8_concat(entries_bytes(d) + seq![44u8, 32u8], render_entry(es.last()));
    }
}

/// A mean that rounds to zero renders as `0.0`, never `-0.0`: the sign in
/// the rendering follows the rounded value, not the total it came from.
pub proof fn lemma_no_negative_zero(total: int, count: int)
    requires
        count >= 1,
        mean_scaled(total, count) == 0,
    ensures
        render_scaled(mean_scaled(total, count)) == seq![48u8, 46u8, 48u8],
{
    assert(dec_bytes(0) + seq![46u8, 48u8] =~= seq![48u8, 46u8, 48u8]);
}

/// Appends the decimal digits of `n`.
fn push_dec(out: &mut Vec<u8>, n: u64)
    ensures
        final(out)@ == old(out)@ + dec_bytes(n as int),
    decreases n,
{
    if n < 10 {
        out.push(48 + n as u8);
        proof {
            assert(out@ =~= old(out)@ + dec_bytes(n as int));
        }
    } else {
        push_dec(out, n / 10);
        out.push(48 + (n % 10) as u8);
        proof {
            assert(out@ =~= old(out)@ + dec_bytes(n as int));
        }
    }
}

/// Appends a scaled value as its decimal text with one fractional digit.
fn push_scaled(out: &mut Vec<u8>, v: i64)
    requires
        v > i64::MIN,
    ensures
        final(out)@ == old(out)@ + render_scaled(v as int),
{
    let m: i64 = if v < 0 {
        -v
    } else {
        v
    };
    if v < 0 {
        out.push(45);
    }
    push_dec(out, (m / 10) as u64);
    out.push(46);
    out.push(48 + (m % 10) as u8);
    proof {
        assert(out@ =~= old(out)@ + render_scaled(v as int));
    }
}

/// Appends one entry as `key=min/mean/max`.
fn push_entry(out: &mut Vec<u8>, e: &SummaryEntry)
    requires
        entry_bounds(e@),
    ensures
        final(out)@ == old(out)@ + render_entry(e@),
{
    out.extend_from_slice(e.name.as_slice());
    out.push(61);
    push_scaled(out, e.min);
    out.push(47);
    // The mean, rounded half away from zero in integer arithmetic.
    proof {
        lemma_mean_bounds(e@);
    }
    let t: i128 = if e.total < 0 {
        -e.total
    } else {
        e.total
    };
    let c: i128 = e.count as i128;
    let q: i128 = t / c;
    let half_up: i128 = if 2 * (t % c) >= c {
        1
    } else {
        0
    };
    let m: i128 = q + half_up;
    let mean: i64 = if e.total < 0 {
        -(m as i64)
    } else {
        m as i64
    };
    proof {
        assert(mean as int == mean_scaled(e@.total, e@.count as int));
    }
    push_scaled(out, mean);
    out.push(47);
    push_scaled(out, e.max);
    proof {
        assert(out@ =~= old(out)@ + render_entry(e@));
    }
}

impl SummaryEntry {
    /// The canonical text of this entry: `key=min/mean/max`.
    pub fn into_string(self) -> (r: String)
        requires
            entry_bounds(self@),
            valid_utf8(self@.key),
        ensures
            valid_utf8(render_entry(self@)),
            r@ == decode_utf8(render_entry(self@)),
    {
        let mut out: Vec<u8> = Vec::new();
        push_entry(&mut out, &self);
        proof {
            lemma_render_valid(self@);
            assert(out@ =~= render_entry(self@));
        }
        utf8_to_string(out)
    }
}

impl Summary {
    /// Renders the whole sorted table as the canonical summary string.
    #[verifier::loop_isolation(false)]
    pub fn into_result(self) -> (r: String)
        requires
            entries_bounded(self@),
            keys_utf8(self@),
        ensures
            valid_utf8(format_bytes(self@)),
            r@ == decode_utf8(format_bytes(self@)),
    {
        let ghost es = self@;
        let mut out: Vec<u8> = Vec::new();
        out.push(123);
        let n = self.data.len();
        let mut i: usize = 0;
        proof {
            assert(entries_bytes(es.take(0)) =~= Seq::<u8>::empty());
            assert(out@ =~= seq![123u8] + entries_bytes(es.take(0)));
        }
        loop
            invariant
                0 <= i <= n,
                out@ == seq![123u8] + entries_bytes(es.take(i as int)),
            decreases n - i,
        {
            if i == n {
                break ;
            }
            if i > 0 {
                out.push(44);
                out.push(32);
            }
            proof {
                assert(self.data@[i as int]@ == es[i as int]);
                assert(entry_bounds(es[i as int]));
            }
            push_entry(&mut out, &self.data[i]);
            proof {
                let w = i as int;
                assert(es.take(w + 1).drop_last() =~= es.take(w));
                assert(es.take(w + 1).last() == es[w]);
                if w == 0 {
                    assert(entries_bytes(es.take(1)) == render_entry(es[0]));
                } else {
                    assert(entries_bytes(es.take(w + 1)) == entries_bytes(es.take(w)) + seq![
                        44u8,
                        32u8,
                    ] + render_entry(es[w]));
                }
                assert(out@ =~= seq![123u8] + entries_bytes(es.take(w + 1)));
            }
            i = i + 1;
        }
        out.push(125);
        out.push(10);
        proof {
            assert(es.take(n as int) =~= es);
            assert(out@ =~= format_bytes(es));
            lemma_format_valid(es);
        }
        utf8_to_string(out)
    }
}

} // verus!
