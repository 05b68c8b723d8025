//! The record grammar.
//!
//! A buffer holds newline-separated lines; a non-empty line is one record:
//! a non-empty key, `;`, then a value written as an optional `-`, one or
//! more digits, `.` and exactly one digit. The value is read as a scaled
//! integer, the decimal value times ten. These spec functions parse a whole
//! byte range line by line, telling which records it holds, whether every
//! line is well formed, and which error the first bad line raises.

use vstd::prelude::*;

verus! {

use vstd::utf8::valid_utf8;
use crate::ParseError;
use crate::stats::Rec;

pub open spec fn is_digit(b: u8) -> bool {
    48 <= b <= 57
}

/// Index of the first occurrence of `b` in `s`, or `s.len()` if none.
pub open spec fn find0(s: Seq<u8>, b: u8) -> int
    decreases s.len(),
{
    if s.len() == 0 {
        0
    } else if s[0] == b {
        0
    } else {
        1 + find0(s.drop_first(), b)
    }
}

pub proof fn lemma_find0(s: Seq<u8>, b: u8)
    ensures
        0 <= find0(s, b) <= s.len(),
        find0(s, b) < s.len() ==> s[find0(s, b)] == b,
        forall|j: int| 0 <= j < find0(s, b) ==> s[j] != b,
    decreases s.len(),
{
    if s.len() > 0 && s[0] != b {
        lemma_find0(s.drop_first(), b);
        assert forall|j: int| 0 <= j < find0(s, b) implies s[j] != b by {
            if j > 0 {
                assert(s.drop_first()[j - 1] != b);
            }
        }
    }
}

/// The first occurrence is characterized by what stands at and before it.
pub proof fn lemma_find0_at(s: Seq<u8>, b: u8, i: int)
    requires
        0 <= i <= s.len(),
        i < s.len() ==> s[i] == b,
        forall|j: int| 0 <= j < i ==> s[j] != b,
    ensures
        find0(s, b) == i,
    decreases s.len(),
{
    if s.len() > 0 && s[0] != b {
        assert forall|j: int| 0 <= j < i - 1 implies s.drop_first()[j] != b by {
            assert(s.drop_first()[j] == s[j + 1]);
        }
        lemma_find0_at(s.drop_first(), b, i - 1);
    }
}

/// Index of the first non-digit byte in `s`, or `s.len()` if all digits.
pub open spec fn find_nd(s: Seq<u8>) -> int
    decreases s.len(),
{
    if s.len() == 0 {
        0
    } else if !is_digit(s[0]) {
        0
    } else {
        1 + find_nd(s.drop_first())
    }
}

pub proof fn lemma_find_nd(s: Seq<u8>)
    ensures
        0 <= find_nd(s) <= s.len(),
        find_nd(s) < s.len() ==> !is_digit(s[find_nd(s)]),
        forall|j: int| 0 <= j < find_nd(s) ==> is_digit(s[j]),
    decreases s.len(),
{
    if s.len() > 0 && is_digit(s[0]) {
        lemma_find_nd(s.drop_first());
        assert forall|j: int| 0 <= j < find_nd(s) implies is_digit(s[j]) by {
            if j > 0 {
                assert(is_digit(s.drop_first()[j - 1]));
            }
        }
    }
}

pub proof fn lemma_find_nd_at(s: Seq<u8>, i: int)
    requires
        0 <= i <= s.len(),
        i < s.len() ==> !is_digit(s[i]),
        forall|j: int| 0 <= j < i ==> is_digit(s[j]),
    ensures
        find_nd(s) == i,
    decreases s.len(),
{
    if s.len() > 0 && is_digit(s[0]) {
        assert forall|j: int| 0 <= j < i - 1 implies is_digit(s.drop_first()[j]) by {
            assert(s.drop_first()[j] == s[j + 1]);
        }
        lemma_find_nd_at(s.drop_first(), i - 1);
    }
}

/// The number a digit sequence denotes in decimal.
pub open spec fn dv(s: Seq<u8>) -> int
    decreases s.len(),
{
    if s.len() == 0 {
        0
    } else {
        dv(s.drop_last()) * 10 + (s.last() - 48)
    }
}

pub proof fn lemma_dv_nonneg(s: Seq<u8>)
    requires
        forall|j: int| 0 <= j < s.len() ==> is_digit(s[j]),
    ensures
        dv(s) >= 0,
    decreases s.len(),
{
    if s.len() > 0 {
        assert forall|j: int| 0 <= j < s.drop_last().len() implies is_digit(
            s.drop_last()[j],
        ) by {
            assert(s.drop_last()[j] == s[j]);
        }
        lemma_dv_nonneg(s.drop_last());
    }
}

/// A digit run is worth at least any of its prefixes.
pub proof fn lemma_dv_prefix_le(s: Seq<u8>, m: int)
    requires
        forall|j: int| 0 <= j < s.len() ==> is_digit(s[j]),
        0 <= m <= s.len(),
    ensures
        dv(s.take(m)) <= dv(s),
    decreases s.len(),
{
    if m == s.len() {
        assert(s.take(m) =~= s);
    } else {
        let d = s.drop_last();
        assert forall|j: int| 0 <= j < d.len() implies is_digit(d[j]) by {
            assert(d[j] == s[j]);
        }
        assert(s.take(m) =~= d.take(m));
        lemma_dv_prefix_le(d, m);
        lemma_dv_nonneg(d);
        assert(dv(s) == dv(d) * 10 + (s.last() - 48));
        assert(dv(d) * 10 >= dv(d));
    }
}

/// Position of the `;` delimiter in a line, or the line length if none.
pub open spec fn line_semi(l: Seq<u8>) -> int {
    find0(l, 59)
}

/// The key of a line: everything before the first `;`.
pub open spec fn line_key(l: Seq<u8>) -> Seq<u8> {
    l.take(line_semi(l))
}

/// The value text of a line: everything after the first `;`.
pub open spec fn line_vpart(l: Seq<u8>) -> Seq<u8> {
    l.skip(line_semi(l) + 1)
}

/// Whether the value text carries a leading `-`.
pub open spec fn vneg(v: Seq<u8>) -> bool {
    v.len() > 0 && v[0] == 45
}

/// The value text without its sign.
pub open spec fn vbody(v: Seq<u8>) -> Seq<u8> {
    if vneg(v) {
        v.drop_first()
    } else {
        v
    }
}

/// The unsigned value text starts with one or more digits, then `.`, then
/// one digit.
pub open spec fn body_prefix_ok(b: Seq<u8>) -> bool {
    let k = find_nd(b);
    1 <= k && k + 1 < b.len() && b[k] == 46 && is_digit(b[k + 1])
}

/// The unsigned value text is exactly digits, `.` and one digit.
pub open spec fn body_exact(b: Seq<u8>) -> bool {
    body_prefix_ok(b) && b.len() == find_nd(b) + 2
}

/// The scaled magnitude of a value text: its digits read as a decimal
/// number, times ten, plus the fractional digit.
pub open spec fn body_mag(b: Seq<u8>) -> int {
    dv(b.take(find_nd(b))) * 10 + (b[find_nd(b) + 1] - 48)
}

/// The scaled signed value of a line.
pub open spec fn line_val(l: Seq<u8>) -> int {
    let v = line_vpart(l);
    if vneg(v) {
        -body_mag(vbody(v))
    } else {
        body_mag(vbody(v))
    }
}

/// A well-formed record line: non-empty key, delimiter present, exact value
/// grammar, magnitude within the fixed-point range, and a UTF-8 key.
pub open spec fn wf_line(l: Seq<u8>) -> bool {
    let p = line_semi(l);
    &&& 0 < p < l.len()
    &&& body_exact(vbody(line_vpart(l)))
    &&& body_mag(vbody(line_vpart(l))) <= crate::VAL_MAX as int
    &&& valid_utf8(line_key(l))
}

/// The record a well-formed line holds.
pub open spec fn line_rec(l: Seq<u8>) -> Rec {
    Rec { key: line_key(l), val: line_val(l) }
}

/// The error a bad line raises, in the order a left-to-right scan meets its
/// parts: no delimiter, an empty key, a broken or out-of-range value, extra
/// bytes where the terminator should stand, or a non-UTF-8 key.
pub open spec fn line_error(l: Seq<u8>) -> ParseError {
    let p = line_semi(l);
    if p == l.len() {
        ParseError::MissingDelimiter
    } else if p == 0 {
        ParseError::LeadingDelimiter
    } else {
        let b = vbody(line_vpart(l));
        if !body_prefix_ok(b) {
            ParseError::MalformedValue
        } else if b.len() > find_nd(b) + 2 {
            if is_digit(b[find_nd(b) + 2]) {
                ParseError::MalformedValue
            } else {
                ParseError::MissingTerminator
            }
        } else if body_mag(b) > crate::VAL_MAX as int {
            ParseError::MalformedValue
        } else {
            ParseError::InvalidKey
        }
    }
}

/// Every non-empty line of the buffer is a well-formed record.
pub open spec fn chunk_wf(s: Seq<u8>) -> bool
    decreases s.len(),
    via chunk_wf_decreases
{
    if s.len() == 0 {
        true
    } else {
        let e = find0(s, 10);
        if e == 0 {
            chunk_wf(s.drop_first())
        } else if e >= s.len() {
            wf_line(s)
        } else {
            wf_line(s.take(e)) && chunk_wf(s.skip(e + 1))
        }
    }
}

/// The records of the buffer, in order; empty lines are skipped.
pub open spec fn chunk_records(s: Seq<u8>) -> Seq<Rec>
    decreases s.len(),
    via chunk_records_decreases
{
    if s.len() == 0 {
        Seq::empty()
    } else {
        let e = find0(s, 10);
        if e == 0 {
            chunk_records(s.drop_first())
        } else if e >= s.len() {
            seq![line_rec(s)]
        } else {
            seq![line_rec(s.take(e))] + chunk_records(s.skip(e + 1))
        }
    }
}

/// The error of the first bad line; meaningful only when `!chunk_wf(s)`.
pub open spec fn chunk_error(s: Seq<u8>) -> ParseError
    decreases s.len(),
    via chunk_error_decreases
{
    if s.len() == 0 {
        ParseError::MissingDelimiter
    } else {
        let e = find0(s, 10);
        if e == 0 {
            chunk_error(s.drop_first())
        } else if e >= s.len() {
            line_error(s)
        } else if !wf_line(s.take(e)) {
            line_error(s.take(e))
        } else {
            chunk_error(s.skip(e + 1))
        }
    }
}

/// Splitting a buffer at a record boundary (right after a newline) splits
/// its records in order, its well-formedness, and its first error.
pub proof fn lemma_chunk_split(s: Seq<u8>, m: int)
    requires
        0 <= m <= s.len(),
        m == 0 || m == s.len() || s[m - 1] == 10,
    ensures
        chunk_records(s) == chunk_records(s.take(m)) + chunk_records(s.skip(m)),
        chunk_wf(s) == (chunk_wf(s.take(m)) && chunk_wf(s.skip(m))),
        !chunk_wf(s) ==> chunk_error(s) == (if !chunk_wf(s.take(m)) {
            chunk_error(s.take(m))
        } else {
            chunk_error(s.skip(m))
        }),
    decreases s.len(),
{
    let t = s.take(m);
    let r = s.skip(m);
    if m == 0 {
        assert(t =~= Seq::<u8>::empty());
        assert(r =~= s);
        assert(chunk_records(t) + chunk_records(r) =~= chunk_records(s));
    } else if m == s.len() {
        assert(t =~= s);
        assert(r =~= Seq::<u8>::empty());
        assert(chunk_records(t) + chunk_records(r) =~= chunk_records(s));
    } else {
        lemma_find0(s, 10);
        let e = find0(s, 10);
        assert(e <= m - 1);
        assert(t.len() == m);
        assert forall|j: int| 0 <= j < e implies t[j] != 10 by {
            assert(t[j] == s[j]);
        }
        assert(t[e] == s[e]);
        lemma_find0_at(t, 10, e);
        if e == 0 {
            let s1 = s.drop_first();
            assert(s1 =~= s.skip(1));
            if m - 1 > 0 {
                assert(s1[m - 2] == s[m - 1]);
            }
            lemma_chunk_split(s1, m - 1);
            assert(s1.take(m - 1) =~= t.drop_first());
            assert(s1.skip(m - 1) =~= r);
            assert(chunk_records(s) == chunk_records(s1));
            assert(chunk_records(t) == chunk_records(t.drop_first()));
            assert(chunk_records(s) =~= chunk_records(t) + chunk_records(r));
            assert(chunk_wf(s) == chunk_wf(s1));
            assert(chunk_wf(t) == chunk_wf(t.drop_first()));
            assert(chunk_error(s) == chunk_error(s1));
            assert(chunk_error(t) == chunk_error(t.drop_first()));
        } else if e == m - 1 {
            let line = s.take(e);
            assert(t.take(e) =~= line);
            assert(t.skip(e + 1) =~= Seq::<u8>::empty());
            assert(chunk_records(t) == seq![line_rec(line)] + chunk_records(
                Seq::<u8>::empty(),
            ));
            assert(s.skip(e + 1) == r);
            assert(chunk_records(s) == seq![line_rec(line)] + chunk_records(r));
            assert(chunk_records(s) =~= chunk_records(t) + chunk_records(r));
            assert(chunk_wf(t) == (wf_line(line) && chunk_wf(Seq::<u8>::empty())));
            assert(chunk_wf(s) == (wf_line(line) && chunk_wf(r)));
            if !chunk_wf(s) {
                if !wf_line(line) {
                    assert(chunk_error(s) == line_error(line));
                    assert(chunk_error(t) == line_error(line));
                } else {
                    assert(chunk_error(s) == chunk_error(r));
                }
            }
        } else {
            let line = s.take(e);
            let s2 = s.skip(e + 1);
            let m2 = m - (e + 1);
            assert(s2[m2 - 1] == s[m - 1]);
            lemma_chunk_split(s2, m2);
            assert(s2.take(m2) =~= t.skip(e + 1));
            assert(s2.skip(m2) =~= r);
            assert(t.take(e) =~= line);
            assert(e < t.len());
            assert(chunk_records(t) == seq![line_rec(line)] + chunk_records(t.skip(e + 1)));
            assert(chunk_records(s) == seq![line_rec(line)] + chunk_records(s2));
            assert(chunk_records(s2) == chunk_records(t.skip(e + 1)) + chunk_records(r));
            assert(chunk_records(s) =~= chunk_records(t) + chunk_records(r));
            assert(chunk_wf(t) == (wf_line(line) && chunk_wf(t.skip(e + 1))));
            assert(chunk_wf(s) == (wf_line(line) && chunk_wf(s2)));
            assert(chunk_wf(s2) == (chunk_wf(t.skip(e + 1)) && chunk_wf(r)));
            if !chunk_wf(s) {
                if !wf_line(line) {
                    assert(chunk_error(s) == line_error(line));
                    assert(chunk_error(t) == line_error(line));
                } else {
                    assert(chunk_error(s) == chunk_error(s2));
                    if !chunk_wf(t.skip(e + 1)) {
                        assert(chunk_error(t) == chunk_error(t.skip(e + 1)));
                        assert(chunk_error(s2) == chunk_error(t.skip(e + 1)));
                    } else {
                        assert(chunk_wf(t));
                        assert(chunk_error(s2) == chunk_error(r));
                    }
                }
            }
        }
    }
}

/// A well-formed line is at least two bytes long and its value lies in the
/// fixed-point range.
pub proof fn lemma_wf_line(l: Seq<u8>)
    requires
        wf_line(l),
    ensures
        -(crate::VAL_MAX as int) <= line_val(l) <= crate::VAL_MAX as int,
        l.len() >= 2,
{
    lemma_find0(l, 59);
    let b = vbody(line_vpart(l));
    lemma_find_nd(b);
    let ds = b.take(find_nd(b));
    assert forall|q: int| 0 <= q < ds.len() implies is_digit(ds[q]) by {
        assert(ds[q] == b[q]);
    }
    lemma_dv_nonneg(ds);
    assert(is_digit(b[find_nd(b) + 1]));
    assert(body_mag(b) >= 0);
}

/// Every record of a well-formed buffer carries a valid UTF-8 key.
pub proof fn lemma_chunk_records_utf8(s: Seq<u8>)
    requires
        chunk_wf(s),
    ensures
        forall|i: int|
            0 <= i < chunk_records(s).len() ==> valid_utf8(
                (#[trigger] chunk_records(s)[i]).key,
            ),
    decreases s.len(),
{
    if s.len() > 0 {
        lemma_find0(s, 10);
        let e = find0(s, 10);
        if e == 0 {
            lemma_chunk_records_utf8(s.drop_first());
        } else if e >= s.len() {
            assert(chunk_records(s)[0] == line_rec(s));
        } else {
            lemma_chunk_records_utf8(s.skip(e + 1));
            let rest = chunk_records(s.skip(e + 1));
            assert forall|i: int| 0 <= i < chunk_records(s).len() implies valid_utf8(
                (#[trigger] chunk_records(s)[i]).key,
            ) by {
                if i > 0 {
                    assert(chunk_records(s)[i] == rest[i - 1]);
                }
            }
        }
    }
}

/// A buffer of `n` bytes holds at most `(n + 1) / 2` records: every record
/// takes at least one byte, and consecutive records are separated by a
/// newline.
pub proof fn lemma_chunk_records_len(s: Seq<u8>)
    ensures
        2 * chunk_records(s).len() <= s.len() + 1,
    decreases s.len(),
{
    if s.len() > 0 {
        lemma_find0(s, 10);
        let e = find0(s, 10);
        if e == 0 {
            lemma_chunk_records_len(s.drop_first());
        } else if e < s.len() {
            lemma_chunk_records_len(s.skip(e + 1));
        }
    }
}

#[via_fn]
proof fn chunk_wf_decreases(s: Seq<u8>) {
    lemma_find0(s, 10);
}

#[via_fn]
proof fn chunk_records_decreases(s: Seq<u8>) {
    lemma_find0(s, 10);
}

#[via_fn]
proof fn chunk_error_decreases(s: Seq<u8>) {
    lemma_find0(s, 10);
}

} // verus!
