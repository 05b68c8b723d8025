//! The command-line decision layer.
//!
//! The engine is driven by three commands: a benchmark run that checks its
//! output against a recorded baseline, a baseline capture, and a profiling
//! run. Everything these commands decide — argument validation, the data and
//! baseline file paths, the worker count — is computed here; the caller
//! performs the file and process work the chosen action names.

use vstd::prelude::*;

verus! {

use crate::records::find0;

/// Arguments of the benchmark command.
pub struct BenchArgs {
    pub max_bytes: Option<usize>,
    pub repeats: u32,
    pub num_threads: u32,
    pub data_name: String,
    pub versions: Vec<u32>,
}

/// Arguments of the baseline-capture command.
pub struct BaseArgs {
    pub max_bytes: Option<usize>,
    pub num_threads: u32,
    pub data_name: String,
    pub version: u32,
}

/// Arguments of the profiling command.
pub struct FlameArgs {
    pub max_bytes: Option<usize>,
    pub repeats: u32,
    pub num_threads: u32,
    pub data_name: String,
    pub version: u32,
}

/// The three commands the engine can be asked to run.
pub enum Commands {
    Bench(BenchArgs),
    Base(BaseArgs),
    Flame(FlameArgs),
}

/// A parsed command line.
pub struct Cli {
    pub command: Commands,
}

/// What the caller must do for a validated command.
pub enum Action {
    /// Run the summarizer repeatedly over the data file, compare each run's
    /// output against the baseline file, and report timings.
    Bench {
        data_path: String,
        out_path: String,
        max_bytes: Option<usize>,
        repeats: u32,
        num_slices: usize,
        versions: Vec<u32>,
    },
    /// Run the summarizer once and record its output as the baseline file,
    /// unless one already exists.
    Base {
        data_path: String,
        out_path: String,
        max_bytes: Option<usize>,
        num_slices: usize,
        version: u32,
    },
    /// Profile a release-mode benchmark run; the baseline file must already
    /// exist.
    Flame {
        out_path: String,
        max_bytes: Option<usize>,
        repeats: u32,
        num_threads: u32,
        data_name: String,
        version: u32,
    },
}

/// An invalid command line.
#[derive(Debug, Clone, Copy, PartialEq, Eq, Structural)]
pub enum CliError {
    /// The benchmark was asked to run no versions.
    NoVersions,
    /// The benchmark was asked to run zero repetitions.
    NoRepeats,
}

/// The decimal digit characters of a non-negative number.
pub open spec fn dec_chars(n: int) -> Seq<char>
    decreases n,
{
    if n < 10 {
        seq![digit_char(n)]
    } else {
        dec_chars(n / 10).push(digit_char(n % 10))
    }
}

pub open spec fn digit_char(d: int) -> char {
    if d == 0 {
        '0'
    } else if d == 1 {
        '1'
    } else if d == 2 {
        '2'
    } else if d == 3 {
        '3'
    } else if d == 4 {
        '4'
    } else if d == 5 {
        '5'
    } else if d == 6 {
        '6'
    } else if d == 7 {
        '7'
    } else if d == 8 {
        '8'
    } else {
        '9'
    }
}

/// The data file of a named data set.
pub open spec fn spec_data_path(name: Seq<char>) -> Seq<char> {
    "data/"@ + name + ".txt"@
}

/// The baseline file of a named data set: the byte limit, when there is one,
/// is part of the name.
pub open spec fn spec_out_path(name: Seq<char>, max_bytes: Option<usize>) -> Seq<char> {
    match max_bytes {
        Option::None => "data/"@ + name + ".out"@,
        Option::Some(n) => "data/"@ + name + "_"@ + dec_chars(n as int) + ".out"@,
    }
}

/// Appends the decimal digits of `n`.
fn push_dec_chars(out: &mut String, n: usize)
    ensures
        final(out)@ == old(out)@ + dec_chars(n as int),
    decreases n,
{
    if n >= 10 {
        push_dec_chars(out, n / 10);
    }
    let d = n % 10;
    let t = if d == 0 {
        "0"
    } else if d == 1 {
        "1"
    } else if d == 2 {
        "2"
    } else if d == 3 {
        "3"
    } else if d == 4 {
        "4"
    } else if d == 5 {
        "5"
    } else if d == 6 {
        "6"
    } else if d == 7 {
        "7"
    } else if d == 8 {
        "8"
    } else {
        "9"
    };
    proof {
        reveal_strlit("0");
        reveal_strlit("1");
        reveal_strlit("2");
        reveal_strlit("3");
        reveal_strlit("4");
        reveal_strlit("5");
        reveal_strlit("6");
        reveal_strlit("7");
        reveal_strlit("8");
        reveal_strlit("9");
        assert(t@ =~= seq![digit_char(n as int % 10)]);
    }
    out.append(t);
    proof {
        assert(final(out)@ =~= old(out)@ + dec_chars(n as int));
    }
}

/// The data file and baseline file of a named data set.
pub fn paths(data_name: &str, max_bytes: Option<usize>) -> (r: (String, String))
    ensures
        r.0@ == spec_data_path(data_name@),
        r.1@ == spec_out_path(data_name@, max_bytes),
{
    let mut data_path = String::new();
    data_path.append("data/");
    data_path.append(data_name);
    data_path.append(".txt");
    let mut out_path = String::new();
    out_path.append("data/");
    out_path.append(data_name);
    match max_bytes {
        Option::None => {},
        Option::Some(n) => {
            out_path.append("_");
            push_dec_chars(&mut out_path, n);
        },
    }
    out_path.append(".out");
    proof {
        assert(data_path@ =~= spec_data_path(data_name@));
        assert(out_path@ =~= spec_out_path(data_name@, max_bytes));
    }
    (data_path, out_path)
}

fn copy_u32s(v: &Vec<u32>) -> (r: Vec<u32>)
    ensures
        r@ == v@,
{
    let mut r: Vec<u32> = Vec::new();
    let mut i: usize = 0;
    loop
        invariant
            0 <= i <= v@.len(),
            r@ =~= v@.take(i as int),
        decreases v@.len() - i,
    {
        if i == v.len() {
            proof {
                assert(r@ =~= v@);
            }
            return r;
        }
        r.push(v[i]);
        i = i + 1;
        proof {
            assert(r@ =~= v@.take(i as int));
        }
    }
}

impl Cli {
    /// Validates the command line and decides the action to perform: which
    /// files to touch, how many worker slices to use, and which versions to
    /// run. A benchmark with no versions or zero repetitions is rejected.
    pub fn run(&self) -> (r: Result<Action, CliError>)
        ensures
            match self.command {
                Commands::Bench(ref a) => if a.versions@.len() == 0 {
                    r == Err::<Action, CliError>(CliError::NoVersions)
                } else if a.repeats == 0 {
                    r == Err::<Action, CliError>(CliError::NoRepeats)
                } else {
                    r matches Ok(Action::Bench {
                        ref data_path,
                        ref out_path,
                        max_bytes,
                        repeats,
                        num_slices,
                        ref versions,
                    }) && data_path@ == spec_data_path(a.data_name@) && out_path@
                        == spec_out_path(a.data_name@, a.max_bytes) && max_bytes == a.max_bytes
                        && repeats == a.repeats && num_slices == a.num_threads as usize
                        && versions@ == a.versions@
                },
                Commands::Base(ref a) => r matches Ok(Action::Base {
                    ref data_path,
                    ref out_path,
                    max_bytes,
                    num_slices,
                    version,
                }) && data_path@ == spec_data_path(a.data_name@) && out_path@ == spec_out_path(
                    a.data_name@,
                    a.max_bytes,
                ) && max_bytes == a.max_bytes && num_slices == a.num_threads as usize && version
                    == a.version,
                Commands::Flame(ref a) => r matches Ok(Action::Flame {
                    ref out_path,
                    max_bytes,
                    repeats,
                    num_threads,
                    ref data_name,
                    version,
                }) && out_path@ == spec_out_path(a.data_name@, a.max_bytes) && max_bytes
                    == a.max_bytes && repeats == a.repeats && num_threads == a.num_threads
                    && data_name@ == a.data_name@ && version == a.version,
            },
    {
        match &self.command {
            Commands::Bench(a) => {
                if a.versions.len() == 0 {
                    return Err(CliError::NoVersions);
                }
                if a.repeats == 0 {
                    return Err(CliError::NoRepeats);
                }
                let (data_path, out_path) = paths(a.data_name.as_str(), a.max_bytes);
                Ok(
                    Action::Bench {
                        data_path,
                        out_path,
                        max_bytes: a.max_bytes,
                        repeats: a.repeats,
                        num_slices: a.num_threads as usize,
                        versions: copy_u32s(&a.versions),
                    },
                )
            },
            Commands::Base(a) => {
                let (data_path, out_path) = paths(a.data_name.as_str(), a.max_bytes);
                Ok(
                    Action::Base {
                        data_path,
                        out_path,
                        max_bytes: a.max_bytes,
                        num_slices: a.num_threads as usize,
                        version: a.version,
                    },
                )
            },
            Commands::Flame(a) => {
                let (_data_path, out_path) = paths(a.data_name.as_str(), a.max_bytes);
                Ok(
                    Action::Flame {
                        out_path,
                        max_bytes: a.max_bytes,
                        repeats: a.repeats,
                        num_threads: a.num_threads,
                        data_name: a.data_name.clone(),
                        version: a.version,
                    },
                )
            },
        }
    }
}

/// The baseline form of a summary: the braces dropped and each `", "` joint
/// replaced by a line break.
pub open spec fn out_lines(s: Seq<u8>) -> Seq<u8>
    decreases s.len(),
{
    if s.len() == 0 {
        Seq::empty()
    } else if s[0] == 123 || s[0] == 125 {
        out_lines(s.drop_first())
    } else if s.len() >= 2 && s[0] == 44 && s[1] == 32 {
        seq![10u8] + out_lines(s.skip(2))
    } else {
        seq![s[0]] + out_lines(s.drop_first())
    }
}

/// Turns a summary into its baseline form: braces dropped, each `", "`
/// joint replaced by a line break.
#[verifier::loop_isolation(false)]
pub fn result_to_out(s: &Vec<u8>) -> (r: Vec<u8>)
    ensures
        r@ == out_lines(s@),
{
    let mut r: Vec<u8> = Vec::new();
    let mut i: usize = 0;
    proof {
        assert(s@.skip(0) =~= s@);
    }
    loop
        invariant
            0 <= i <= s@.len(),
            out_lines(s@) == r@ + out_lines(s@.skip(i as int)),
        decreases s@.len() - i,
    {
        if i == s.len() {
            proof {
                assert(out_lines(s@.skip(i as int)) =~= Seq::<u8>::empty());
                assert(r@ + out_lines(s@.skip(i as int)) =~= r@);
            }
            return r;
        }
        let ghost rem = s@.skip(i as int);
        proof {
            assert(rem[0] == s@[i as int]);
            assert(rem.drop_first() =~= s@.skip(i + 1));
            if rem.len() >= 2 {
                assert(rem[1] == s@[i + 1]);
                assert(rem.skip(2) =~= s@.skip(i + 2));
            }
        }
        let b = s[i];
        if b == 123 || b == 125 {
            i = i + 1;
        } else if b == 44 && i + 1 < s.len() && s[i + 1] == 32 {
            r.push(10);
            i = i + 2;
        } else {
            r.push(b);
            i = i + 1;
        }
        proof {
            assert(out_lines(s@) =~= r@ + out_lines(s@.skip(i as int)));
        }
    }
}

/// The lines of a buffer, split at newlines; a trailing newline ends the
/// last line rather than opening an empty one.
pub open spec fn lines_of(s: Seq<u8>) -> Seq<Seq<u8>>
    decreases s.len(),
    via lines_of_decreases
{
    if s.len() == 0 {
        Seq::empty()
    } else {
        let e = find0(s, 10);
        if e >= s.len() {
            seq![s]
        } else {
            seq![s.take(e)] + lines_of(s.skip(e + 1))
        }
    }
}

#[via_fn]
proof fn lines_of_decreases(s: Seq<u8>) {
    crate::records::lemma_find0(s, 10);
}

/// The first index at which two line sequences disagree, over the indices
/// both have; extra lines on either side are ignored.
pub open spec fn first_mismatch_at(a: Seq<Seq<u8>>, b: Seq<Seq<u8>>) -> Option<int>
    decreases a.len(),
{
    if a.len() == 0 || b.len() == 0 {
        Option::None
    } else if a[0] != b[0] {
        Option::Some(0int)
    } else {
        shift_index(first_mismatch_at(a.drop_first(), b.drop_first()), 1)
    }
}

pub open spec fn shift_index(o: Option<int>, k: int) -> Option<int> {
    match o {
        Option::None => Option::None,
        Option::Some(i) => Option::Some(i + k),
    }
}

/// Whether `a[ai..aj]` and `b[bi..bj]` hold the same bytes.
fn ranges_eq(a: &Vec<u8>, ai: usize, aj: usize, b: &Vec<u8>, bi: usize, bj: usize) -> (r: bool)
    requires
        ai <= aj <= a@.len(),
        bi <= bj <= b@.len(),
    ensures
        r == (a@.subrange(ai as int, aj as int) == b@.subrange(bi as int, bj as int)),
{
    let ghost sa = a@.subrange(ai as int, aj as int);
    let ghost sb = b@.subrange(bi as int, bj as int);
    if aj - ai != bj - bi {
        proof {
            assert(sa.len() != sb.len());
        }
        return false;
    }
    let n = aj - ai;
    let mut k: usize = 0;
    loop
        invariant
            0 <= k <= n,
            n == aj - ai == bj - bi,
            ai <= aj <= a@.len(),
            bi <= bj <= b@.len(),
            sa == a@.subrange(ai as int, aj as int),
            sb == b@.subrange(bi as int, bj as int),
            forall|m: int| 0 <= m < k ==> sa[m] == sb[m],
        decreases n - k,
    {
        if k == n {
            proof {
                assert(sa =~= sb);
            }
            return true;
        }
        if a[ai + k] != b[bi + k] {
            proof {
                assert(sa[k as int] == a@[ai + k]);
                assert(sb[k as int] == b@[bi + k]);
            }
            return false;
        }
        proof {
            assert(sa[k as int] == a@[ai + k]);
            assert(sb[k as int] == b@[bi + k]);
        }
        k = k + 1;
    }
}

/// Compares a computed summary against a recorded baseline line by line and
/// names the first line where they disagree, if any; lines past the shorter
/// of the two are not compared.
#[verifier::loop_isolation(false)]
pub fn first_mismatch(out: &Vec<u8>, expected: &Vec<u8>) -> (r: Option<usize>)
    ensures
        match r {
            Option::Some(i) => first_mismatch_at(lines_of(out@), lines_of(expected@))
                == Option::Some(i as int),
            Option::None => first_mismatch_at(lines_of(out@), lines_of(expected@))
                == Option::None::<int>,
        },
{
    let mut i: usize = 0;
    let mut j: usize = 0;
    let mut k: usize = 0;
    proof {
        assert(out@.skip(0) =~= out@);
        assert(expected@.skip(0) =~= expected@);
    }
    loop
        invariant
            0 <= i <= out@.len(),
            0 <= j <= expected@.len(),
            k <= i,
            first_mismatch_at(lines_of(out@), lines_of(expected@)) == shift_index(
                first_mismatch_at(
                    lines_of(out@.skip(i as int)),
                    lines_of(expected@.skip(j as int)),
                ),
                k as int,
            ),
        decreases out@.len() - i + 1,
    {
        let ghost ra = out@.skip(i as int);
        let ghost rb = expected@.skip(j as int);
        if i == out.len() || j == expected.len() {
            proof {
                if i == out@.len() {
                    assert(ra =~= Seq::<u8>::empty());
                    assert(lines_of(ra) =~= Seq::<Seq<u8>>::empty());
                } else {
                    assert(rb =~= Seq::<u8>::empty());
                    assert(lines_of(rb) =~= Seq::<Seq<u8>>::empty());
                }
            }
            return None;
        }
        let na = crate::scan::find_byte_from(out, i, out.len(), 10);
        let nb = crate::scan::find_byte_from(expected, j, expected.len(), 10);
        proof {
            assert forall|q: int| 0 <= q < na - i implies ra[q] != 10 by {
                assert(ra[q] == out@[i + q]);
            }
            if na < out@.len() {
                assert(ra[na - i] == out@[na as int]);
            }
            crate::records::lemma_find0_at(ra, 10, na - i);
            assert forall|q: int| 0 <= q < nb - j implies rb[q] != 10 by {
                assert(rb[q] == expected@[j + q]);
            }
            if nb < expected@.len() {
                assert(rb[nb - j] == expected@[nb as int]);
            }
            crate::records::lemma_find0_at(rb, 10, nb - j);
            assert(lines_of(ra)[0] =~= out@.subrange(i as int, na as int));
            assert(lines_of(rb)[0] =~= expected@.subrange(j as int, nb as int));
        }
        if !ranges_eq(out, i, na, expected, j, nb) {
            proof {
                assert(lines_of(ra)[0] != lines_of(rb)[0]);
                assert(first_mismatch_at(lines_of(ra), lines_of(rb)) == Option::Some(0int));
            }
            return Some(k);
        }
        proof {
            assert(lines_of(ra)[0] == lines_of(rb)[0]);
            if na < out@.len() {
                assert(ra.skip(na - i + 1) =~= out@.skip(na + 1));
                assert(lines_of(ra) == seq![ra.take(na - i)] + lines_of(ra.skip(na - i + 1)));
                assert(lines_of(ra).drop_first() =~= lines_of(out@.skip(na + 1)));
            } else {
                assert(lines_of(ra).drop_first() =~= Seq::<Seq<u8>>::empty());
                assert(lines_of(out@.skip(na as int)) =~= Seq::<Seq<u8>>::empty());
            }
            if nb < expected@.len() {
                assert(rb.skip(nb - j + 1) =~= expected@.skip(nb + 1));
                assert(lines_of(rb) == seq![rb.take(nb - j)] + lines_of(rb.skip(nb - j + 1)));
                assert(lines_of(rb).drop_first() =~= lines_of(expected@.skip(nb + 1)));
            } else {
                assert(lines_of(rb).drop_first() =~= Seq::<Seq<u8>>::empty());
                assert(lines_of(expected@.skip(nb as int)) =~= Seq::<Seq<u8>>::empty());
            }
        }
        i = if na == out.len() {
            na
        } else {
            na + 1
        };
        j = if nb == expected.len() {
            nb
        } else {
            nb + 1
        };
        k = k + 1;
    }
}

} // verus!
