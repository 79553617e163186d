//! Reading one latency out of the text that a single ping prints.
//!
//! The output is split into lines at `\n`. The first line that contains
//! `from` and a reading `time=<digits>.<digits>` gives the latency; when a
//! line holds several readings, the last one counts. A failed probe, or an
//! output without such a line, gives `ProbeFailed`.
use vstd::prelude::*;
use vstd::slice::slice_to_vec;

verus! {

/// The one failure of a probe: the command failed, or its output held no
/// readable latency.
#[derive(Debug, Clone, Copy, PartialEq, Eq, Structural)]
pub struct ProbeFailed;

/// A latency in milliseconds as the probe printed it: the ASCII digits
/// before the decimal point and those after it.
#[derive(Debug, PartialEq, Eq)]
pub struct Latency {
    pub whole: Vec<u8>,
    pub frac: Vec<u8>,
}

/// ASCII `0`.
pub const DIGIT_ZERO: u8 = 48;

/// ASCII `9`.
pub const DIGIT_NINE: u8 = 57;

/// ASCII `.`, between the whole and the fractional digits.
pub const DOT: u8 = 46;

/// ASCII line feed, which ends a line of output.
pub const NEWLINE: u8 = 10;

pub open spec fn is_digit(b: u8) -> bool {
    DIGIT_ZERO <= b <= DIGIT_NINE
}

/// `from` in ASCII.
pub open spec fn from_tag() -> Seq<u8> {
    seq![102u8, 114u8, 111u8, 109u8]
}

/// `time=` in ASCII.
pub open spec fn time_tag() -> Seq<u8> {
    seq![116u8, 105u8, 109u8, 101u8, 61u8]
}

/// `s` holds `pat` starting at position `p`.
pub open spec fn has_at(s: Seq<u8>, pat: Seq<u8>, p: int) -> bool {
    0 <= p && p + pat.len() <= s.len() && s.subrange(p, p + pat.len()) == pat
}

pub open spec fn contains_tag(s: Seq<u8>, pat: Seq<u8>) -> bool {
    exists|p: int| has_at(s, pat, p)
}

/// The number of digits in the run that starts at position `i` of `s`.
pub open spec fn digit_run(s: Seq<u8>, i: int) -> nat
    decreases s.len() - i,
{
    if 0 <= i < s.len() && is_digit(s[i]) {
        1 + digit_run(s, i + 1)
    } else {
        0
    }
}

/// At position `p` of `s` stands `time=`, then one or more digits, a `.`,
/// and one or more digits.
pub open spec fn reading_at(s: Seq<u8>, p: int) -> bool {
    let a = p + 5;
    let d = a + digit_run(s, a);
    &&& has_at(s, time_tag(), p)
    &&& digit_run(s, a) > 0
    &&& d < s.len()
    &&& s[d] == DOT
    &&& digit_run(s, d + 1) > 0
}

/// The whole and fractional digits of the reading at `p`, each run taken
/// in full.
pub open spec fn reading_value(s: Seq<u8>, p: int) -> (Seq<u8>, Seq<u8>) {
    let a = p + 5;
    let d = a + digit_run(s, a);
    (s.subrange(a, d), s.subrange(d + 1, d + 1 + digit_run(s, d + 1)))
}

/// The last position below `k` at which a reading starts.
pub open spec fn last_reading(s: Seq<u8>, k: int) -> Option<int>
    decreases k,
{
    if k <= 0 {
        None
    } else if reading_at(s, k - 1) {
        Some(k - 1)
    } else {
        last_reading(s, k - 1)
    }
}

/// What one line yields: its last reading, if it has one and contains
/// `from`.
pub open spec fn line_reading(line: Seq<u8>) -> Option<(Seq<u8>, Seq<u8>)> {
    if contains_tag(line, from_tag()) {
        match last_reading(line, line.len() as int) {
            Some(p) => Some(reading_value(line, p)),
            None => None,
        }
    } else {
        None
    }
}

/// What the output yields, going on from a line that starts at `start`
/// and has been scanned up to `j`: the value of the first line that has
/// one.
pub open spec fn reading_from(s: Seq<u8>, start: int, j: int) -> Option<(Seq<u8>, Seq<u8>)>
    decreases s.len() - j,
{
    if j < 0 || j > s.len() {
        None
    } else if j == s.len() {
        line_reading(s.subrange(start, j))
    } else if s[j] == NEWLINE {
        match line_reading(s.subrange(start, j)) {
            Some(v) => Some(v),
            None => reading_from(s, j + 1, j + 1),
        }
    } else {
        reading_from(s, start, j + 1)
    }
}

/// The value of the first line of `s` that yields one.
pub open spec fn output_reading(s: Seq<u8>) -> Option<(Seq<u8>, Seq<u8>)> {
    reading_from(s, 0, 0)
}

fn tag_at(s: &[u8], p: usize, tag: &[u8]) -> (r: bool)
    ensures
        r == has_at(s@, tag@, p as int),
{
    if p > s.len() || tag.len() > s.len() - p {
        return false;
    }
    let mut i: usize = 0;
    while i < tag.len()
        invariant
            p <= s@.len() <= usize::MAX,
            tag@.len() <= s@.len() - p,
            i <= tag@.len(),
            forall|k: int| 0 <= k < i ==> s@[p + k] == tag@[k],
        decreases tag.len() - i,
    {
        if s[p + i] != tag[i] {
            assert(s@.subrange(p as int, p + tag@.len())[i as int] != tag@[i as int]);
            return false;
        }
        i += 1;
    }
    assert(s@.subrange(p as int, p + tag@.len()) =~= tag@);
    true
}

fn contains_at_any(s: &[u8], tag: &[u8]) -> (r: bool)
    ensures
        r == contains_tag(s@, tag@),
{
    let mut p: usize = 0;
    while p < s.len()
        invariant
            p <= s@.len(),
            forall|q: int| 0 <= q < p ==> !has_at(s@, tag@, q),
        decreases s.len() - p,
    {
        if tag_at(s, p, tag) {
            return true;
        }
        p += 1;
    }
    if tag_at(s, p, tag) {
        return true;
    }
    assert forall|q: int| !has_at(s@, tag@, q) by {
        if q > p && has_at(s@, tag@, q) {
            assert(q + tag@.len() <= s@.len());
        }
    }
    false
}

proof fn lemma_digit_run(s: Seq<u8>, i: int, j: int)
    requires
        0 <= i <= j <= s.len(),
        forall|k: int| i <= k < j ==> is_digit(#[trigger] s[k]),
        j == s.len() || !is_digit(s[j]),
    ensures
        digit_run(s, i) == j - i,
    decreases j - i,
{
    if i < j {
        lemma_digit_run(s, i + 1, j);
    }
}

fn digit_run_len(s: &[u8], i: usize) -> (n: usize)
    requires
        i <= s@.len(),
    ensures
        n == digit_run(s@, i as int),
        i + n <= s@.len(),
{
    let mut j: usize = i;
    while j < s.len()
        invariant
            i <= j <= s@.len(),
            forall|k: int| i <= k < j ==> is_digit(#[trigger] s@[k]),
        ensures
            i <= j <= s@.len(),
            forall|k: int| i <= k < j ==> is_digit(#[trigger] s@[k]),
            j == s@.len() || !is_digit(s@[j as int]),
        decreases s.len() - j,
    {
        if !(DIGIT_ZERO <= s[j] && s[j] <= DIGIT_NINE) {
            break;
        }
        j += 1;
    }
    proof {
        lemma_digit_run(s@, i as int, j as int);
    }
    j - i
}

/// Whether a reading starts at position `p` of `s`; `time` holds `time=`.
fn is_reading_at(s: &[u8], p: usize, time: &[u8]) -> (r: bool)
    requires
        time@ == time_tag(),
    ensures
        r == reading_at(s@, p as int),
{
    let len = s.len();
    if !tag_at(s, p, time) {
        return false;
    }
    let a = p + 5;
    let n1 = digit_run_len(s, a);
    let d = a + n1;
    if n1 == 0 || d >= s.len() || s[d] != DOT {
        return false;
    }
    digit_run_len(s, d + 1) > 0
}

proof fn lemma_last_reading(s: Seq<u8>, k: int)
    ensures
        last_reading(s, k) matches Some(p) ==> 0 <= p < k && reading_at(s, p),
    decreases k,
{
    if k > 0 {
        lemma_last_reading(s, k - 1);
    }
}

/// The position of the last reading in `s`.
fn find_last_reading(s: &[u8], time: &[u8]) -> (r: Option<usize>)
    requires
        time@ == time_tag(),
    ensures
        match r {
            Some(p) => last_reading(s@, s@.len() as int) == Some(p as int),
            None => last_reading(s@, s@.len() as int) is None,
        },
{
    let mut k: usize = s.len();
    while k > 0
        invariant
            k <= s@.len(),
            time@ == time_tag(),
            last_reading(s@, s@.len() as int) == last_reading(s@, k as int),
        decreases k,
    {
        if is_reading_at(s, k - 1, time) {
            return Some(k - 1);
        }
        k -= 1;
    }
    None
}

/// Reads the latency of one line of output: the last `time=` reading of
/// a line that contains `from`.
pub fn parse_ping_line(line: &[u8]) -> (r: Result<Latency, ProbeFailed>)
    ensures
        match r {
            Ok(l) => line_reading(line@) == Some((l.whole@, l.frac@)),
            Err(_) => line_reading(line@) is None,
        },
{
    let from: Vec<u8> = vec![102u8, 114u8, 111u8, 109u8];
    assert(from@ =~= from_tag());
    if !contains_at_any(line, from.as_slice()) {
        return Err(ProbeFailed);
    }
    let time: Vec<u8> = vec![116u8, 105u8, 109u8, 101u8, 61u8];
    assert(time@ =~= time_tag());
    match find_last_reading(line, time.as_slice()) {
        None => Err(ProbeFailed),
        Some(p) => {
            let len = line.len();
            proof {
                lemma_last_reading(line@, line@.len() as int);
            }
            let a = p + 5;
            let d = a + digit_run_len(line, a);
            let e = d + 1 + digit_run_len(line, d + 1);
            let whole = slice_to_vec(&line[a..d]);
            let frac = slice_to_vec(&line[d + 1..e]);
            Ok(Latency { whole, frac })
        }
    }
}

/// Reads the latency out of a probe's result: `succeeded` tells whether
/// the command exited with success, `output` is what it printed. The
/// value comes from the first line that yields one.
pub fn parse_ping_output(succeeded: bool, output: &[u8]) -> (r: Result<Latency, ProbeFailed>)
    ensures
        match r {
            Ok(l) => succeeded && output_reading(output@) == Some((l.whole@, l.frac@)),
            Err(_) => !succeeded || output_reading(output@) is None,
        },
{
    if !succeeded {
        return Err(ProbeFailed);
    }
    let mut start: usize = 0;
    let mut j: usize = 0;
    while j < output.len()
        invariant
            succeeded,
            start <= j <= output@.len(),
            reading_from(output@, start as int, j as int) == output_reading(output@),
        decreases output.len() - j,
    {
        if output[j] == NEWLINE {
            let line = &output[start..j];
            assert(line@ == output@.subrange(start as int, j as int));
            match parse_ping_line(line) {
                Ok(l) => {
                    assert(reading_from(output@, start as int, j as int) == Some((l.whole@, l.frac@)));
                    return Ok(l);
                },
                Err(_) => {},
            }
            start = j + 1;
        }
        j += 1;
    }
    parse_ping_line(&output[start..j])
}

impl Latency {
    /// The reading as ASCII text: the whole digits, `.`, the fractional
    /// digits.
    pub fn text(&self) -> (r: Vec<u8>)
        ensures
            r@ == self.whole@ + seq![DOT] + self.frac@,
    {
        let mut r: Vec<u8> = Vec::new();
        append_bytes(&mut r, self.whole.as_slice());
        r.push(DOT);
        append_bytes(&mut r, self.frac.as_slice());
        r
    }
}

fn append_bytes(v: &mut Vec<u8>, s: &[u8])
    ensures
        final(v)@ == old(v)@ + s@,
{
    let mut i: usize = 0;
    while i < s.len()
        invariant
            i <= s@.len(),
            v@ == old(v)@ + s@.subrange(0, i as int),
        decreases s.len() - i,
    {
        v.push(s[i]);
        i += 1;
        assert(s@.subrange(0, i as int) =~= s@.subrange(0, i - 1) + seq![s@[i - 1]]);
    }
    assert(s@.subrange(0, i as int) =~= s@);
}

} // verus!
