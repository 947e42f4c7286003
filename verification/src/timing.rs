//! Elapsed-time bounds and benchmark statistics of package sourcing.
//!
//! Durations are counted in nanoseconds.

use vstd::prelude::*;
use crate::chars::chars_of;

verus! {

#[verifier::external_type_specification]
#[verifier::external_body]
pub struct ExDurationError(humantime::DurationError);

/// The duration, in nanoseconds, that a human-friendly duration text such as
/// `1s`, `15min 30s` or `2h` denotes, when it denotes one.
pub uninterp spec fn parsed_duration(s: Seq<char>) -> Option<u128>;

/// Characters that end a number in humantime's parser: ASCII letters, `µ`
/// and the decimal point.
pub open spec fn ends_number(c: char) -> bool {
    ('a' <= c && c <= 'z') || ('A' <= c && c <= 'Z') || c == '\u{b5}' || c == '.'
}

/// A bound on the numbers of a text: each maximal run of digits, read with
/// any other characters inside it skipped (humantime reads `1 2` as 12),
/// counts as its value plus one when a unit or a decimal point ends it, and
/// the counts are summed. A run that the text's end closes counts nothing:
/// humantime rejects a number without a unit before adding it. `cur` is the
/// value of a run in progress, if `in_run`.
pub open spec fn number_measure(s: Seq<char>, cur: nat, in_run: bool) -> nat
    decreases s.len(),
{
    if s.len() == 0 {
        0
    } else if '0' <= s[0] && s[0] <= '9' {
        number_measure(s.drop_first(), cur * 10 + ((s[0] as int - '0' as int) as nat), true)
    } else if ends_number(s[0]) {
        (if in_run {
            cur + 1
        } else {
            0nat
        }) + number_measure(s.drop_first(), 0, false)
    } else {
        number_measure(s.drop_first(), cur, in_run)
    }
}

/// A duration text humantime parses without panicking. humantime's parser
/// panics (in `std::time::Duration::new`) only when a sum of spans carries a
/// whole second into a seconds count at `u64::MAX`, that is, when the spans
/// added so far come to at least `2^64` seconds. Each span is a number of at
/// most one year (31557600 seconds, its largest unit) per unit, plus less
/// than one unit for a fractional part and a carried second, and only
/// numbers that a unit or a decimal point ends are added; so a text whose
/// measure is at most `u64::MAX / 31557600` never comes that far.
pub open spec fn duration_fits(s: Seq<char>) -> bool {
    number_measure(s, 0, false) * 31557600 <= u64::MAX
}

/// The greatest measure that `duration_fits` admits.
pub const MEASURE_LIMIT: u64 = 584542046090;

proof fn lemma_fits_limit(m: nat)
    ensures
        (m * 31557600 <= u64::MAX) == (m <= MEASURE_LIMIT),
{
    if m <= MEASURE_LIMIT {
        assert(m * 31557600 <= 584542046090nat * 31557600) by (nonlinear_arith)
            requires
                m <= 584542046090nat,
        ;
    } else {
        assert(m * 31557600 >= 584542046091nat * 31557600) by (nonlinear_arith)
            requires
                m >= 584542046091nat,
        ;
    }
}

/// Whether humantime may be handed a text: computes `duration_fits`,
/// counting with values capped just above the limit.
pub fn duration_fits_text(s: &str) -> (r: bool)
    ensures
        r == duration_fits(s@),
{
    let cs = chars_of(s);
    let cap: u64 = MEASURE_LIMIT + 1;
    let mut total: u64 = 0;
    let mut cur: u64 = 0;
    let mut in_run = false;
    let ghost mut gtotal: nat = 0;
    let ghost mut gcur: nat = 0;
    let mut i: usize = 0;
    assert(s@.skip(0) =~= s@);
    while i < cs.len()
        invariant
            cs@ == s@,
            cap == MEASURE_LIMIT + 1,
            i <= cs@.len(),
            number_measure(s@, 0, false) == gtotal + number_measure(s@.skip(i as int), gcur, in_run),
            total == (if gtotal < cap { gtotal } else { cap as nat }),
            cur == (if gcur < cap { gcur } else { cap as nat }),
        decreases cs@.len() - i,
    {
        let c = cs[i];
        let ghost rest = s@.skip(i as int);
        assert(rest[0] == c);
        assert(rest.drop_first() =~= s@.skip(i + 1));
        if '0' <= c && c <= '9' {
            let d = (c as u32 - '0' as u32) as u64;
            cur = if cur >= cap {
                cap
            } else if cur * 10 + d >= cap {
                cap
            } else {
                cur * 10 + d
            };
            proof {
                gcur = gcur * 10 + ((c as int - '0' as int) as nat);
            }
            in_run = true;
        } else if ('a' <= c && c <= 'z') || ('A' <= c && c <= 'Z') || c == '\u{b5}' || c == '.' {
            if in_run {
                let sum = total + cur + 1;
                total = if sum >= cap {
                    cap
                } else {
                    sum
                };
                proof {
                    gtotal = gtotal + gcur + 1;
                }
            }
            cur = 0;
            in_run = false;
            proof {
                gcur = 0;
            }
        }
        i = i + 1;
    }
    proof {
        assert(s@.skip(i as int).len() == 0);
        lemma_fits_limit(gtotal);
    }
    total <= MEASURE_LIMIT
}

/// An operator character before a bound's duration changes no number.
proof fn lemma_measure_operator(s: Seq<char>, k: int)
    requires
        0 <= k <= s.len(),
        forall|i: int| 0 <= i < k ==> (s[i] == '<' || s[i] == '>' || s[i] == '='),
    ensures
        number_measure(s.skip(k), 0, false) == number_measure(s, 0, false),
    decreases k,
{
    if k > 0 {
        assert(s.skip(k) =~= s.drop_first().skip(k - 1));
        assert forall|i: int| 0 <= i < k - 1 implies (s.drop_first()[i] == '<' || s.drop_first()[i] == '>'
            || s.drop_first()[i] == '=') by {
            assert(s.drop_first()[i] == s[i + 1]);
        }
        lemma_measure_operator(s.drop_first(), k - 1);
    } else {
        assert(s.skip(0) =~= s);
    }
}

/// Parses a human-friendly duration with `humantime::Duration::from_str`
/// (which is `humantime::parse_duration`), giving its length in nanoseconds.
/// Claimed: the outcome is a function of the text alone, named
/// `parsed_duration`; the text `0` is the zero duration; an empty text is
/// rejected. Only texts that `duration_fits` admits are handed over: the
/// parser can panic on texts that denote `2^64` seconds or more.
#[verifier::external_body]
fn parse_duration_nanos(s: &str) -> (r: Result<u128, humantime::DurationError>)
    requires
        duration_fits(s@),
    ensures
        (r matches Ok(n) ==> parsed_duration(s@) == Some(n)),
        r is Err ==> parsed_duration(s@) is None,
        s@.len() == 0 ==> r is Err,
        s@ == "0"@ ==> r is Ok && r->Ok_0 == 0,
{
    match s.parse::<humantime::Duration>() {
        Ok(d) => Ok(std::time::Duration::from(d).as_nanos()),
        Err(e) => Err(e),
    }
}

/// A bound on elapsed time.
#[derive(Clone, Copy, PartialEq, Eq, Structural, Debug)]
pub enum Bound {
    Less(u128),
    LessOrEqual(u128),
    Greater(u128),
    GreaterOrEqual(u128),
}

/// Whether a duration satisfies a bound.
pub open spec fn bound_holds(b: Bound, d: u128) -> bool {
    match b {
        Bound::Less(x) => d < x,
        Bound::LessOrEqual(x) => d <= x,
        Bound::GreaterOrEqual(x) => d >= x,
        Bound::Greater(x) => d > x,
    }
}

/// The kinds of bounds.
#[derive(Clone, Copy, PartialEq, Eq, Structural, Debug)]
pub enum BoundKind {
    Less,
    LessOrEqual,
    Greater,
    GreaterOrEqual,
}

/// A bound's kind and the duration text after its operator; no operator
/// means `>=`.
pub open spec fn bound_prefix(s: Seq<char>) -> (BoundKind, Seq<char>) {
    if s.len() >= 2 && s[0] == '>' && s[1] == '=' {
        (BoundKind::GreaterOrEqual, s.skip(2))
    } else if s.len() >= 1 && s[0] == '>' {
        (BoundKind::Greater, s.skip(1))
    } else if s.len() >= 2 && s[0] == '<' && s[1] == '=' {
        (BoundKind::LessOrEqual, s.skip(2))
    } else if s.len() >= 1 && s[0] == '<' {
        (BoundKind::Less, s.skip(1))
    } else {
        (BoundKind::GreaterOrEqual, s)
    }
}

/// The bound of a given kind on a duration.
pub open spec fn make_bound(k: BoundKind, d: u128) -> Bound {
    match k {
        BoundKind::Less => Bound::Less(d),
        BoundKind::LessOrEqual => Bound::LessOrEqual(d),
        BoundKind::Greater => Bound::Greater(d),
        BoundKind::GreaterOrEqual => Bound::GreaterOrEqual(d),
    }
}

impl Bound {
    /// Whether a duration satisfies the bound.
    pub fn matches(&self, duration: u128) -> (r: bool)
        ensures
            r == bound_holds(*self, duration),
    {
        match self {
            Bound::Less(bound) => duration < *bound,
            Bound::LessOrEqual(bound) => duration <= *bound,
            Bound::GreaterOrEqual(bound) => duration >= *bound,
            Bound::Greater(bound) => duration > *bound,
        }
    }

    /// Parse a bound such as `<1s`, `>=15ms` or `2s` (meaning `>=2s`). The
    /// text is one that `duration_fits` admits, as `duration_fits_text`
    /// tells: humantime's parser can panic on texts denoting `2^64` seconds
    /// or more.
    pub fn parse(s: &str) -> (r: Result<Bound, humantime::DurationError>)
        requires
            duration_fits(s@),
        ensures
            ({
                let (k, val) = bound_prefix(s@);
                match r {
                    Ok(b) => parsed_duration(val) matches Some(d) && b == make_bound(k, d),
                    Err(_) => parsed_duration(val) is None,
                }
            }),
    {
        let cs = chars_of(s);
        let n = cs.len();
        let (kind, skip) = if n >= 2 && cs[0] == '>' && cs[1] == '=' {
            (BoundKind::GreaterOrEqual, 2)
        } else if n >= 1 && cs[0] == '>' {
            (BoundKind::Greater, 1)
        } else if n >= 2 && cs[0] == '<' && cs[1] == '=' {
            (BoundKind::LessOrEqual, 2)
        } else if n >= 1 && cs[0] == '<' {
            (BoundKind::Less, 1)
        } else {
            (BoundKind::GreaterOrEqual, 0)
        };
        let val = s.substring_char(skip, n);
        assert(s@.subrange(skip as int, n as int) =~= s@.skip(skip as int));
        assert(s@.skip(0) =~= s@);
        proof {
            lemma_measure_operator(s@, skip as int);
        }
        let d = match parse_duration_nanos(val) {
            Ok(d) => d,
            Err(e) => return Err(e),
        };
        Ok(
            match kind {
                BoundKind::Less => Bound::Less(d),
                BoundKind::LessOrEqual => Bound::LessOrEqual(d),
                BoundKind::Greater => Bound::Greater(d),
                BoundKind::GreaterOrEqual => Bound::GreaterOrEqual(d),
            },
        )
    }
}

/// Whether a duration satisfies every bound.
pub open spec fn all_hold(bounds: Seq<Bound>, d: u128) -> bool {
    forall|i: int| 0 <= i < bounds.len() ==> bound_holds(#[trigger] bounds[i], d)
}

/// Whether a duration satisfies every bound; reported durations are the ones
/// that do.
pub fn within_bounds(bounds: &Vec<Bound>, duration: u128) -> (r: bool)
    ensures
        r == all_hold(bounds@, duration),
{
    let mut i: usize = 0;
    while i < bounds.len()
        invariant
            i <= bounds@.len(),
            forall|j: int| 0 <= j < i ==> bound_holds(#[trigger] bounds@[j], duration),
        decreases bounds@.len() - i,
    {
        if !bounds[i].matches(duration) {
            return false;
        }
        i = i + 1;
    }
    true
}

/// Sum of a sequence.
pub open spec fn total(s: Seq<u64>) -> int
    decreases s.len(),
{
    if s.len() == 0 {
        0
    } else {
        total(s.drop_last()) + s.last()
    }
}

/// Smallest element of a non-empty sequence.
pub open spec fn least(s: Seq<u64>) -> u64
    decreases s.len(),
{
    if s.len() <= 1 {
        s[0]
    } else if s.last() < least(s.drop_last()) {
        s.last()
    } else {
        least(s.drop_last())
    }
}

/// Largest element of a non-empty sequence.
pub open spec fn greatest(s: Seq<u64>) -> u64
    decreases s.len(),
{
    if s.len() <= 1 {
        s[0]
    } else if s.last() > greatest(s.drop_last()) {
        s.last()
    } else {
        greatest(s.drop_last())
    }
}

/// Sum of squared deviations from `m`.
pub open spec fn squared_deviations(s: Seq<u64>, m: int) -> int
    decreases s.len(),
{
    if s.len() == 0 {
        0
    } else {
        squared_deviations(s.drop_last(), m) + (s.last() - m) * (s.last() - m)
    }
}

/// Statistics of benchmark samples, in microseconds.
#[derive(Debug)]
pub struct SampleStats {
    pub min: u64,
    pub max: u64,
    /// The mean, rounded down.
    pub mean: u64,
    /// The number of samples.
    pub count: u64,
    /// The sum of squared deviations from the rounded mean; the variance is
    /// this divided by the number of samples.
    pub squared_deviations: u128,
}

proof fn lemma_total_bounds(s: Seq<u64>)
    ensures
        0 <= total(s) <= s.len() * u64::MAX,
    decreases s.len(),
{
    if s.len() > 0 {
        lemma_total_bounds(s.drop_last());
    }
}

proof fn lemma_least_greatest(s: Seq<u64>)
    requires
        s.len() > 0,
    ensures
        least(s) <= greatest(s),
        forall|i: int| 0 <= i < s.len() ==> least(s) <= #[trigger] s[i] <= greatest(s),
    decreases s.len(),
{
    if s.len() > 1 {
        lemma_least_greatest(s.drop_last());
        assert forall|i: int| 0 <= i < s.len() implies least(s) <= #[trigger] s[i] <= greatest(s) by {
            if i < s.len() - 1 {
                assert(s[i] == s.drop_last()[i]);
            }
        }
    }
}

proof fn lemma_squared_prefix(s: Seq<u64>, m: int, k: int)
    requires
        0 <= k <= s.len(),
    ensures
        0 <= squared_deviations(s.take(k), m) <= squared_deviations(s, m),
    decreases s.len() - k,
{
    if k < s.len() {
        lemma_squared_prefix(s, m, k + 1);
        lemma_squared_nonneg(s.take(k), m);
        assert(s.take(k + 1).drop_last() =~= s.take(k));
        assert(s.take(k + 1).last() == s[k]);
        let d = s[k] - m;
        assert(d * d >= 0) by (nonlinear_arith);
    } else {
        assert(s.take(k) =~= s);
        lemma_squared_nonneg(s, m);
    }
}

proof fn lemma_squared_nonneg(s: Seq<u64>, m: int)
    ensures
        squared_deviations(s, m) >= 0,
    decreases s.len(),
{
    if s.len() > 0 {
        lemma_squared_nonneg(s.drop_last(), m);
        let d = s.last() - m;
        assert(d * d >= 0) by (nonlinear_arith);
    }
}

/// The statistics `pk pkg source --bench` reports for a package's samples:
/// none for an empty sample.
pub fn sample_stats(micros: &Vec<u64>) -> (r: Option<SampleStats>)
    requires
        micros@.len() <= u64::MAX,
        total(micros@) <= u64::MAX,
        micros@.len() > 0 ==> squared_deviations(micros@, total(micros@) / micros@.len() as int)
            <= i64::MAX,
    ensures
        micros@.len() == 0 <==> r is None,
        r matches Some(st) ==> {
            &&& st.count == micros@.len()
            &&& st.min == least(micros@)
            &&& st.max == greatest(micros@)
            &&& st.mean == total(micros@) / micros@.len() as int
            &&& st.squared_deviations == squared_deviations(micros@, st.mean as int)
        },
{
    let n = micros.len();
    if n == 0 {
        return None;
    }
    let mut min = micros[0];
    let mut max = micros[0];
    let mut sum: u128 = micros[0] as u128;
    let mut i: usize = 1;
    proof {
        let t1 = micros@.take(1);
        assert(t1.drop_last() =~= Seq::<u64>::empty());
        assert(t1.last() == micros@[0]);
        assert(total(Seq::<u64>::empty()) == 0);
        assert(total(t1) == total(t1.drop_last()) + t1.last());
        assert(total(t1) == micros@[0] as int);
    }
    while i < n
        invariant
            1 <= i <= n,
            n == micros@.len(),
            n <= u64::MAX,
            min == least(micros@.take(i as int)),
            max == greatest(micros@.take(i as int)),
            sum == total(micros@.take(i as int)),
        decreases n - i,
    {
        let ghost t = micros@.take(i + 1);
        assert(t.drop_last() =~= micros@.take(i as int));
        assert(t.last() == micros@[i as int]);
        let v = micros[i];
        proof {
            lemma_total_bounds(micros@.take(i as int));
            assert((i as int) * (u64::MAX as int) + u64::MAX <= (u64::MAX as int + 1) * (u64::MAX as int)) by (nonlinear_arith)
                requires
                    i <= u64::MAX,
            ;
        }
        if v < min {
            min = v;
        }
        if v > max {
            max = v;
        }
        sum = sum + v as u128;
        i = i + 1;
    }
    assert(micros@.take(n as int) =~= micros@);
    proof {
        lemma_total_bounds(micros@);
        assert(total(micros@) / (n as int) <= u64::MAX) by (nonlinear_arith)
            requires
                0 <= total(micros@) <= (n as int) * (u64::MAX as int),
                n >= 1,
        ;
    }
    let mean = (sum / (n as u128)) as u64;
    let mut sq: u128 = 0;
    let mut j: usize = 0;
    assert(micros@.take(0) =~= Seq::<u64>::empty());
    while j < n
        invariant
            j <= n,
            n == micros@.len(),
            n <= u64::MAX,
            mean as int == total(micros@) / n as int,
            squared_deviations(micros@, mean as int) <= i64::MAX,
            sq == squared_deviations(micros@.take(j as int), mean as int),
        decreases n - j,
    {
        let ghost t = micros@.take(j + 1);
        assert(t.drop_last() =~= micros@.take(j as int));
        assert(t.last() == micros@[j as int]);
        let v = micros[j];
        let d: u128 = if v >= mean {
            (v - mean) as u128
        } else {
            (mean - v) as u128
        };
        proof {
            assert(d * d == (v - mean) * (v - mean)) by (nonlinear_arith)
                requires
                    d == (if v >= mean { v - mean } else { mean - v }),
            ;
            lemma_squared_prefix(micros@, mean as int, j + 1);
        }
        sq = sq + d * d;
        j = j + 1;
    }
    assert(micros@.take(n as int) =~= micros@);
    Some(SampleStats { min, max, mean, count: n as u64, squared_deviations: sq })
}

// ---------------------------------------------------------------------------
// sourcing and benchmarking runs

/// Whether some package's sourcing failed (`None`): the result of a sourcing
/// or benchmarking run.
pub fn run_failed<T>(results: &Vec<Option<T>>) -> (r: bool)
    ensures
        r == exists|i: int| 0 <= i < results@.len() && #[trigger] results@[i] is None,
{
    let mut i: usize = 0;
    while i < results.len()
        invariant
            i <= results@.len(),
            forall|j: int| 0 <= j < i ==> #[trigger] results@[j] is Some,
        decreases results@.len() - i,
    {
        if results[i].is_none() {
            return true;
        }
        i = i + 1;
    }
    false
}

/// The positions of the packages a sourcing run reports: those sourced
/// (`Some` elapsed time, in nanoseconds) whose time meets every bound, in
/// order.
pub open spec fn reported(results: Seq<Option<u128>>, bounds: Seq<Bound>) -> Seq<usize>
    decreases results.len(),
{
    if results.len() == 0 {
        Seq::empty()
    } else {
        let rest = reported(results.drop_last(), bounds);
        match results.last() {
            Some(d) => if all_hold(bounds, d) {
                rest.push((results.len() - 1) as usize)
            } else {
                rest
            },
            None => rest,
        }
    }
}

/// A sourcing run: whether some package failed, and which packages get a
/// report line with their elapsed time.
pub fn source_report(results: &Vec<Option<u128>>, bounds: &Vec<Bound>) -> (r: (bool, Vec<usize>))
    ensures
        r.0 == exists|i: int| 0 <= i < results@.len() && #[trigger] results@[i] is None,
        r.1@ == reported(results@, bounds@),
{
    let failed = run_failed(results);
    let mut lines: Vec<usize> = Vec::new();
    let mut i: usize = 0;
    while i < results.len()
        invariant
            i <= results@.len(),
            lines@ == reported(results@.take(i as int), bounds@),
        decreases results@.len() - i,
    {
        assert(results@.take(i + 1).drop_last() =~= results@.take(i as int));
        match results[i] {
            Some(d) => {
                if within_bounds(bounds, d) {
                    lines.push(i);
                }
            },
            None => {},
        }
        i = i + 1;
    }
    assert(results@.take(results@.len() as int) =~= results@);
    (failed, lines)
}

/// Benchmarking one package: the time spent so far, in nanoseconds, and the
/// samples taken, in microseconds.
pub struct Sampling {
    pub elapsed: u128,
    pub samples: Vec<u64>,
}

impl Sampling {
    /// The time spent is the sum of the samples.
    pub open spec fn consistent(&self) -> bool {
        self.elapsed == total(self.samples@) * 1000
    }

    /// Nothing sampled yet.
    pub fn new() -> (r: Sampling)
        ensures
            r.elapsed == 0,
            r.samples@ == Seq::<u64>::empty(),
            r.consistent(),
    {
        Sampling { elapsed: 0, samples: Vec::new() }
    }

    /// Whether to source the package once more: while the time spent is
    /// below the duration asked for.
    pub fn sample_again(&self, duration: u128) -> (r: bool)
        ensures
            r == (self.elapsed < duration),
    {
        self.elapsed < duration
    }

    /// Record one sourcing that took `micros` microseconds.
    pub fn record(&mut self, micros: u64)
        requires
            old(self).elapsed + micros * 1000 <= u128::MAX,
        ensures
            final(self).samples@ == old(self).samples@.push(micros),
            final(self).elapsed == old(self).elapsed + micros * 1000,
            old(self).consistent() ==> final(self).consistent(),
    {
        let ghost before = self.samples@;
        self.elapsed = self.elapsed + (micros as u128) * 1000;
        self.samples.push(micros);
        assert(self.samples@.drop_last() =~= before);
    }
}

/// Benchmarking for a positive duration takes at least one sample of every
/// package it finishes: sampling stops only once the time spent reaches the
/// duration, and no time is spent without a sample.
pub proof fn lemma_positive_duration_samples(st: Sampling, duration: u128)
    requires
        st.consistent(),
        duration > 0,
        !(st.elapsed < duration),
    ensures
        st.samples@.len() > 0,
{
}

} // verus!
