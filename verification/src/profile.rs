//! Frame profiling: the switch, the samples of each metric and their percentiles.
use vstd::prelude::*;

verus! {

/// The number of samples a metric collects before it reports.
pub const MIN_SAMPLES: usize = 120;

/// Whether profiling is on, given the value of the `HELIX_PROFILE_FRAMES` variable: it is
/// on exactly when the variable is set to `1`.
pub fn enabled(value: Option<&str>) -> (r: bool)
    ensures
        r == (value matches Some(v) && v@ == "1"@),
{
    match value {
        Some(v) => crate::text::str_eq(v, "1"),
        None => false,
    }
}

/// A measured region: when it is active it holds the start time and the metric to record.
pub struct Scope<I, M> {
    start: Option<I>,
    metric: Option<M>,
}

impl<I, M> Scope<I, M> {
    /// The start time and metric, when the scope is active.
    pub closed spec fn parts(&self) -> (Option<I>, Option<M>) {
        (self.start, self.metric)
    }

    /// A scope that records nothing.
    pub fn disabled() -> (r: Scope<I, M>)
        ensures
            r.parts() == (None::<I>, None::<M>),
    {
        Scope { start: None, metric: None }
    }

    /// A scope that records into `metric` the time since `start`.
    pub fn active(start: I, metric: M) -> (r: Scope<I, M>)
        ensures
            r.parts() == (Some(start), Some(metric)),
    {
        Scope { start: Some(start), metric: Some(metric) }
    }

    /// What ending the scope records: the start time and the metric, when both are set.
    pub fn finish(self) -> (r: Option<(I, M)>)
        ensures
            r == (match self.parts() {
                (Some(s), Some(m)) => Some((s, m)),
                _ => None,
            }),
    {
        match (self.start, self.metric) {
            (Some(s), Some(m)) => Some((s, m)),
            _ => None,
        }
    }
}

/// Starts measuring a region: when profiling is off the scope records nothing and neither
/// `start` nor `metric` is called; otherwise it holds the start time and the metric that
/// they give.
pub fn scope<I, M, F: FnOnce() -> I, G: FnOnce() -> M>(enabled: bool, start: F, metric: G) -> (r: Scope<I, M>)
    requires
        enabled ==> call_requires(start, ()),
        enabled ==> call_requires(metric, ()),
    ensures
        !enabled ==> r.parts() == (None::<I>, None::<M>),
        enabled ==> r.parts().0 is Some && r.parts().1 is Some && call_ensures(
            start,
            (),
            r.parts().0.unwrap(),
        ) && call_ensures(metric, (), r.parts().1.unwrap()),
{
    if !enabled {
        return Scope::disabled();
    }
    let s = start();
    let m = metric();
    Scope::active(s, m)
}

/// The samples that a metric collected since it last reported, in microseconds.
pub struct Samples {
    values: Vec<u64>,
}

impl View for Samples {
    type V = Seq<u64>;

    closed spec fn view(&self) -> Seq<u64> {
        self.values@
    }
}

impl Samples {
    /// No samples.
    pub fn new() -> (r: Samples)
        ensures
            r@ == Seq::<u64>::empty(),
    {
        Samples { values: Vec::new() }
    }

    /// Adds a sample; tells whether enough samples were collected to report.
    pub fn push(&mut self, micros: u64) -> (r: bool)
        ensures
            final(self)@ == old(self)@.push(micros),
            r == (final(self)@.len() >= MIN_SAMPLES),
    {
        self.values.push(micros);
        self.values.len() >= MIN_SAMPLES
    }

    /// Takes the samples out, leaving none.
    pub fn take(&mut self) -> (r: Vec<u64>)
        ensures
            r@ == old(self)@,
            final(self)@ == Seq::<u64>::empty(),
    {
        let mut out = Vec::new();
        std::mem::swap(&mut out, &mut self.values);
        out
    }
}

/// The state of one measured region between reports: the samples collected since the last
/// report, when that report was made, and whether a report is being made.
pub struct MetricState<I> {
    samples: Samples,
    last_log: I,
    reporting: bool,
}

impl<I> MetricState<I> {
    /// The samples collected since the last report.
    pub closed spec fn samples_view(&self) -> Seq<u64> {
        self.samples@
    }

    /// When the last report was made.
    pub closed spec fn last_log_view(&self) -> I {
        self.last_log
    }

    /// Whether a report is being made.
    pub closed spec fn reporting_view(&self) -> bool {
        self.reporting
    }

    /// No samples yet, counting time from `now`, and no report being made.
    pub fn new(now: I) -> (r: MetricState<I>)
        ensures
            r.samples_view() == Seq::<u64>::empty(),
            r.last_log_view() == now,
            !r.reporting_view(),
    {
        MetricState { samples: Samples::new(), last_log: now, reporting: false }
    }

    /// When the last report was made.
    pub fn last_log(&self) -> (r: &I)
        ensures
            *r == self.last_log_view(),
    {
        &self.last_log
    }

    /// Records a sample. When at least `MIN_SAMPLES` samples are collected, the report
    /// interval has passed (`interval_passed`) and no report is being made, the samples are
    /// handed back to report, none are kept, the time of the report becomes `now` and a
    /// report is being made. Otherwise the sample is kept and nothing else changes.
    pub fn record(&mut self, micros: u64, interval_passed: bool, now: I) -> (r: Option<Vec<u64>>)
        ensures
            ({
                let pushed = old(self).samples_view().push(micros);
                if pushed.len() >= MIN_SAMPLES && interval_passed && !old(self).reporting_view() {
                    &&& r matches Some(v) && v@ == pushed
                    &&& final(self).samples_view() == Seq::<u64>::empty()
                    &&& final(self).last_log_view() == now
                    &&& final(self).reporting_view()
                } else {
                    &&& r is None
                    &&& final(self).samples_view() == pushed
                    &&& final(self).last_log_view() == old(self).last_log_view()
                    &&& final(self).reporting_view() == old(self).reporting_view()
                }
            }),
    {
        let enough = self.samples.push(micros);
        if !enough || !interval_passed || self.reporting {
            return None;
        }
        self.reporting = true;
        self.last_log = now;
        Some(self.samples.take())
    }

    /// Marks the report as made.
    pub fn finish_report(&mut self)
        ensures
            final(self).samples_view() == old(self).samples_view(),
            final(self).last_log_view() == old(self).last_log_view(),
            !final(self).reporting_view(),
    {
        self.reporting = false;
    }
}

/// The metric of each measured region, one per name: every request for a name gets a clone
/// of the same metric, made on the first request.
pub struct MetricRegistry<M> {
    names: Vec<&'static str>,
    metrics: Vec<M>,
}

/// The metrics by name, for names listed in order with their metrics.
pub open spec fn metrics_by_name<M>(names: Seq<&'static str>, metrics: Seq<M>) -> Map<Seq<char>, M>
    decreases names.len(),
{
    if names.len() == 0 || metrics.len() == 0 {
        Map::empty()
    } else {
        metrics_by_name(names.drop_last(), metrics.drop_last()).insert(
            names.last()@,
            metrics.last(),
        )
    }
}

proof fn lemma_metrics_by_name_lookup<M>(names: Seq<&'static str>, metrics: Seq<M>, i: int)
    requires
        names.len() == metrics.len(),
        0 <= i < names.len(),
        forall|a: int, b: int| 0 <= a < b < names.len() ==> names[a]@ != names[b]@,
    ensures
        metrics_by_name(names, metrics).contains_key(names[i]@),
        metrics_by_name(names, metrics)[names[i]@] == metrics[i],
    decreases names.len(),
{
    if i < names.len() - 1 {
        lemma_metrics_by_name_lookup(names.drop_last(), metrics.drop_last(), i);
    }
}

proof fn lemma_metrics_by_name_miss<M>(names: Seq<&'static str>, metrics: Seq<M>, k: Seq<char>)
    requires
        names.len() == metrics.len(),
        forall|a: int| 0 <= a < names.len() ==> names[a]@ != k,
    ensures
        !metrics_by_name(names, metrics).contains_key(k),
    decreases names.len(),
{
    if names.len() > 0 {
        lemma_metrics_by_name_miss(names.drop_last(), metrics.drop_last(), k);
    }
}

impl<M> View for MetricRegistry<M> {
    type V = Map<Seq<char>, M>;

    closed spec fn view(&self) -> Map<Seq<char>, M> {
        metrics_by_name(self.names@, self.metrics@)
    }
}

impl<M: Clone> MetricRegistry<M> {
    /// Names and metrics go in pairs, and no name occurs twice.
    pub closed spec fn wf(&self) -> bool {
        &&& self.names@.len() == self.metrics@.len()
        &&& forall|a: int, b: int|
            0 <= a < b < self.names@.len() ==> self.names@[a]@ != self.names@[b]@
    }

    /// No metric yet.
    pub fn new() -> (r: MetricRegistry<M>)
        ensures
            r.wf(),
            r@ == Map::<Seq<char>, M>::empty(),
    {
        let r = MetricRegistry { names: Vec::new(), metrics: Vec::new() };
        assert(r@ =~= Map::<Seq<char>, M>::empty());
        r
    }

    /// A clone of the metric named `name`. The first request for a name makes the metric
    /// with `make`; later requests leave the registry as it is.
    pub fn metric<F: FnOnce() -> M>(&mut self, name: &'static str, make: F) -> (r: M)
        requires
            old(self).wf(),
            call_requires(make, ()),
        ensures
            final(self).wf(),
            old(self)@.contains_key(name@) ==> final(self)@ == old(self)@ && cloned(
                old(self)@[name@],
                r,
            ),
            !old(self)@.contains_key(name@) ==> call_ensures(make, (), final(self)@[name@])
                && final(self)@ == old(self)@.insert(name@, final(self)@[name@]) && cloned(
                final(self)@[name@],
                r,
            ),
    {
        let n = self.names.len();
        let mut i: usize = 0;
        while i < n
            invariant
                n == self.names@.len(),
                self.wf(),
                i <= n,
                forall|a: int| 0 <= a < i ==> self.names@[a]@ != name@,
            decreases n - i,
        {
            if crate::text::str_eq(self.names[i], name) {
                proof {
                    lemma_metrics_by_name_lookup(self.names@, self.metrics@, i as int);
                }
                return self.metrics[i].clone();
            }
            i = i + 1;
        }
        proof {
            lemma_metrics_by_name_miss(self.names@, self.metrics@, name@);
        }
        let m = make();
        let out = m.clone();
        let ghost before = self@;
        self.names.push(name);
        self.metrics.push(m);
        proof {
            assert(self.names@.drop_last() =~= old(self).names@);
            assert(self.metrics@.drop_last() =~= old(self).metrics@);
        }
        out
    }
}

/// Summary of a set of samples, in microseconds.
#[derive(Debug, Clone, Copy, PartialEq, Eq, Structural)]
pub struct Stats {
    pub samples: usize,
    pub p50_us: u64,
    pub p95_us: u64,
    pub max_us: u64,
}

/// The value at `percent` percent of the way through the sorted samples `s`.
pub open spec fn percentile(s: Seq<u64>, percent: int) -> u64 {
    s[(s.len() - 1) * percent / 100]
}

/// The summary of samples whose sorted order is `s`.
pub open spec fn stats_of_sorted(s: Seq<u64>) -> Stats {
    Stats {
        samples: s.len() as usize,
        p50_us: percentile(s, 50),
        p95_us: percentile(s, 95),
        max_us: s[s.len() - 1],
    }
}

/// `s` is sorted in non-decreasing order.
pub open spec fn sorted_u64(s: Seq<u64>) -> bool {
    forall|i: int, j: int| 0 <= i <= j < s.len() ==> s[i] <= s[j]
}

/// Sorts samples into non-decreasing order, by insertion.
pub fn sort_samples(values: Vec<u64>) -> (r: Vec<u64>)
    ensures
        sorted_u64(r@),
        r@.to_multiset() == values@.to_multiset(),
{
    let ghost original = values@;
    let mut sorted: Vec<u64> = Vec::new();
    let mut rest = values;
    proof {
        sorted@.to_multiset_ensures();
        assert(sorted@.to_multiset().add(rest@.to_multiset()) =~= original.to_multiset());
    }
    while rest.len() > 0
        invariant
            sorted_u64(sorted@),
            sorted@.to_multiset().add(rest@.to_multiset()) == original.to_multiset(),
        decreases rest@.len(),
    {
        let ghost before_rest = rest@;
        let ghost s0 = sorted@;
        let x = rest.pop().unwrap();
        proof {
            assert(before_rest =~= rest@.push(x));
            rest@.to_multiset_ensures();
        }
        let mut p: usize = 0;
        while p < sorted.len() && sorted[p] <= x
            invariant
                sorted@ == s0,
                p <= s0.len(),
                forall|i: int| 0 <= i < p ==> #[trigger] s0[i] <= x,
            decreases s0.len() - p,
        {
            p = p + 1;
        }
        sorted.insert(p, x);
        proof {
            assert(sorted@ == s0.insert(p as int, x));
            vstd::seq_lib::to_multiset_insert(s0, p as int, x);
            assert(sorted@.to_multiset().add(rest@.to_multiset()) =~= original.to_multiset());
            assert forall|i: int, j: int| 0 <= i <= j < sorted@.len() implies sorted@[i]
                <= sorted@[j] by {
                if j < p {
                } else if i > p {
                    assert(sorted@[i] == s0[i - 1] && sorted@[j] == s0[j - 1]);
                } else if i < p && j > p {
                    assert(sorted@[j] == s0[j - 1]);
                    assert(s0[i] <= x);
                    assert(x < s0[p as int]);
                    assert(s0[p as int] <= s0[j - 1]);
                } else if i == p && j > p {
                    assert(sorted@[j] == s0[j - 1]);
                    assert(x < s0[p as int]);
                    assert(s0[p as int] <= s0[j - 1]);
                }
            }
        }
    }
    proof {
        rest@.to_multiset_ensures();
        assert(sorted@.to_multiset().add(rest@.to_multiset()) =~= sorted@.to_multiset());
    }
    sorted
}

proof fn lemma_sorted_last_is_max(s: Seq<u64>, i: int)
    requires
        sorted_u64(s),
        0 <= i < s.len(),
    ensures
        s[i] <= s[s.len() - 1],
{
}

/// Two sorted sequences that hold the same elements, each as often, are equal.
pub proof fn lemma_sorted_permutation_unique(a: Seq<u64>, b: Seq<u64>)
    requires
        sorted_u64(a),
        sorted_u64(b),
        a.to_multiset() == b.to_multiset(),
    ensures
        a == b,
    decreases a.len(),
{
    a.to_multiset_ensures();
    b.to_multiset_ensures();
    if a.len() == 0 {
        assert(a =~= b);
    } else {
        let x = a[a.len() - 1];
        let y = b[b.len() - 1];
        assert(a.contains(x));
        assert(a.to_multiset().count(x) > 0);
        assert(b.to_multiset().count(x) > 0);
        assert(b.contains(x));
        let j = choose|j: int| 0 <= j < b.len() && b[j] == x;
        lemma_sorted_last_is_max(b, j);
        assert(b.contains(y));
        assert(b.to_multiset().count(y) > 0);
        assert(a.to_multiset().count(y) > 0);
        assert(a.contains(y));
        let k = choose|k: int| 0 <= k < a.len() && a[k] == y;
        lemma_sorted_last_is_max(a, k);
        assert(x == y);
        assert(a.remove(a.len() - 1) =~= a.drop_last());
        assert(b.remove(b.len() - 1) =~= b.drop_last());
        assert(a.drop_last().to_multiset() =~= a.to_multiset().remove(x));
        assert(b.drop_last().to_multiset() =~= b.to_multiset().remove(y));
        lemma_sorted_permutation_unique(a.drop_last(), b.drop_last());
        assert(a =~= a.drop_last().push(x));
        assert(b =~= b.drop_last().push(y));
    }
}

/// The median is at most the 95th percentile, which is at most the maximum.
pub proof fn lemma_percentiles_ordered(s: Seq<u64>)
    requires
        sorted_u64(s),
        s.len() > 0,
    ensures
        stats_of_sorted(s).p50_us <= stats_of_sorted(s).p95_us,
        stats_of_sorted(s).p95_us <= stats_of_sorted(s).max_us,
{
    let n = s.len() - 1;
    assert(n * 50 / 100 <= n * 95 / 100) by (nonlinear_arith)
        requires
            n >= 0,
    ;
    assert(n * 95 / 100 <= n) by (nonlinear_arith)
        requires
            n >= 0,
    ;
}

impl Stats {
    /// Sorts the samples and reads off their count, median, 95th percentile and maximum.
    pub fn from_values(values: Vec<u64>) -> (r: Stats)
        requires
            values@.len() > 0,
            values@.len() <= usize::MAX / 100,
        ensures
            forall|s: Seq<u64>|
                sorted_u64(s) && s.to_multiset() == values@.to_multiset() ==> r
                    == stats_of_sorted(s),
    {
        let ghost original = values@;
        let values = sort_samples(values);
        proof {
            original.to_multiset_ensures();
            values@.to_multiset_ensures();
        }
        let samples = values.len();
        let p50_us = values[(samples - 1) * 50 / 100];
        let p95_us = values[(samples - 1) * 95 / 100];
        let max_us = values[samples - 1];
        let r = Stats { samples, p50_us, p95_us, max_us };
        proof {
            assert forall|s: Seq<u64>|
                sorted_u64(s) && s.to_multiset() == original.to_multiset() implies r
                    == stats_of_sorted(s) by {
                lemma_sorted_permutation_unique(s, values@);
            }
        }
        r
    }
}

} // verus!
