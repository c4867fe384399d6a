//! Degradation counters.
//!
//! A degraded error counts under its metric. Metric names are `snake_case`
//! string literals; the counts of a metric that several places increment add
//! up. Counters live in memory only.

use crate::error::{Severity, Z1Error};
use crate::sort::{stable_sort, Ranked};
use crate::text::str_eq;
use core::ops::ControlFlow;
use vstd::prelude::*;

verus! {

/// A metric and its count.
#[derive(Debug, Clone, Copy)]
pub struct MetricCount {
    pub metric: &'static str,
    pub count: u64,
}

/// Larger counts first.
impl Ranked for MetricCount {
    open spec fn ranks_le(self, other: Self) -> bool {
        self.count >= other.count
    }

    proof fn ranks_total(a: Self, b: Self) {
    }

    proof fn ranks_transitive(a: Self, b: Self, c: Self) {
    }

    fn is_le(&self, other: &Self) -> (r: bool) {
        self.count >= other.count
    }
}

/// The counters of all metrics that were ever incremented.
#[derive(Debug)]
pub struct DegradeCounts {
    pub counts: Vec<MetricCount>,
}

/// The count of a metric in a list; nothing where it is not listed.
pub open spec fn count_in(s: Seq<MetricCount>, metric: Seq<char>) -> Option<u64>
    decreases s.len(),
{
    if s.len() == 0 {
        None
    } else if s.last().metric@ == metric {
        Some(s.last().count)
    } else {
        count_in(s.drop_last(), metric)
    }
}

/// No metric is listed twice.
pub open spec fn metrics_distinct(s: Seq<MetricCount>) -> bool {
    forall|i: int, j: int|
        0 <= i < j < s.len() ==> (#[trigger] s[i]).metric@ != (#[trigger] s[j]).metric@
}

proof fn lemma_count_at(s: Seq<MetricCount>, i: int)
    requires
        metrics_distinct(s),
        0 <= i < s.len(),
    ensures
        count_in(s, s[i].metric@) == Some(s[i].count),
    decreases s.len(),
{
    if i < s.len() - 1 {
        let rest = s.drop_last();
        assert(rest[i] == s[i]);
        assert(s[i].metric@ != s[s.len() - 1].metric@);
        assert(metrics_distinct(rest)) by {
            assert forall|a: int, b: int| 0 <= a < b < rest.len() implies (
            #[trigger] rest[a]).metric@ != (#[trigger] rest[b]).metric@ by {
                assert(s[a].metric@ != s[b].metric@);
            }
        }
        lemma_count_at(rest, i);
    }
}

proof fn lemma_count_none(s: Seq<MetricCount>, metric: Seq<char>)
    ensures
        count_in(s, metric) is None <==> forall|i: int|
            0 <= i < s.len() ==> (#[trigger] s[i]).metric@ != metric,
    decreases s.len(),
{
    if s.len() > 0 {
        let rest = s.drop_last();
        lemma_count_none(rest, metric);
        if count_in(s, metric) is None {
            assert forall|i: int| 0 <= i < s.len() implies (#[trigger] s[i]).metric@ != metric by {
                if i < rest.len() {
                    assert(rest[i].metric@ != metric);
                }
            }
        } else if s.last().metric@ == metric {
            assert(s[s.len() - 1].metric@ == metric);
        } else {
            let i = choose|i: int| 0 <= i < rest.len() && (#[trigger] rest[i]).metric@ == metric;
            assert(s[i].metric@ == metric);
        }
    }
}

impl DegradeCounts {
    pub open spec fn wf(&self) -> bool {
        metrics_distinct(self.counts@)
    }

    pub fn new() -> (r: Self)
        ensures
            r.wf(),
            forall|m: Seq<char>| #[trigger] count_in(r.counts@, m) is None,
    {
        DegradeCounts { counts: Vec::new() }
    }

    /// Count one more degradation under `metric`.
    pub fn increment(&mut self, metric: &'static str)
        requires
            old(self).wf(),
        ensures
            final(self).wf(),
            forall|m: Seq<char>| #[trigger]
                count_in(final(self).counts@, m) == (if m == metric@ {
                    match count_in(old(self).counts@, m) {
                        Some(n) => Some(n.wrapping_add(1)),
                        None => Some(1),
                    }
                } else {
                    count_in(old(self).counts@, m)
                }),
    {
        let ghost s0 = self.counts@;
        let mut i: usize = 0;
        while i < self.counts.len()
            invariant
                i <= self.counts@.len(),
                self.counts@ == s0,
                s0 == old(self).counts@,
                metrics_distinct(s0),
                forall|j: int| 0 <= j < i ==> (#[trigger] s0[j]).metric@ != metric@,
            decreases self.counts@.len() - i,
        {
            let c = self.counts[i];
            if str_eq(c.metric, metric) {
                let n: u64 = c.count.wrapping_add(1);
                self.counts.set(i, MetricCount { metric: c.metric, count: n });
                proof {
                    let s1 = self.counts@;
                    assert(metrics_distinct(s1)) by {
                        assert forall|a: int, b: int| 0 <= a < b < s1.len() implies (
                        #[trigger] s1[a]).metric@ != (#[trigger] s1[b]).metric@ by {
                            assert(s0[a].metric@ != s0[b].metric@);
                        }
                    }
                    lemma_count_at(s0, i as int);
                    lemma_count_at(s1, i as int);
                    assert(count_in(s1, metric@) == Some(n));
                    assert(count_in(s0, metric@) == Some(c.count));
                    assert forall|m: Seq<char>| #[trigger] count_in(s1, m) == (if m == metric@ {
                        Some(n)
                    } else {
                        count_in(s0, m)
                    }) by {
                        if m != metric@ {
                            lemma_count_update(s0, s1, i as int, m);
                        }
                    }
                }
                return ;
            }
            i = i + 1;
        }
        self.counts.push(MetricCount { metric, count: 1 });
        proof {
            let s1 = self.counts@;
            assert(s1.drop_last() =~= s0);
            lemma_count_none(s0, metric@);
        }
    }

    /// All counters, the largest first.
    pub fn snapshot(&self) -> (r: Vec<(&'static str, u64)>)
        requires
            self.wf(),
        ensures
            forall|i: int, j: int| 0 <= i < j < r@.len() ==> (#[trigger] r@[i]).1 >= (
            #[trigger] r@[j]).1,
            r@.len() == self.counts@.len(),
            forall|i: int|
                0 <= i < r@.len() ==> count_in(self.counts@, (#[trigger] r@[i]).0@) == Some(
                    r@[i].1,
                ),
            forall|m: Seq<char>|
                #[trigger] count_in(self.counts@, m) is Some ==> exists|i: int|
                    0 <= i < r@.len() && (#[trigger] r@[i]).0@ == m,
    {
        let mut v: Vec<MetricCount> = Vec::new();
        let mut i: usize = 0;
        while i < self.counts.len()
            invariant
                i <= self.counts@.len(),
                v@ == self.counts@.take(i as int),
            decreases self.counts@.len() - i,
        {
            assert(self.counts@.take(i + 1) =~= self.counts@.take(i as int).push(
                self.counts@[i as int],
            ));
            v.push(self.counts[i]);
            i = i + 1;
        }
        assert(v@ =~= self.counts@);
        let sorted = stable_sort(v);
        let mut out: Vec<(&'static str, u64)> = Vec::new();
        let mut i: usize = 0;
        while i < sorted.len()
            invariant
                i <= sorted@.len(),
                out@.len() == i,
                forall|j: int|
                    0 <= j < i ==> (#[trigger] out@[j]).0 == sorted@[j].metric && out@[j].1
                        == sorted@[j].count,
            decreases sorted@.len() - i,
        {
            let c = sorted[i];
            out.push((c.metric, c.count));
            i = i + 1;
        }
        proof {
            let s = self.counts@;
            s.to_multiset_ensures();
            sorted@.to_multiset_ensures();
            assert forall|i: int| 0 <= i < out@.len() implies count_in(
                s,
                (#[trigger] out@[i]).0@,
            ) == Some(out@[i].1) by {
                let x = sorted@[i];
                assert(sorted@.contains(x));
                assert(sorted@.to_multiset().count(x) > 0);
                assert(s.to_multiset().count(x) > 0);
                assert(s.contains(x));
                let k = choose|k: int| 0 <= k < s.len() && s[k] == x;
                lemma_count_at(s, k);
            }
            assert forall|m: Seq<char>| #[trigger] count_in(s, m) is Some implies exists|i: int|
                0 <= i < out@.len() && (#[trigger] out@[i]).0@ == m by {
                lemma_count_none(s, m);
                let k = choose|k: int| 0 <= k < s.len() && (#[trigger] s[k]).metric@ == m;
                let x = s[k];
                assert(s.contains(x));
                assert(s.to_multiset().count(x) > 0);
                assert(sorted@.to_multiset().count(x) > 0);
                assert(sorted@.contains(x));
                let i = choose|i: int| 0 <= i < sorted@.len() && sorted@[i] == x;
                assert(out@[i].0@ == m);
            }
            assert forall|i: int, j: int| 0 <= i < j < out@.len() implies (#[trigger] out@[i]).1
                >= (#[trigger] out@[j]).1 by {
                assert(sorted@[i].ranks_le(sorted@[j]));
            }
        }
        out
    }
}

proof fn lemma_count_update(s0: Seq<MetricCount>, s1: Seq<MetricCount>, i: int, m: Seq<char>)
    requires
        0 <= i < s0.len(),
        s1.len() == s0.len(),
        forall|j: int| 0 <= j < s0.len() && j != i ==> #[trigger] s1[j] == s0[j],
        s1[i].metric@ == s0[i].metric@,
        m != s0[i].metric@,
    ensures
        count_in(s1, m) == count_in(s0, m),
    decreases s0.len(),
{
    let r0 = s0.drop_last();
    let r1 = s1.drop_last();
    if i == s0.len() - 1 {
        assert(r0 =~= r1);
    } else {
        assert(s1[s0.len() - 1] == s0[s0.len() - 1]);
        lemma_count_update(r0, r1, i, m);
    }
}

impl Default for DegradeCounts {
    fn default() -> (r: Self)
        ensures
            r.wf(),
            forall|m: Seq<char>| #[trigger] count_in(r.counts@, m) is None,
    {
        Self::new()
    }
}

/// Decide how to go on after an error: a fatal one, or one that strict mode
/// makes fatal, breaks; any other is counted and lets the caller skip the
/// item at hand.
pub fn handle_degrade(
    counts: &mut DegradeCounts,
    err: &Z1Error,
    strict_mode: bool,
) -> (r: ControlFlow<(), ()>)
    requires
        old(counts).wf(),
    ensures
        final(counts).wf(),
        r is Break <==> err.severity_of().under_strict_mode(strict_mode) is Fatal,
        forall|m: Seq<char>| #[trigger]
            count_in(final(counts).counts@, m) == (match err.severity_of().under_strict_mode(
                strict_mode,
            ).metric_name() {
                Some(name) => if m == name@ {
                    match count_in(old(counts).counts@, m) {
                        Some(n) => Some(n.wrapping_add(1)),
                        None => Some(1),
                    }
                } else {
                    count_in(old(counts).counts@, m)
                },
                None => count_in(old(counts).counts@, m),
            }),
{
    let sev = err.severity().with_strict_mode(strict_mode);
    if let Some(metric) = sev.metric() {
        counts.increment(metric);
    }
    if sev.is_fatal() {
        ControlFlow::Break(())
    } else {
        ControlFlow::Continue(())
    }
}

/// In strict mode every degradation is fatal; without it none is.
pub proof fn law_strict_mode_surfaces_degradation(metric: &'static str, context: String)
    ensures
        (Z1Error::Degraded { metric, context }).severity_of().under_strict_mode(true) is Fatal,
        (Z1Error::Degraded { metric, context }).severity_of().under_strict_mode(false) is Degrade,
{
}

/// Which degradations would give a wrong answer, and so are never recoverable:
/// those of visibility data, WAL records, version chains and snapshots. Every
/// other error is fatal in any mode.
pub proof fn law_severity_of_errors(err: Z1Error, strict: bool)
    ensures
        err is Degraded ==> err.severity_of() == (Severity::Degrade {
            metric: err->Degraded_metric,
            recoverable: err->Degraded_metric@ != "vis_data_unavailable"@
                && err->Degraded_metric@ != "wal_record_corrupt"@ && err->Degraded_metric@
                != "version_chain_broken"@ && err->Degraded_metric@ != "gc_snapshot_violation"@,
        }),
        !(err is Degraded) ==> err.severity_of() is Fatal && err.severity_of().under_strict_mode(
            strict,
        ) is Fatal,
        err is Degraded ==> (err.severity_of().under_strict_mode(strict) is Fatal <==> strict),
        err.severity_of().metric_name() is Some <==> err is Degraded,
{
}

/// A counter is found under its metric, and under no other.
pub proof fn law_counter_is_found(s: Seq<MetricCount>, i: int, metric: Seq<char>)
    requires
        forall|a: int, b: int|
            0 <= a < b < s.len() ==> (#[trigger] s[a]).metric@ != (#[trigger] s[b]).metric@,
    ensures
        0 <= i < s.len() ==> count_in(s, s[i].metric@) == Some(s[i].count),
        (forall|a: int| 0 <= a < s.len() ==> (#[trigger] s[a]).metric@ != metric) ==> count_in(
            s,
            metric,
        ) is None,
    decreases s.len(),
{
    if s.len() > 0 {
        let rest = s.drop_last();
        let n = s.len() - 1;
        assert(s[n] == s.last());
        assert forall|a: int, b: int| 0 <= a < b < rest.len() implies (#[trigger] rest[a]).metric@
            != (#[trigger] rest[b]).metric@ by {
            assert(s[a].metric@ != s[b].metric@);
        }
        law_counter_is_found(rest, i, metric);
        if 0 <= i < n {
            assert(s[i].metric@ != s[n].metric@);
            assert(rest[i] == s[i]);
        }
        if forall|a: int| 0 <= a < s.len() ==> (#[trigger] s[a]).metric@ != metric {
            assert(s[n].metric@ != metric);
            assert forall|a: int| 0 <= a < rest.len() implies (#[trigger] rest[a]).metric@
                != metric by {
                assert(s[a].metric@ != metric);
            }
        }
    }
}

} // verus!
