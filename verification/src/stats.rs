//! Connection statistics: the number of active connections, its recent history
//! and the load figures that follow from it.

use std::collections::VecDeque;
use vstd::prelude::*;

verus! {

/// How many samples of the history are kept.
pub const MAX_SAMPLES: usize = 6000;

/// The number of connections right after it changed.
#[derive(Debug, Clone, Copy, PartialEq, Eq)]
pub struct Sample {
    /// When it changed, in nanoseconds of a clock that does not run backwards.
    pub timestamp: u64,
    /// The number of active connections from then on.
    pub value: usize,
}

/// A quotient of two whole numbers, such as a mean.
#[derive(Debug, Clone, Copy, PartialEq, Eq)]
pub struct Mean {
    pub total: u128,
    pub count: usize,
}

/// The load figures of the service. Utilization is the number of connections
/// divided by the number of processors.
#[derive(Debug, Clone, Copy, PartialEq, Eq)]
pub struct StatsReport {
    pub current_connections: usize,
    pub num_cpus: usize,
    /// The number of decoder workers.
    pub pool_size: usize,
    /// The largest number of connections that is served efficiently.
    pub max_concurrent: usize,
    /// Mean connections over the last second.
    pub mean_1s: Mean,
    /// Mean connections over the last ten seconds.
    pub mean_10s: Mean,
    /// Mean connections over the last minute.
    pub mean_60s: Mean,
    /// Mean connections over the last two minutes.
    pub mean_120s: Mean,
    /// Mean connections over the last five minutes.
    pub mean_300s: Mean,
    /// Whether the service is overloaded.
    pub alarm: bool,
}

/// Statistics as a value.
pub struct StatsModel {
    pub active: nat,
    pub samples: Seq<Sample>,
    pub num_cpus: nat,
}

impl StatsModel {
    /// What holds of statistics at all times.
    pub open spec fn wf(self) -> bool {
        &&& self.active <= usize::MAX
        &&& self.samples.len() <= MAX_SAMPLES
        &&& 1 <= self.num_cpus <= isize::MAX
    }

    /// These statistics after the number of connections changed to `active`: the
    /// change is recorded, and of the history the latest samples are kept.
    pub open spec fn changed(self, active: nat, now: u64) -> StatsModel {
        let all = self.samples.push(Sample { timestamp: now, value: active as usize });
        StatsModel {
            active,
            samples: if all.len() > MAX_SAMPLES {
                all.skip(all.len() - MAX_SAMPLES)
            } else {
                all
            },
            num_cpus: self.num_cpus,
        }
    }

    /// The mean number of connections over the last `window` nanoseconds: the
    /// mean of the samples in the window, or the current number where there is
    /// none.
    pub open spec fn mean(self, now: u64, window: u64) -> Mean {
        let recent = recent_samples(self.samples, now - window);
        if recent.len() == 0 {
            Mean { total: self.active as u128, count: 1 }
        } else {
            Mean { total: total_of(recent) as u128, count: recent.len() as usize }
        }
    }

    /// Whether one of the means over ten seconds or more has reached the number
    /// of processors.
    pub open spec fn alarm(self, now: u64) -> bool {
        reaches(self.mean(now, seconds(10)), self.num_cpus) || reaches(
            self.mean(now, seconds(60)),
            self.num_cpus,
        ) || reaches(self.mean(now, seconds(120)), self.num_cpus) || reaches(
            self.mean(now, seconds(300)),
            self.num_cpus,
        )
    }

    /// The load figures.
    pub open spec fn report(self, now: u64) -> StatsReport {
        StatsReport {
            current_connections: self.active as usize,
            num_cpus: self.num_cpus as usize,
            pool_size: (self.num_cpus * 2) as usize,
            max_concurrent: self.num_cpus as usize,
            mean_1s: self.mean(now, seconds(1)),
            mean_10s: self.mean(now, seconds(10)),
            mean_60s: self.mean(now, seconds(60)),
            mean_120s: self.mean(now, seconds(120)),
            mean_300s: self.mean(now, seconds(300)),
            alarm: self.alarm(now),
        }
    }
}

/// So many seconds in nanoseconds.
pub open spec fn seconds(n: u64) -> u64 {
    (n * 1_000_000_000) as u64
}

/// The samples that are not older than `cutoff`, in order.
pub open spec fn recent_samples(samples: Seq<Sample>, cutoff: int) -> Seq<Sample> {
    samples.filter(|s: Sample| s.timestamp >= cutoff)
}

/// The sum of the sampled numbers.
pub open spec fn total_of(samples: Seq<Sample>) -> nat
    decreases samples.len(),
{
    if samples.len() == 0 {
        0
    } else {
        total_of(samples.drop_last()) + samples.last().value as nat
    }
}

/// Whether a mean is at least `n`.
pub open spec fn reaches(mean: Mean, n: nat) -> bool {
    mean.total >= mean.count * n
}

/// Calls `num_cpus::get`, which counts the processors that this process may use.
/// It promises at least one. The count is a number of bits in a processor mask
/// of fixed size or a positive signed number from the operating system, so that
/// it fits a signed machine word.
#[verifier::external_body]
fn available_cpus() -> (n: usize)
    ensures
        1 <= n <= isize::MAX,
{
    num_cpus::get()
}

/// Connection statistics tracker.
#[derive(Debug)]
pub struct Stats {
    active_connections: usize,
    samples: VecDeque<Sample>,
    num_cpus: usize,
}

impl View for Stats {
    type V = StatsModel;

    closed spec fn view(&self) -> StatsModel {
        StatsModel {
            active: self.active_connections as nat,
            samples: self.samples@,
            num_cpus: self.num_cpus as nat,
        }
    }
}

impl Stats {
    /// Statistics without connections, for the processors of this machine.
    pub fn new() -> (r: Self)
        ensures
            r@.wf(),
            r@.active == 0,
            r@.samples == Seq::<Sample>::empty(),
    {
        Stats::with_cpus(available_cpus())
    }

    /// Statistics without connections, for a number of processors.
    pub fn with_cpus(num_cpus: usize) -> (r: Self)
        requires
            1 <= num_cpus <= isize::MAX,
        ensures
            r@ == (StatsModel { active: 0, samples: Seq::empty(), num_cpus: num_cpus as nat }),
            r@.wf(),
    {
        let r = Stats { active_connections: 0, samples: VecDeque::new(), num_cpus };
        assert(r@.samples =~= Seq::empty());
        r
    }

    /// A connection has started.
    pub fn connection_start(&mut self, now: u64)
        requires
            old(self)@.wf(),
            old(self)@.active < usize::MAX,
        ensures
            final(self)@ == old(self)@.changed(old(self)@.active + 1, now),
            final(self)@.wf(),
    {
        self.active_connections = self.active_connections + 1;
        self.record_sample(self.active_connections, now);
    }

    /// A connection has ended.
    pub fn connection_end(&mut self, now: u64)
        requires
            old(self)@.wf(),
            old(self)@.active > 0,
        ensures
            final(self)@ == old(self)@.changed((old(self)@.active - 1) as nat, now),
            final(self)@.wf(),
    {
        self.active_connections = self.active_connections - 1;
        self.record_sample(self.active_connections, now);
    }

    /// Records the current number of connections.
    pub fn record_sample(&mut self, value: usize, now: u64)
        requires
            old(self)@.wf(),
        ensures
            final(self)@ == (StatsModel {
                active: old(self)@.active,
                ..old(self)@.changed(value as nat, now)
            }),
            final(self)@.wf(),
    {
        self.samples.push_back(Sample { timestamp: now, value });
        let ghost all = self.samples@;
        while self.samples.len() > MAX_SAMPLES
            invariant
                self.samples@.len() <= all.len(),
                all.len() <= MAX_SAMPLES + 1,
                self.samples@ == all.skip(all.len() - self.samples@.len()),
                all.len() <= MAX_SAMPLES ==> self.samples@.len() == all.len(),
                self.samples@.len() >= MAX_SAMPLES || self.samples@.len() == all.len(),
                self.active_connections == old(self)@.active,
                self.num_cpus == old(self)@.num_cpus,
            decreases self.samples@.len(),
        {
            let _ = self.samples.pop_front();
            assert(self.samples@ =~= all.skip(all.len() - self.samples@.len()));
        }
        assert(all.skip(0) =~= all);
    }

    /// The number of active connections.
    pub fn current(&self) -> (r: usize)
        ensures
            r == self@.active,
    {
        self.active_connections
    }

    /// The number of processors.
    pub fn num_cpus(&self) -> (r: usize)
        ensures
            r == self@.num_cpus,
    {
        self.num_cpus
    }

    /// The mean number of connections over the last `window` nanoseconds.
    pub fn average(&self, now: u64, window: u64) -> (r: Mean)
        requires
            self@.wf(),
        ensures
            r == self@.mean(now, window),
            r.count > 0,
    {
        let ghost cutoff = now - window;
        let ghost keep = |s: Sample| s.timestamp >= cutoff;
        let oldest: u64 = if now >= window { now - window } else { 0 };
        let mut total: u128 = 0;
        let mut count: usize = 0;
        let mut i: usize = 0;
        proof {
            assert(self.samples@.take(0) =~= Seq::empty());
            reveal(Seq::filter);
        }
        while i < self.samples.len()
            invariant
                i <= self.samples@.len(),
                self@.wf(),
                self.samples@ == self@.samples,
                keep == (|s: Sample| s.timestamp >= cutoff),
                cutoff == now - window,
                oldest == (if now >= window { now - window } else { 0 }),
                total == total_of(self.samples@.take(i as int).filter(keep)),
                count == self.samples@.take(i as int).filter(keep).len(),
                count <= i,
                total <= i * usize::MAX,
            decreases self.samples@.len() - i,
        {
            let sample: Sample = self.samples[i];
            proof {
                reveal(Seq::filter);
                let now_taken = self.samples@.take(i + 1);
                assert(now_taken.drop_last() =~= self.samples@.take(i as int));
                assert(now_taken.last() == sample);
                let earlier = self.samples@.take(i as int).filter(keep);
                assert(earlier.push(sample).drop_last() =~= earlier);
                assert(i * usize::MAX + usize::MAX == (i + 1) * usize::MAX) by (nonlinear_arith);
                assert(i * usize::MAX <= 6000 * usize::MAX) by (nonlinear_arith)
                    requires
                        i <= 6000,
                ;
            }
            if sample.timestamp >= oldest {
                total = total + sample.value as u128;
                count = count + 1;
            }
            i += 1;
        }
        assert(self.samples@.take(self.samples@.len() as int) =~= self.samples@);
        if count == 0 {
            Mean { total: self.active_connections as u128, count: 1 }
        } else {
            Mean { total, count }
        }
    }

    /// The load figures at `now`.
    pub fn report(&self, now: u64) -> (r: StatsReport)
        requires
            self@.wf(),
        ensures
            r == self@.report(now),
    {
        let mean_10s: Mean = self.average(now, 10_000_000_000);
        let mean_60s: Mean = self.average(now, 60_000_000_000);
        let mean_120s: Mean = self.average(now, 120_000_000_000);
        let mean_300s: Mean = self.average(now, 300_000_000_000);
        let alarm: bool = mean_reaches(mean_10s, self.num_cpus) || mean_reaches(
            mean_60s,
            self.num_cpus,
        ) || mean_reaches(mean_120s, self.num_cpus) || mean_reaches(mean_300s, self.num_cpus);
        StatsReport {
            current_connections: self.active_connections,
            num_cpus: self.num_cpus,
            pool_size: self.num_cpus * 2,
            max_concurrent: self.num_cpus,
            mean_1s: self.average(now, 1_000_000_000),
            mean_10s,
            mean_60s,
            mean_120s,
            mean_300s,
            alarm,
        }
    }
}

impl Default for Stats {
    fn default() -> (r: Self)
        ensures
            r@.wf(),
            r@.active == 0,
            r@.samples == Seq::<Sample>::empty(),
    {
        Stats::new()
    }
}

/// Whether a mean is at least `n`.
pub fn mean_reaches(mean: Mean, n: usize) -> (r: bool)
    ensures
        r == reaches(mean, n as nat),
{
    proof {
        assert(mean.count * n <= usize::MAX * usize::MAX) by (nonlinear_arith)
            requires
                mean.count <= usize::MAX,
                n <= usize::MAX,
        ;
        assert(usize::MAX * usize::MAX <= u128::MAX) by (nonlinear_arith)
            requires
                usize::MAX <= u64::MAX,
        ;
    }
    mean.total >= (mean.count as u128) * (n as u128)
}

// ---------------------------------------------------------------------------
// What holds of the statistics over time
// ---------------------------------------------------------------------------

/// A change in the number of connections, with its time.
pub enum Change {
    Start(u64),
    End(u64),
}

/// The statistics after a run of changes.
pub open spec fn after_changes(m: StatsModel, changes: Seq<Change>) -> StatsModel
    decreases changes.len(),
{
    if changes.len() == 0 {
        m
    } else {
        let before = after_changes(m, changes.drop_last());
        match changes.last() {
            Change::Start(now) => before.changed(before.active + 1, now),
            Change::End(now) => before.changed((before.active - 1) as nat, now),
        }
    }
}

/// How many connections started less how many ended.
pub open spec fn net_starts(changes: Seq<Change>) -> int
    decreases changes.len(),
{
    if changes.len() == 0 {
        0
    } else {
        net_starts(changes.drop_last()) + match changes.last() {
            Change::Start(_) => 1int,
            Change::End(_) => -1int,
        }
    }
}

/// A run of changes in which no connection ends that did not start, and in which
/// the number of connections stays within a machine word.
pub open spec fn possible(m: StatsModel, changes: Seq<Change>) -> bool {
    forall|k: int|
        0 <= k <= changes.len() ==> 0 <= m.active + net_starts(#[trigger] changes.take(k))
            <= usize::MAX
}

/// The number of active connections is the number of those that started less
/// the number of those that ended, every change is the latest sample right after
/// it, and the history never grows beyond `MAX_SAMPLES`.
pub proof fn law_current_counts(m: StatsModel, changes: Seq<Change>)
    requires
        m.wf(),
        possible(m, changes),
    ensures
        ({
            let end = after_changes(m, changes);
            &&& end.wf()
            &&& end.active == m.active + net_starts(changes)
            &&& end.num_cpus == m.num_cpus
            &&& end.samples.len() == if m.samples.len() + changes.len() > MAX_SAMPLES {
                MAX_SAMPLES as nat
            } else {
                m.samples.len() + changes.len()
            }
            &&& changes.len() > 0 ==> end.samples.last() == (Sample {
                timestamp: match changes.last() {
                    Change::Start(now) => now,
                    Change::End(now) => now,
                },
                value: end.active as usize,
            })
        }),
    decreases changes.len(),
{
    assert(changes.take(changes.len() as int) =~= changes);
    if changes.len() > 0 {
        let prior = changes.drop_last();
        assert forall|k: int| 0 <= k <= prior.len() implies 0 <= m.active + net_starts(
            #[trigger] prior.take(k),
        ) <= usize::MAX by {
            assert(prior.take(k) =~= changes.take(k));
        }
        law_current_counts(m, prior);
        assert(0 <= m.active + net_starts(changes.take(changes.len() as int)) <= usize::MAX);
    }
}

/// A connection that starts and ends leaves the number of connections as it was.
pub proof fn law_start_end_restores(m: StatsModel, started: u64, ended: u64)
    requires
        m.wf(),
        m.active < usize::MAX,
    ensures
        ({
            let during = m.changed(m.active + 1, started);
            let after = during.changed((during.active - 1) as nat, ended);
            during.active == m.active + 1 && after.active == m.active && after.wf()
        }),
{
}

proof fn lemma_total_of_steady(samples: Seq<Sample>, load: usize)
    requires
        forall|i: int| 0 <= i < samples.len() ==> (#[trigger] samples[i]).value == load,
    ensures
        total_of(samples) == samples.len() * load,
    decreases samples.len(),
{
    if samples.len() > 0 {
        assert forall|i: int| 0 <= i < samples.len() - 1 implies (
        #[trigger] samples.drop_last()[i]).value == load by {
            assert(samples.drop_last()[i] == samples[i]);
        }
        lemma_total_of_steady(samples.drop_last(), load);
        assert(samples.last() == samples[samples.len() - 1]);
        assert((samples.len() - 1) * load + load == samples.len() * load) by (nonlinear_arith);
    }
}

/// Under a steady load every mean is that load, and the alarm is raised exactly
/// if there are at least as many connections as processors.
pub proof fn law_steady_load(m: StatsModel, load: usize, now: u64, window: u64)
    requires
        m.wf(),
        m.active == load,
        forall|i: int| 0 <= i < m.samples.len() ==> (#[trigger] m.samples[i]).value == load,
    ensures
        m.mean(now, window).total == m.mean(now, window).count * load,
        m.alarm(now) == (load >= m.num_cpus),
{
    lemma_steady_mean(m, load, now, window);
    lemma_steady_mean(m, load, now, seconds(10));
    lemma_steady_mean(m, load, now, seconds(60));
    lemma_steady_mean(m, load, now, seconds(120));
    lemma_steady_mean(m, load, now, seconds(300));
}

proof fn lemma_steady_mean(m: StatsModel, load: usize, now: u64, window: u64)
    requires
        m.wf(),
        m.active == load,
        forall|i: int| 0 <= i < m.samples.len() ==> (#[trigger] m.samples[i]).value == load,
    ensures
        m.mean(now, window).total == m.mean(now, window).count * load,
        m.mean(now, window).count > 0,
        reaches(m.mean(now, window), m.num_cpus) == (load >= m.num_cpus),
{
    let keep = |s: Sample| s.timestamp >= now - window;
    let recent = m.samples.filter(keep);
    assert(recent == recent_samples(m.samples, now - window));
    lemma_filter_steady(m.samples, keep, load);
    lemma_total_of_steady(recent, load);
    let mean = m.mean(now, window);
    assert(recent.len() * load <= 6000 * usize::MAX) by (nonlinear_arith)
        requires
            recent.len() <= 6000,
            load <= usize::MAX,
    ;
    if recent.len() == 0 {
        assert(mean.count == 1 && mean.total == load);
        assert(mean.count * load == load) by (nonlinear_arith)
            requires
                mean.count == 1,
        ;
    } else {
        assert(total_of(recent) <= u128::MAX);
        assert(mean.count == recent.len());
        assert(mean.total == total_of(recent));
    }
    let (c, l, n) = (mean.count as int, load as int, m.num_cpus as int);
    assert((c * l >= c * n) == (l >= n)) by (nonlinear_arith)
        requires
            c > 0,
    ;
}

proof fn lemma_filter_steady(samples: Seq<Sample>, keep: spec_fn(Sample) -> bool, load: usize)
    requires
        forall|i: int| 0 <= i < samples.len() ==> (#[trigger] samples[i]).value == load,
    ensures
        samples.filter(keep).len() <= samples.len(),
        forall|i: int|
            0 <= i < samples.filter(keep).len() ==> (#[trigger] samples.filter(keep)[i]).value
                == load,
    decreases samples.len(),
{
    reveal(Seq::filter);
    if samples.len() > 0 {
        let prior = samples.drop_last();
        assert forall|i: int| 0 <= i < prior.len() implies (#[trigger] prior[i]).value == load by {
            assert(prior[i] == samples[i]);
        }
        lemma_filter_steady(prior, keep, load);
        assert(samples.last() == samples[samples.len() - 1]);
    }
}

/// The windows, in seconds, over which an overload raises the alarm.
pub open spec fn alarm_window(w: int) -> bool {
    w == 10 || w == 60 || w == 120 || w == 300
}

/// The mean over the last `w` seconds is at least one connection for every
/// processor.
pub open spec fn overloaded(m: StatsModel, now: u64, w: int) -> bool {
    let mean = m.mean(now, (w * 1_000_000_000) as u64);
    mean.total >= mean.count * m.num_cpus
}

/// The alarm is raised exactly if one of the windows of ten seconds or more is
/// overloaded; a single one is enough.
pub proof fn law_any_window_alarms(m: StatsModel, now: u64)
    ensures
        m.report(now).alarm <==> exists|w: int| alarm_window(w) && #[trigger] overloaded(
            m,
            now,
            w,
        ),
{
    assert(seconds(10) == 10_000_000_000 && seconds(60) == 60_000_000_000);
    assert(seconds(120) == 120_000_000_000 && seconds(300) == 300_000_000_000);
    assert(overloaded(m, now, 10) == reaches(m.mean(now, seconds(10)), m.num_cpus));
    assert(overloaded(m, now, 60) == reaches(m.mean(now, seconds(60)), m.num_cpus));
    assert(overloaded(m, now, 120) == reaches(m.mean(now, seconds(120)), m.num_cpus));
    assert(overloaded(m, now, 300) == reaches(m.mean(now, seconds(300)), m.num_cpus));
}

/// The load figures are those of the statistics: the number of connections and of
/// processors, two workers for each processor, as many efficient connections as
/// processors, and the means over the last second, ten seconds and one, two and five
/// minutes.
pub proof fn law_report_figures(m: StatsModel, now: u64)
    requires
        m.wf(),
    ensures
        ({
            let report = m.report(now);
            &&& report.current_connections == m.active
            &&& report.num_cpus == m.num_cpus
            &&& report.pool_size == 2 * m.num_cpus
            &&& report.max_concurrent == m.num_cpus
            &&& report.mean_1s == m.mean(now, 1_000_000_000)
            &&& report.mean_10s == m.mean(now, 10_000_000_000)
            &&& report.mean_60s == m.mean(now, 60_000_000_000)
            &&& report.mean_120s == m.mean(now, 120_000_000_000)
            &&& report.mean_300s == m.mean(now, 300_000_000_000)
        }),
{
}

/// A sum is taken over every sample once.
pub proof fn law_total_adds_up(a: Seq<Sample>, b: Seq<Sample>, sample: Sample)
    ensures
        total_of(a + b) == total_of(a) + total_of(b),
        total_of(a.push(sample)) == total_of(a) + sample.value,
        total_of(Seq::<Sample>::empty()) == 0,
    decreases b.len(),
{
    assert(a.push(sample).drop_last() =~= a);
    if b.len() == 0 {
        assert(a + b =~= a);
    } else {
        law_total_adds_up(a, b.drop_last(), sample);
        assert((a + b).drop_last() =~= a + b.drop_last());
    }
}

/// A mean is that of the samples in its window, of which one from the very beginning
/// of the window still counts: older ones have no say. Where there is none in the
/// window, the mean is the current number of connections.
#[verifier::spinoff_prover]
pub proof fn law_mean_of_window(
    m: StatsModel,
    older: Seq<Sample>,
    recent: Seq<Sample>,
    now: u64,
    window: u64,
)
    requires
        m.wf(),
        m.samples == older + recent,
        forall|i: int|
            0 <= i < older.len() ==> (#[trigger] older[i]).timestamp + window < now,
        forall|i: int|
            0 <= i < recent.len() ==> (#[trigger] recent[i]).timestamp + window >= now,
    ensures
        recent.len() > 0 ==> m.mean(now, window).total == total_of(recent) && m.mean(
            now,
            window,
        ).count == recent.len(),
        recent.len() == 0 ==> m.mean(now, window).total == m.active && m.mean(now, window).count
            == 1,
{
    let keep = |s: Sample| s.timestamp >= now - window;
    lemma_filter_none(older, keep);
    lemma_filter_all(recent, keep);
    lemma_filter_concat(older, recent, keep);
    assert(m.samples.filter(keep) =~= recent);
    assert(recent_samples(m.samples, now - window) == recent);
    lemma_total_fits(recent);
}

/// The sum of a history is within 128 bits.
proof fn lemma_total_fits(samples: Seq<Sample>)
    requires
        samples.len() <= MAX_SAMPLES,
    ensures
        total_of(samples) <= u128::MAX,
{
    lemma_total_bound(samples);
    assert(samples.len() * usize::MAX <= 6000 * usize::MAX) by (nonlinear_arith)
        requires
            samples.len() <= 6000,
    ;
}

proof fn lemma_total_bound(samples: Seq<Sample>)
    ensures
        total_of(samples) <= samples.len() * usize::MAX,
    decreases samples.len(),
{
    if samples.len() > 0 {
        lemma_total_bound(samples.drop_last());
        assert((samples.len() - 1) * usize::MAX + usize::MAX == samples.len() * usize::MAX)
            by (nonlinear_arith);
    }
}

proof fn lemma_filter_none(samples: Seq<Sample>, keep: spec_fn(Sample) -> bool)
    requires
        forall|i: int| 0 <= i < samples.len() ==> !keep(#[trigger] samples[i]),
    ensures
        samples.filter(keep) == Seq::<Sample>::empty(),
    decreases samples.len(),
{
    reveal(Seq::filter);
    if samples.len() > 0 {
        let prior = samples.drop_last();
        assert forall|i: int| 0 <= i < prior.len() implies !keep(#[trigger] prior[i]) by {
            assert(prior[i] == samples[i]);
        }
        lemma_filter_none(prior, keep);
        assert(samples.last() == samples[samples.len() - 1]);
    }
    assert(samples.filter(keep) =~= Seq::<Sample>::empty());
}

proof fn lemma_filter_all(samples: Seq<Sample>, keep: spec_fn(Sample) -> bool)
    requires
        forall|i: int| 0 <= i < samples.len() ==> keep(#[trigger] samples[i]),
    ensures
        samples.filter(keep) == samples,
    decreases samples.len(),
{
    reveal(Seq::filter);
    if samples.len() > 0 {
        let prior = samples.drop_last();
        assert forall|i: int| 0 <= i < prior.len() implies keep(#[trigger] prior[i]) by {
            assert(prior[i] == samples[i]);
        }
        lemma_filter_all(prior, keep);
        assert(samples.last() == samples[samples.len() - 1]);
    }
    assert(samples.filter(keep) =~= samples);
}

proof fn lemma_filter_concat(a: Seq<Sample>, b: Seq<Sample>, keep: spec_fn(Sample) -> bool)
    ensures
        (a + b).filter(keep) == a.filter(keep) + b.filter(keep),
    decreases b.len(),
{
    reveal(Seq::filter);
    if b.len() == 0 {
        assert(a + b =~= a);
        assert(a.filter(keep) + b.filter(keep) =~= a.filter(keep));
    } else {
        lemma_filter_concat(a, b.drop_last(), keep);
        assert((a + b).drop_last() =~= a + b.drop_last());
        assert((a + b).filter(keep) =~= a.filter(keep) + b.filter(keep));
    }
}

/// A change adds its own sample at the end of the history and leaves the samples
/// before it in place; only where there would be more than six thousand is the oldest
/// one forgotten.
pub proof fn law_history_keeps_latest(m: StatsModel, active: nat, now: u64)
    requires
        m.wf(),
        active <= usize::MAX,
    ensures
        ({
            let after = m.changed(active, now);
            let kept = after.samples.len() - 1;
            &&& after.active == active
            &&& after.num_cpus == m.num_cpus
            &&& after.samples.last() == (Sample { timestamp: now, value: active as usize })
            &&& kept == (if m.samples.len() < 6000 {
                m.samples.len() as int
            } else {
                5999
            })
            &&& after.samples.drop_last() == m.samples.skip(m.samples.len() - kept)
        }),
{
    let after = m.changed(active, now);
    let all = m.samples.push(Sample { timestamp: now, value: active as usize });
    let kept = after.samples.len() - 1;
    assert(after.samples.drop_last() =~= m.samples.skip(m.samples.len() - kept));
}

} // verus!
