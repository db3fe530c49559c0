//! QoS collection: takes samples from a pressure source and writes them to shared memory.

use vstd::prelude::*;

use crate::error::{QosError, QosErrorView};
use crate::pressure::Pressure;
use crate::psi;
use crate::psi::{Cgroup, PsiCgroupView, PsiPressureSource};
use crate::shared_mem;
use crate::shared_mem::{PageView, PressureStore, PvschedInfo, PvschedSharedMem, SharedMem};
use crate::source;
use crate::source::{PressureSource, StubPressureSource, VcpuStat};
use crate::timer::Interval;

verus! {

/// Takes a snapshot from its source at each tick and writes it to shared memory.
pub struct QosCollector<S: PressureSource> {
    shm: SharedMem,
    interval: Interval,
    source: S,
}

impl QosCollector<StubPressureSource> {
    /// A collector that reports zero pressure until it is given another source.
    pub fn new(shm: SharedMem, interval: Interval, vcpu_count: usize) -> (r: QosCollector<
        StubPressureSource,
    >)
        ensures
            r.page() == shm@,
            r.spec_interval() == interval,
            r.spec_source().spec_vcpu_count() == vcpu_count,
    {
        QosCollector { shm, interval, source: StubPressureSource::new(vcpu_count) }
    }
}

impl<S: PressureSource> QosCollector<S> {
    /// The image of the shared page.
    pub closed spec fn page(&self) -> PageView {
        self.shm@
    }

    /// The time between two ticks.
    pub closed spec fn spec_interval(&self) -> Interval {
        self.interval
    }

    /// The source that samples are taken from.
    pub closed spec fn spec_source(&self) -> S {
        self.source
    }

    /// Replaces the source with a custom implementation.
    pub fn with_source<T: PressureSource>(self, source: T) -> (r: QosCollector<T>)
        ensures
            r.page() == self.page(),
            r.spec_interval() == self.spec_interval(),
            r.spec_source() == source,
    {
        QosCollector { shm: self.shm, interval: self.interval, source }
    }

    /// The time between two ticks.
    pub fn interval(&self) -> (r: Interval)
        ensures
            r == self.spec_interval(),
    {
        self.interval
    }

    /// Takes in what the shared page holds now.
    pub fn refresh(&mut self, mem: PvschedSharedMem)
        requires
            mem@.wf(),
        ensures
            final(self).page() == mem@,
            final(self).spec_interval() == old(self).spec_interval(),
            final(self).spec_source() == old(self).spec_source(),
    {
        self.shm = SharedMem::from_page(mem);
    }

    /// Takes one snapshot from the source and writes it, sample by sample; returns the stores
    /// that the page needs. If the source fails, nothing is written and its error is passed on.
    ///
    /// What the source reports is its own affair: the outcome is one that `collect` may have on
    /// the source, and the image and the stores reflect it.
    pub fn tick(&mut self) -> (r: Result<Vec<PressureStore>, QosError>)
        requires
            old(self).page().wf(),
        ensures
            final(self).page().wf(),
            final(self).spec_interval() == old(self).spec_interval(),
            exists|source: &mut S, outcome: Result<Vec<VcpuStat>, QosError>|
                {
                    &&& *source == old(self).spec_source()
                    &&& *final(source) == final(self).spec_source()
                    &&& #[trigger] call_ensures(S::collect, (source,), outcome)
                    &&& match (outcome, r) {
                        (Ok(samples), Ok(stores)) => {
                            &&& final(self).page() == old(self).page().written_all(samples@)
                            &&& stores@ == old(self).page().stores(samples@)
                        },
                        (Err(e), Err(passed_on)) => {
                            &&& final(self).page() == old(self).page()
                            &&& passed_on == e
                        },
                        _ => false,
                    }
                },
    {
        match self.source.collect() {
            Ok(samples) => Ok(self.shm.write_samples(&samples)),
            Err(e) => Err(e),
        }
    }
}

/// A tick of the stub on a valid page sets the pressure of each vCPU to zero and advances its
/// sequence number by one.
pub proof fn law_stub_reports_zero(page: PageView, vcpu_id: usize)
    requires
        page.wf(),
        page.valid(),
        vcpu_id < page.vcpu_num,
    ensures
        page.written_all(source::zero_stats(page.vcpu_num as nat)).info[vcpu_id as int] == (
        PvschedInfo {
            qos_pressure: 0,
            update_seq: shared_mem::bumped(page.info[vcpu_id as int].update_seq),
            tokens: page.info[vcpu_id as int].tokens,
        }),
{
    let samples = source::zero_stats(page.vcpu_num as nat);
    lemma_zero_stats_count(page.vcpu_num as nat, vcpu_id);
    assert(samples[vcpu_id as int].vcpu_id == vcpu_id);
    shared_mem::law_guest_writes_nothing_else(page, samples, vcpu_id);
    shared_mem::law_sequence_counts_updates(page, samples, vcpu_id);
    assert forall|i: int| vcpu_id < i < samples.len() implies (#[trigger] samples[i]).vcpu_id
        != samples[vcpu_id as int].vcpu_id by {}
    shared_mem::law_last_sample_counts(page, samples, vcpu_id as int);
    crate::ratio::law_ratio_of_zero(1);
    crate::pressure::law_scale_range(samples[vcpu_id as int].pressure);
}

proof fn lemma_zero_stats_count(n: nat, vcpu_id: usize)
    requires
        n <= usize::MAX,
    ensures
        shared_mem::count_of(source::zero_stats(n), vcpu_id) == if vcpu_id < n {
            1nat
        } else {
            0nat
        },
    decreases n,
{
    if n > 0 {
        lemma_zero_stats_count((n - 1) as nat, vcpu_id);
        assert(source::zero_stats(n).drop_last() =~= source::zero_stats((n - 1) as nat));
    }
}

/// What a vCPU's entry becomes when a pressure is reported for it, or none is.
pub open spec fn reported(entry: PvschedInfo, pressure: Option<Pressure>) -> PvschedInfo {
    match pressure {
        Some(p) => PvschedInfo {
            qos_pressure: p.spec_scaled() as u64,
            update_seq: shared_mem::bumped(entry.update_seq),
            tokens: entry.tokens,
        },
        None => entry,
    }
}

/// A PSI report, written to a page with as many vCPUs, gives each vCPU that there is a source for
/// the largest pressure on it and advances its sequence number by one. The other vCPUs are left
/// alone.
pub proof fn law_psi_report_reaches_page(
    page: PageView,
    sources: Seq<PsiCgroupView>,
    seen: Seq<Pressure>,
    vcpu_id: usize,
)
    requires
        page.wf(),
        page.valid(),
        vcpu_id < page.vcpu_num,
    ensures
        page.written_all(psi::stats(page.vcpu_num as nat, sources, seen)).info[vcpu_id as int]
            == reported(page.info[vcpu_id as int], psi::vcpu_pressure(vcpu_id, sources, seen)),
{
    lemma_report_written(page, page.vcpu_num as nat, sources, seen, vcpu_id);
}

proof fn lemma_report_written(
    page: PageView,
    n: nat,
    sources: Seq<PsiCgroupView>,
    seen: Seq<Pressure>,
    vcpu_id: usize,
)
    requires
        page.wf(),
        page.valid(),
        vcpu_id < page.vcpu_num,
        n <= page.vcpu_num,
    ensures
        page.written_all(psi::stats(n, sources, seen)).info[vcpu_id as int] == if vcpu_id < n {
            reported(page.info[vcpu_id as int], psi::vcpu_pressure(vcpu_id, sources, seen))
        } else {
            page.info[vcpu_id as int]
        },
    decreases n,
{
    if n > 0 {
        let before = psi::stats((n - 1) as nat, sources, seen);
        let id = (n - 1) as usize;
        lemma_report_written(page, (n - 1) as nat, sources, seen, vcpu_id);
        shared_mem::law_guest_writes_nothing_else(page, before, vcpu_id);
        if let Some(p) = psi::vcpu_pressure(id, sources, seen) {
            assert(psi::stats(n, sources, seen).drop_last() =~= before);
        }
    }
}

/// A worker that is ready to run: its collector with the stub as source, and the PSI source to
/// use in place of the stub, or why there is none.
pub struct Worker {
    pub collector: QosCollector<StubPressureSource>,
    pub psi: Result<PsiPressureSource, QosError>,
}

/// Prepares a worker for a shared page. The page has to be valid; without a usable cgroup the
/// worker falls back to the stub.
pub fn prepare_worker(shm: SharedMem, interval: Interval, cgroups: &Vec<Cgroup>) -> (r: Result<
    Worker,
    QosError,
>)
    ensures
        match r {
            Ok(worker) => {
                &&& shm@.valid()
                &&& worker.collector.page() == shm@
                &&& worker.collector.spec_interval() == interval
                &&& worker.collector.spec_source().spec_vcpu_count() == shm@.vcpu_num
                &&& match worker.psi {
                    Ok(source) => {
                        &&& source@.wf()
                        &&& source@.vcpu_count == shm@.vcpu_num
                        &&& psi::fresh(
                            source@.sources,
                            psi::usable(cgroups@, shm@.vcpu_num as usize),
                        )
                    },
                    Err(e) => {
                        &&& e@ == QosErrorView::NoValidCgroup
                        &&& psi::usable(cgroups@, shm@.vcpu_num as usize).len() == 0
                    },
                }
            },
            Err(e) => !shm@.valid() && e@ == (QosErrorView::InvalidVcpuNum {
                count: shm@.vcpu_num as int,
            }),
        },
{
    let mut shm = shm;
    if let Err(e) = shm.init_guest_area() {
        return Err(e);
    }
    let vcpu_count: usize = shm.vcpu_count();
    let collector = QosCollector::new(shm, interval, vcpu_count);
    let psi = PsiPressureSource::try_new(cgroups, vcpu_count);
    Ok(Worker { collector, psi })
}

} // verus!
