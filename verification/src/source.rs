//! Per-vCPU pressure and where it comes from.

use vstd::prelude::*;

use crate::error::QosError;
use crate::pressure::Pressure;

verus! {

/// Per-vCPU QoS pressure snapshot returned by a `PressureSource`.
#[derive(Clone, Copy, Debug, PartialEq, Eq, Structural)]
pub struct VcpuStat {
    pub vcpu_id: usize,
    /// Pressure ratio from 0.0 to 1.0.
    pub pressure: Pressure,
}

/// Source of per-vCPU QoS metrics.
///
/// Implement this trait to connect the collector to a concrete back-end. The implementation
/// must be `Send` because the collector may run in a dedicated thread.
pub trait PressureSource: Send {
    /// Collect one snapshot of per-vCPU statistics.
    ///
    /// Called once per collection tick. Implementations should reset their per-epoch counters
    /// after each call so that the next tick reflects only the activity since the previous
    /// call.
    fn collect(&mut self) -> (r: Result<Vec<VcpuStat>, QosError>);
}

/// Zero pressure on each of `n` vCPUs.
pub open spec fn zero_stats(n: nat) -> Seq<VcpuStat> {
    Seq::new(
        n,
        |i: int| VcpuStat { vcpu_id: i as usize, pressure: Pressure { bits: 0 } },
    )
}

/// A source that reports zero pressure on every vCPU.
#[derive(Clone, Copy, Debug, PartialEq, Eq, Structural)]
pub struct StubPressureSource {
    vcpu_count: usize,
}

impl StubPressureSource {
    /// How many vCPUs the source reports on.
    pub closed spec fn spec_vcpu_count(self) -> usize {
        self.vcpu_count
    }

    /// A source for `vcpu_count` vCPUs.
    pub fn new(vcpu_count: usize) -> (r: StubPressureSource)
        ensures
            r.spec_vcpu_count() == vcpu_count,
    {
        StubPressureSource { vcpu_count }
    }
}

impl PressureSource for StubPressureSource {
    fn collect(&mut self) -> (r: Result<Vec<VcpuStat>, QosError>)
        ensures
            *final(self) == *old(self),
            r is Ok,
            r->Ok_0@ == zero_stats(old(self).spec_vcpu_count() as nat),
    {
        let mut stats: Vec<VcpuStat> = Vec::new();
        let mut id: usize = 0;
        while id < self.vcpu_count
            invariant
                id <= self.vcpu_count,
                *self == *old(self),
                stats@ == zero_stats(id as nat),
            decreases self.vcpu_count - id,
        {
            stats.push(VcpuStat { vcpu_id: id, pressure: Pressure::zero() });
            id += 1;
            assert(stats@ =~= zero_stats(id as nat));
        }
        Ok(stats)
    }
}

/// The stub reports on each vCPU once, in order, and always 0.0.
pub proof fn law_zero_stats(n: usize, i: int)
    requires
        0 <= i < n,
    ensures
        zero_stats(n as nat).len() == n,
        zero_stats(n as nat)[i].vcpu_id == i,
        zero_stats(n as nat)[i].pressure.bits == 0,
        zero_stats(n as nat)[i].pressure.units() == 0,
{
}

} // verus!
