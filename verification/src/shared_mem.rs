//! The page that the guest shares with the host.
//!
//! The host maps one page into the guest through `/dev/pvsched_guest`. It starts with a header,
//! and one entry for each vCPU follows:
//!
//! | offset        | field          |
//! |---------------|----------------|
//! | 0             | `epoch`        |
//! | 4             | `tgid`         |
//! | 8             | `vcpu_num`     |
//! | 16 + 24 i     | `qos_pressure` |
//! | 16 + 24 i + 8 | `update_seq`   |
//! | 16 + 24 i + 16| `tokens`       |
//!
//! The page itself is touched with atomic loads and stores outside this library. What is kept
//! here is an image of it; writing to the image returns the stores that bring the page in line.

use vstd::arithmetic::power2::pow2;
use vstd::prelude::*;

use crate::error::{QosError, QosErrorView};
use crate::pressure;
use crate::pressure::Pressure;
use crate::source::VcpuStat;

verus! {

/// Maximum number of vCPUs supported by the ABI.
pub const PVSCHED_MAX_VCPU: usize = 16;

/// Where the header field `epoch` stands in the page.
pub const EPOCH_OFFSET: usize = 0;

/// Where the header field `tgid` stands in the page.
pub const TGID_OFFSET: usize = 4;

/// Where the header field `vcpu_num` stands in the page.
pub const VCPU_NUM_OFFSET: usize = 8;

/// Where the first vCPU entry stands in the page.
pub const INFO_OFFSET: usize = 16;

/// The size of a vCPU entry.
pub const INFO_SIZE: usize = 24;

/// Where `update_seq` stands in a vCPU entry; `qos_pressure` comes first.
pub const UPDATE_SEQ_OFFSET: usize = 8;

/// Where `tokens` stands in a vCPU entry.
pub const TOKENS_OFFSET: usize = 16;

/// The entry of one vCPU.
#[derive(Clone, Copy, Debug, PartialEq, Eq, Structural)]
pub struct PvschedInfo {
    pub qos_pressure: u64,
    pub update_seq: u64,
    pub tokens: i64,
}

/// The contents of the shared page.
#[derive(Debug, PartialEq, Eq)]
pub struct PvschedSharedMem {
    pub epoch: u32,
    pub tgid: i32,
    pub vcpu_num: u32,
    pub info: Vec<PvschedInfo>,
}

/// The contents of the shared page, with its entries as a sequence.
#[verifier::ext_equal]
pub struct PageView {
    pub epoch: u32,
    pub tgid: i32,
    pub vcpu_num: u32,
    pub info: Seq<PvschedInfo>,
}

impl View for PvschedSharedMem {
    type V = PageView;

    open spec fn view(&self) -> PageView {
        PageView {
            epoch: self.epoch,
            tgid: self.tgid,
            vcpu_num: self.vcpu_num,
            info: self.info@,
        }
    }
}

/// What brings the page in line with a write of one vCPU's pressure: store `qos_pressure` at
/// `pressure_offset`, and then add one to the word at `seq_offset`.
#[derive(Clone, Copy, Debug, PartialEq, Eq, Structural)]
pub struct PressureStore {
    pub pressure_offset: usize,
    pub qos_pressure: u64,
    pub seq_offset: usize,
}

/// `n + 1`, or 0 after the largest number.
pub open spec fn bumped(n: u64) -> u64 {
    if n == u64::MAX {
        0
    } else {
        (n + 1) as u64
    }
}

impl PageView {
    /// Whether there is an entry for each vCPU that the ABI supports.
    pub open spec fn wf(self) -> bool {
        self.info.len() == PVSCHED_MAX_VCPU
    }

    /// Whether the host has recorded a number of vCPUs that the ABI supports.
    pub open spec fn valid(self) -> bool {
        1 <= self.vcpu_num <= PVSCHED_MAX_VCPU
    }

    /// Whether there is a vCPU with this number.
    pub open spec fn has_vcpu(self, vcpu_id: usize) -> bool {
        vcpu_id < PVSCHED_MAX_VCPU && vcpu_id < self.vcpu_num
    }

    /// The page after a pressure has been written. A number that no vCPU has changes nothing.
    pub open spec fn written(self, vcpu_id: usize, pressure: Pressure) -> PageView {
        if self.has_vcpu(vcpu_id) {
            let entry = self.info[vcpu_id as int];
            PageView {
                info: self.info.update(
                    vcpu_id as int,
                    PvschedInfo {
                        qos_pressure: pressure.spec_scaled() as u64,
                        update_seq: bumped(entry.update_seq),
                        tokens: entry.tokens,
                    },
                ),
                ..self
            }
        } else {
            self
        }
    }

    /// The stores that go with writing a pressure.
    pub open spec fn store(self, vcpu_id: usize, pressure: Pressure) -> Option<PressureStore> {
        if self.has_vcpu(vcpu_id) {
            Some(
                PressureStore {
                    pressure_offset: entry_offset(vcpu_id as int) as usize,
                    qos_pressure: pressure.spec_scaled() as u64,
                    seq_offset: (entry_offset(vcpu_id as int) + UPDATE_SEQ_OFFSET) as usize,
                },
            )
        } else {
            None
        }
    }

    /// The page after several pressures have been written, one after the other.
    pub open spec fn written_all(self, samples: Seq<VcpuStat>) -> PageView
        decreases samples.len(),
    {
        if samples.len() == 0 {
            self
        } else {
            let last = samples.last();
            self.written_all(samples.drop_last()).written(last.vcpu_id, last.pressure)
        }
    }

    /// The stores that go with writing several pressures.
    pub open spec fn stores(self, samples: Seq<VcpuStat>) -> Seq<PressureStore>
        decreases samples.len(),
    {
        if samples.len() == 0 {
            seq![]
        } else {
            let last = samples.last();
            let before = self.stores(samples.drop_last());
            match self.store(last.vcpu_id, last.pressure) {
                Some(store) => before.push(store),
                None => before,
            }
        }
    }
}

/// Where the entry of a vCPU stands in the page.
pub open spec fn entry_offset(vcpu_id: int) -> int {
    INFO_OFFSET + vcpu_id * INFO_SIZE
}

/// Where the entry of a vCPU stands in the page.
pub fn info_offset(vcpu_id: usize) -> (r: usize)
    requires
        vcpu_id < PVSCHED_MAX_VCPU,
    ensures
        r == entry_offset(vcpu_id as int),
{
    INFO_OFFSET + vcpu_id * INFO_SIZE
}

/// The guest's image of the shared page.
#[derive(Debug)]
pub struct SharedMem {
    mem: PvschedSharedMem,
}

impl View for SharedMem {
    type V = PageView;

    closed spec fn view(&self) -> PageView {
        self.mem@
    }
}

impl SharedMem {
    /// The size of the mapping: one page of 4 KiB.
    pub fn probe_size() -> (r: usize)
        ensures
            r == 4096,
    {
        4 * 1024
    }

    /// An image of a page with these contents.
    pub fn from_page(mem: PvschedSharedMem) -> (r: SharedMem)
        requires
            mem@.wf(),
        ensures
            r@ == mem@,
            r@.wf(),
    {
        SharedMem { mem }
    }

    /// What the image holds.
    pub fn page(&self) -> (r: &PvschedSharedMem)
        ensures
            r@ == self@,
    {
        &self.mem
    }

    /// Validates shared memory metadata written by the host.
    pub fn init_guest_area(&mut self) -> (r: Result<(), QosError>)
        ensures
            *final(self) == *old(self),
            match r {
                Ok(()) => old(self)@.valid(),
                Err(e) => !old(self)@.valid() && e@ == (QosErrorView::InvalidVcpuNum {
                    count: old(self)@.vcpu_num as int,
                }),
            },
    {
        let vcpu_count: usize = self.vcpu_count();
        if !(1 <= vcpu_count && vcpu_count <= PVSCHED_MAX_VCPU) {
            return Err(QosError::InvalidVcpuNum { count: vcpu_count });
        }
        Ok(())
    }

    /// Returns the number of vCPUs recorded by the host.
    pub fn vcpu_count(&self) -> (r: usize)
        ensures
            r == self@.vcpu_num,
    {
        self.mem.vcpu_num as usize
    }

    /// Writes QoS pressure for one vCPU, and returns the stores that the page needs. Silently
    /// ignored for out-of-range IDs.
    ///
    /// Updates `qos_pressure` and bumps `update_seq`, as required by the ABI contract.
    pub fn write_vcpu_pressure(&mut self, vcpu_id: usize, pressure: Pressure) -> (r: Option<
        PressureStore,
    >)
        requires
            old(self)@.wf(),
        ensures
            final(self)@ == old(self)@.written(vcpu_id, pressure),
            final(self)@.wf(),
            r == old(self)@.store(vcpu_id, pressure),
    {
        if vcpu_id >= PVSCHED_MAX_VCPU {
            return None;
        }
        if vcpu_id >= self.vcpu_count() {
            return None;
        }
        let scaled: u64 = pressure.scaled();
        let entry: PvschedInfo = self.mem.info[vcpu_id];
        self.mem.info.set(
            vcpu_id,
            PvschedInfo {
                qos_pressure: scaled,
                update_seq: entry.update_seq.wrapping_add(1),
                tokens: entry.tokens,
            },
        );
        let offset: usize = info_offset(vcpu_id);
        Some(
            PressureStore {
                pressure_offset: offset,
                qos_pressure: scaled,
                seq_offset: offset + UPDATE_SEQ_OFFSET,
            },
        )
    }

    /// Writes QoS pressure for several vCPUs, and returns the stores that the page needs.
    pub fn write_samples(&mut self, samples: &Vec<VcpuStat>) -> (r: Vec<PressureStore>)
        requires
            old(self)@.wf(),
        ensures
            final(self)@ == old(self)@.written_all(samples@),
            final(self)@.wf(),
            r@ == old(self)@.stores(samples@),
    {
        let mut stores: Vec<PressureStore> = Vec::new();
        let mut i: usize = 0;
        assert(samples@.take(0) =~= seq![]);
        while i < samples.len()
            invariant
                i <= samples@.len(),
                old(self)@.wf(),
                self@.wf(),
                self@ == old(self)@.written_all(samples@.take(i as int)),
                stores@ == old(self)@.stores(samples@.take(i as int)),
            decreases samples.len() - i,
        {
            let sample: VcpuStat = samples[i];
            proof {
                assert(samples@.take(i + 1).drop_last() =~= samples@.take(i as int));
                lemma_header_kept(old(self)@, samples@.take(i as int));
            }
            if let Some(store) = self.write_vcpu_pressure(sample.vcpu_id, sample.pressure) {
                stores.push(store);
            }
            i += 1;
        }
        assert(samples@.take(i as int) =~= samples@);
        stores
    }
}

/// Writing pressures leaves the header and the number of entries as they are.
proof fn lemma_header_kept(page: PageView, samples: Seq<VcpuStat>)
    requires
        page.wf(),
    ensures
        page.written_all(samples).epoch == page.epoch,
        page.written_all(samples).tgid == page.tgid,
        page.written_all(samples).vcpu_num == page.vcpu_num,
        page.written_all(samples).info.len() == page.info.len(),
    decreases samples.len(),
{
    if samples.len() > 0 {
        lemma_header_kept(page, samples.drop_last());
    }
}

/// The guest writes `qos_pressure` and `update_seq` of the vCPUs it reports on, and nothing else.
pub proof fn law_guest_writes_nothing_else(page: PageView, samples: Seq<VcpuStat>, vcpu_id: usize)
    requires
        page.wf(),
        vcpu_id < PVSCHED_MAX_VCPU,
    ensures
        page.written_all(samples).epoch == page.epoch,
        page.written_all(samples).tgid == page.tgid,
        page.written_all(samples).vcpu_num == page.vcpu_num,
        page.written_all(samples).wf(),
        page.written_all(samples).info[vcpu_id as int].tokens == page.info[vcpu_id as int].tokens,
        (forall|i: int| 0 <= i < samples.len() ==> (#[trigger] samples[i]).vcpu_id != vcpu_id)
            || !page.has_vcpu(vcpu_id) ==> page.written_all(samples).info[vcpu_id as int]
            == page.info[vcpu_id as int],
    decreases samples.len(),
{
    lemma_header_kept(page, samples);
    if samples.len() > 0 {
        let front = samples.drop_last();
        lemma_header_kept(page, front);
        law_guest_writes_nothing_else(page, front, vcpu_id);
        assert(samples.last() == samples[samples.len() - 1]);
        if forall|i: int| 0 <= i < samples.len() ==> (#[trigger] samples[i]).vcpu_id != vcpu_id {
            assert forall|i: int| 0 <= i < front.len() implies (#[trigger] front[i]).vcpu_id
                != vcpu_id by {
                assert(samples[i].vcpu_id != vcpu_id);
            }
        }
    }
}

/// How many of the samples are about a vCPU.
pub open spec fn count_of(samples: Seq<VcpuStat>, vcpu_id: usize) -> nat
    decreases samples.len(),
{
    if samples.len() == 0 {
        0
    } else {
        count_of(samples.drop_last(), vcpu_id) + if samples.last().vcpu_id == vcpu_id {
            1nat
        } else {
            0nat
        }
    }
}

/// The sequence number of a vCPU advances by one with each sample about it, and wraps around.
pub proof fn law_sequence_counts_updates(page: PageView, samples: Seq<VcpuStat>, vcpu_id: usize)
    requires
        page.wf(),
        page.has_vcpu(vcpu_id),
    ensures
        page.written_all(samples).info[vcpu_id as int].update_seq == (
        page.info[vcpu_id as int].update_seq + count_of(samples, vcpu_id)) % 0x1_0000_0000_0000_0000,
    decreases samples.len(),
{
    if samples.len() > 0 {
        lemma_header_kept(page, samples.drop_last());
        law_sequence_counts_updates(page, samples.drop_last(), vcpu_id);
    }
}

/// The pressure of a vCPU is that of the last sample about it.
pub proof fn law_last_sample_counts(page: PageView, samples: Seq<VcpuStat>, last: int)
    requires
        page.wf(),
        0 <= last < samples.len(),
        page.has_vcpu(samples[last].vcpu_id),
        forall|i: int|
            last < i < samples.len() ==> (#[trigger] samples[i]).vcpu_id != samples[last].vcpu_id,
    ensures
        page.written_all(samples).info[samples[last].vcpu_id as int].qos_pressure
            == samples[last].pressure.spec_scaled(),
    decreases samples.len(),
{
    let front = samples.drop_last();
    lemma_header_kept(page, front);
    pressure::law_scale_range(samples[last].pressure);
    if last < samples.len() - 1 {
        assert(samples.last() == samples[samples.len() - 1]);
        assert(front[last] == samples[last]);
        assert forall|i: int| last < i < front.len() implies (#[trigger] front[i]).vcpu_id
            != front[last].vcpu_id by {
            assert(samples[i].vcpu_id != samples[last].vcpu_id);
        }
        law_last_sample_counts(page, front, last);
    }
}

/// Once the page is valid, the vCPUs are numbered from zero, and each of them can be written.
pub proof fn law_every_vcpu_can_be_written(page: PageView, vcpu_id: usize)
    requires
        page.valid(),
    ensures
        page.has_vcpu(vcpu_id) <==> vcpu_id < page.vcpu_num,
{
}

/// Stores stay inside the page, are aligned, keep clear of the header, and no two of different
/// vCPUs touch the same bytes.
pub proof fn law_stores_stay_in_page(page: PageView, a: VcpuStat, b: VcpuStat)
    requires
        page.has_vcpu(a.vcpu_id),
        page.has_vcpu(b.vcpu_id),
    ensures
        page.store(a.vcpu_id, a.pressure) matches Some(store) && {
            &&& VCPU_NUM_OFFSET + 4 <= store.pressure_offset
            &&& store.pressure_offset + 8 == store.seq_offset
            &&& store.seq_offset + 8 <= 4096
            &&& store.pressure_offset % 8 == 0
            &&& store.seq_offset % 8 == 0
            &&& a.vcpu_id < b.vcpu_id ==> (page.store(b.vcpu_id, b.pressure) matches Some(other)
                && store.seq_offset + 8 <= other.pressure_offset)
        },
{
}

/// Each vCPU that there is a sample for gets its stores, in the order of the samples.
pub proof fn law_stores_match_samples(page: PageView, samples: Seq<VcpuStat>)
    requires
        forall|i: int| 0 <= i < samples.len() ==> page.has_vcpu((#[trigger] samples[i]).vcpu_id),
    ensures
        page.stores(samples).len() == samples.len(),
        forall|i: int|
            0 <= i < samples.len() ==> page.store(
                (#[trigger] samples[i]).vcpu_id,
                samples[i].pressure,
            ) == Some(page.stores(samples)[i]),
    decreases samples.len(),
{
    if samples.len() > 0 {
        let front = samples.drop_last();
        assert(page.has_vcpu(samples[samples.len() - 1].vcpu_id));
        assert forall|i: int| 0 <= i < front.len() implies page.has_vcpu(
            (#[trigger] front[i]).vcpu_id,
        ) by {
            assert(page.has_vcpu(samples[i].vcpu_id));
        }
        law_stores_match_samples(page, front);
        assert forall|i: int| 0 <= i < samples.len() implies page.store(
            (#[trigger] samples[i]).vcpu_id,
            samples[i].pressure,
        ) == Some(page.stores(samples)[i]) by {
            if i < front.len() {
                assert(front[i] == samples[i]);
            }
        }
    }
}

/// The page after a store has been carried out: the word at `pressure_offset` is replaced, and
/// one is added to the word at `seq_offset`.
pub open spec fn carried_out(page: PageView, store: PressureStore) -> PageView {
    PageView {
        info: Seq::new(
            page.info.len(),
            |i: int|
                PvschedInfo {
                    qos_pressure: if store.pressure_offset == 16 + 24 * i {
                        store.qos_pressure
                    } else {
                        page.info[i].qos_pressure
                    },
                    update_seq: if store.seq_offset == 16 + 24 * i + 8 {
                        ((page.info[i].update_seq + 1) % 0x1_0000_0000_0000_0000) as u64
                    } else {
                        page.info[i].update_seq
                    },
                    tokens: page.info[i].tokens,
                },
        ),
        ..page
    }
}

/// The page after several stores have been carried out, one after the other.
pub open spec fn carried_out_all(page: PageView, stores: Seq<PressureStore>) -> PageView
    decreases stores.len(),
{
    if stores.len() == 0 {
        page
    } else {
        carried_out(carried_out_all(page, stores.drop_last()), stores.last())
    }
}

/// Carrying out the store that goes with a write gives the page that the image then shows, and
/// there is no store exactly where the image does not change.
pub proof fn law_store_carries_out_the_write(page: PageView, vcpu_id: usize, pressure: Pressure)
    requires
        page.wf(),
    ensures
        match page.store(vcpu_id, pressure) {
            Some(store) => carried_out(page, store) == page.written(vcpu_id, pressure),
            None => page.written(vcpu_id, pressure) == page,
        },
{
    if let Some(store) = page.store(vcpu_id, pressure) {
        assert(carried_out(page, store).info =~= page.written(vcpu_id, pressure).info);
    }
}

/// Carrying out the stores that go with a list of samples, in order, gives the page that the
/// image then shows.
pub proof fn law_stores_carry_out_the_writes(page: PageView, samples: Seq<VcpuStat>)
    requires
        page.wf(),
    ensures
        carried_out_all(page, page.stores(samples)) == page.written_all(samples),
    decreases samples.len(),
{
    if samples.len() > 0 {
        let front = samples.drop_last();
        let last = samples.last();
        law_stores_carry_out_the_writes(page, front);
        lemma_header_kept(page, front);
        let before = page.written_all(front);
        law_store_carries_out_the_write(before, last.vcpu_id, last.pressure);
        assert(before.store(last.vcpu_id, last.pressure) == page.store(
            last.vcpu_id,
            last.pressure,
        ));
        if let Some(store) = page.store(last.vcpu_id, last.pressure) {
            assert(page.stores(samples).drop_last() =~= page.stores(front));
        }
    }
}

/// What is stored for a vCPU is the ratio in steps of 1/1024, rounded down. It is stored at the
/// offset of the vCPU's entry, and the entry holds it after the write, with the next sequence
/// number and the same tokens.
pub proof fn law_stored_pressure(page: PageView, vcpu_id: usize, pressure: Pressure)
    requires
        page.wf(),
        vcpu_id < 16,
        vcpu_id < page.vcpu_num,
    ensures
        page.store(vcpu_id, pressure) matches Some(store) && {
            let entry = page.written(vcpu_id, pressure).info[vcpu_id as int];
            &&& store.pressure_offset == 16 + 24 * vcpu_id
            &&& store.seq_offset == 16 + 24 * vcpu_id + 8
            &&& store.qos_pressure == entry.qos_pressure
            &&& entry.update_seq == (page.info[vcpu_id as int].update_seq + 1)
                % 0x1_0000_0000_0000_0000
            &&& entry.tokens == page.info[vcpu_id as int].tokens
            &&& store.qos_pressure <= 1024
            &&& pressure.in_unit_interval() ==> store.qos_pressure * pow2(1074) <= pressure.units()
                * 1024 < (store.qos_pressure + 1) * pow2(1074)
            &&& !pressure.is_nan() && pressure.units() > pow2(1074) ==> store.qos_pressure == 1024
            &&& pressure.is_nan() || pressure.units() < 0 ==> store.qos_pressure == 0
        },
{
    pressure::law_scale_range(pressure);
    if pressure.in_unit_interval() {
        pressure::law_scale_rounds_down(pressure);
    }
}

/// A write touches the entry of its vCPU alone, and a number that no vCPU has touches nothing.
pub proof fn law_write_touches_one_entry(page: PageView, vcpu_id: usize, pressure: Pressure)
    requires
        page.wf(),
    ensures
        page.written(vcpu_id, pressure).epoch == page.epoch,
        page.written(vcpu_id, pressure).tgid == page.tgid,
        page.written(vcpu_id, pressure).vcpu_num == page.vcpu_num,
        page.written(vcpu_id, pressure).info.len() == 16,
        forall|i: int|
            0 <= i < 16 && i != vcpu_id ==> #[trigger] page.written(vcpu_id, pressure).info[i]
                == page.info[i],
        vcpu_id >= 16 || vcpu_id >= page.vcpu_num ==> page.written(vcpu_id, pressure) == page
            && page.store(vcpu_id, pressure) is None,
{
}

/// A page is valid where the host has recorded from 1 to 16 vCPUs.
pub proof fn law_valid_page(page: PageView)
    ensures
        page.valid() <==> 0 < page.vcpu_num < 17,
{
}

/// Samples can be written in parts: the page ends up the same, and so do the stores, which are
/// those of the parts in order. One sample is one write, with the stores of that write alone.
pub proof fn law_samples_in_parts(page: PageView, a: Seq<VcpuStat>, b: Seq<VcpuStat>, one: VcpuStat)
    requires
        page.wf(),
    ensures
        page.written_all(a + b) == page.written_all(a).written_all(b),
        page.stores(a + b) == page.stores(a) + page.stores(b),
        page.written_all(seq![]) == page,
        page.stores(seq![]).len() == 0,
        page.written_all(seq![one]) == page.written(one.vcpu_id, one.pressure),
        page.stores(seq![one]) == match page.store(one.vcpu_id, one.pressure) {
            Some(store) => seq![store],
            None => seq![],
        },
    decreases b.len(),
{
    assert(seq![one].drop_last() =~= seq![]);
    reveal_with_fuel(PageView::written_all, 2);
    reveal_with_fuel(PageView::stores, 2);
    if b.len() == 0 {
        assert(a + b =~= a);
    } else {
        law_samples_in_parts(page, a, b.drop_last(), one);
        assert((a + b).drop_last() =~= a + b.drop_last());
        assert((a + b).last() == b.last());
    }
    assert(page.stores(a + b) =~= page.stores(a) + page.stores(b));
}

/// What a page holds is what its view shows.
pub proof fn law_page_view(mem: PvschedSharedMem)
    ensures
        mem@.epoch == mem.epoch,
        mem@.tgid == mem.tgid,
        mem@.vcpu_num == mem.vcpu_num,
        mem@.info == mem.info@,
        mem@.wf() <==> mem.info@.len() == 16,
{
}

} // verus!
