use pvsched_qos::error::QosError;
use pvsched_qos::pressure::Pressure;
use pvsched_qos::psi::{Cgroup, FileText, PsiPressureSource, PsiReading};
use pvsched_qos::qos::{prepare_worker, QosCollector};
use pvsched_qos::shared_mem::{
    info_offset, PressureStore, PvschedInfo, PvschedSharedMem, SharedMem, INFO_SIZE, PVSCHED_MAX_VCPU, TOKENS_OFFSET,
};
use pvsched_qos::source::{PressureSource, VcpuStat};
use pvsched_qos::timer::Interval;

fn page(vcpu_num: u32) -> PvschedSharedMem {
    let mut info = Vec::new();
    for i in 0..16u64 {
        info.push(PvschedInfo { qos_pressure: 7, update_seq: u64::MAX - 1 + (i % 2), tokens: -(i as i64) });
    }
    PvschedSharedMem { epoch: 3, tgid: 42, vcpu_num, info }
}

fn stat(vcpu_id: usize, pressure: f64) -> VcpuStat {
    VcpuStat { vcpu_id, pressure: Pressure { bits: pressure.to_bits() } }
}

fn store(vcpu_id: usize, qos_pressure: u64) -> PressureStore {
    let at = 16 + 24 * vcpu_id;
    PressureStore { pressure_offset: at, qos_pressure, seq_offset: at + 8 }
}

#[test]
fn only_one_to_sixteen_vcpus_are_valid() {
    for n in [1, 2, 15, 16] {
        let mut shm = SharedMem::from_page(page(n));
        assert_eq!(shm.init_guest_area(), Ok(()));
        assert_eq!(shm.vcpu_count(), n as usize);
    }
    for n in [0, 17, u32::MAX] {
        let mut shm = SharedMem::from_page(page(n));
        let err = shm.init_guest_area().unwrap_err();
        assert_eq!(err, QosError::InvalidVcpuNum { count: n as usize });
        assert_eq!(err.message(), format!("invalid vcpu_num in shared memory: {n}"));
    }
}

#[test]
fn pressure_is_written_in_fixed_point() {
    let mut shm = SharedMem::from_page(page(4));
    let mut write = |id: usize, x: f64| shm.write_vcpu_pressure(id, Pressure { bits: x.to_bits() });
    assert_eq!(write(0, 0.5), Some(store(0, 512)));
    assert_eq!(write(3, 1.5), Some(store(3, 1024)));
    assert_eq!(write(1, -0.5), Some(store(1, 0)));
    assert_eq!(write(2, f64::NAN), Some(store(2, 0)));
    assert_eq!(write(0, 0.9999), Some(store(0, 1023)));
}

#[test]
fn writing_touches_pressure_and_sequence_only() {
    let mut shm = SharedMem::from_page(page(4));
    assert_eq!(shm.page(), &page(4));
    shm.write_samples(&vec![stat(1, 0.25), stat(9, 1.0), stat(2, 1.0), stat(1, 0.5)]);
    let mut expected = page(4);
    expected.info[1] = PvschedInfo { qos_pressure: 512, update_seq: 1, tokens: -1 };
    expected.info[2] = PvschedInfo { qos_pressure: 1024, update_seq: u64::MAX, tokens: -2 };
    assert_eq!(shm.page(), &expected);
    shm.init_guest_area().unwrap();
    assert_eq!(shm.page(), &expected);
}

#[test]
fn out_of_range_vcpus_are_ignored() {
    let mut shm = SharedMem::from_page(page(4));
    let one = Pressure { bits: 1.0f64.to_bits() };
    assert_eq!(shm.write_vcpu_pressure(4, one), None);
    assert_eq!(shm.write_vcpu_pressure(16, one), None);
    assert_eq!(shm.write_vcpu_pressure(usize::MAX, one), None);
    let mut shm = SharedMem::from_page(page(100));
    assert_eq!(shm.write_vcpu_pressure(15, one), Some(store(15, 1024)));
    assert_eq!(shm.write_vcpu_pressure(16, one), None);
}

#[test]
fn stores_follow_the_samples() {
    let mut shm = SharedMem::from_page(page(2));
    let stores = shm.write_samples(&vec![stat(1, 0.25), stat(5, 1.0), stat(0, 1.0), stat(1, 0.5)]);
    assert_eq!(stores, vec![store(1, 256), store(0, 1024), store(1, 512)]);
}

#[test]
fn entries_lie_in_the_page() {
    assert_eq!(SharedMem::probe_size(), 4096);
    for id in 0..PVSCHED_MAX_VCPU {
        let at = info_offset(id);
        assert_eq!(at, 16 + 24 * id);
        assert_eq!(at % 8, 0);
        assert!(at + INFO_SIZE <= SharedMem::probe_size());
        assert!(at + TOKENS_OFFSET + 8 <= at + INFO_SIZE);
    }
}

struct Fixed(Result<Vec<VcpuStat>, String>);

impl PressureSource for Fixed {
    fn collect(&mut self) -> Result<Vec<VcpuStat>, QosError> {
        match &self.0 {
            Ok(stats) => Ok(stats.clone()),
            Err(reason) => Err(QosError::SourceFailed { reason: reason.clone() }),
        }
    }
}

#[test]
fn stub_collector_writes_zero() {
    let shm = SharedMem::from_page(page(3));
    let mut collector = QosCollector::new(shm, Interval::from_millis(100), 3);
    assert_eq!(collector.interval(), Interval { secs: 0, nanos: 100_000_000 });
    assert_eq!(collector.tick(), Ok(vec![store(0, 0), store(1, 0), store(2, 0)]));
}

#[test]
fn collector_writes_what_its_source_reports() {
    let shm = SharedMem::from_page(page(3));
    let samples = vec![stat(2, 0.5), stat(3, 0.5)];
    let mut collector =
        QosCollector::new(shm, Interval::from_millis(1), 3).with_source(Fixed(Ok(samples)));
    assert_eq!(collector.tick(), Ok(vec![store(2, 512)]));
    collector.refresh(page(4));
    assert_eq!(collector.tick(), Ok(vec![store(2, 512), store(3, 512)]));
    assert_eq!(collector.interval(), Interval::from_millis(1));
}

#[test]
fn collector_passes_on_the_failure_of_its_source() {
    let shm = SharedMem::from_page(page(3));
    let mut collector = QosCollector::new(shm, Interval::from_millis(1), 3)
        .with_source(Fixed(Err("no data".to_string())));
    assert_eq!(collector.tick().unwrap_err().message(), "no data");
}

#[test]
fn worker_uses_psi_or_falls_back_to_the_stub() {
    let read = |s: &str| Some(FileText::Text(s.to_string()));
    let usable = Cgroup { path: "/cg".to_string(), pressure: read("total=1"), cpuset: read("0-7") };
    let interval = Interval::from_millis(100);
    let mut worker = prepare_worker(SharedMem::from_page(page(2)), interval, &vec![usable]).ok().unwrap();
    assert_eq!(worker.psi.as_ref().unwrap().source_count(), 1);
    assert_eq!(worker.collector.tick(), Ok(vec![store(0, 0), store(1, 0)]));
    let worker = prepare_worker(SharedMem::from_page(page(2)), interval, &vec![]).ok().unwrap();
    assert_eq!(worker.psi.unwrap_err(), QosError::NoValidCgroup);
    let refused = prepare_worker(SharedMem::from_page(page(0)), interval, &vec![]).err().unwrap();
    assert_eq!(refused, QosError::InvalidVcpuNum { count: 0 });
}

#[test]
fn psi_pressure_reaches_the_page() {
    let read = |s: &str| Some(FileText::Text(s.to_string()));
    let cgroup = |path: &str, cpus: &str| Cgroup {
        path: path.to_string(),
        pressure: read("some total=0"),
        cpuset: read(cpus),
    };
    let mut psi = PsiPressureSource::try_new(&vec![cgroup("/a", "0,2"), cgroup("/b", "2")], 4).unwrap();
    let at = |now_us: u64, total: u64| PsiReading {
        now_us,
        pressure: FileText::Text(format!("some total={total}")),
    };
    psi.collect(&vec![at(1_000, 10), at(1_000, 20)]).unwrap();
    let report = psi.collect(&vec![at(4_000, 1_010), at(5_000, 2_020)]).unwrap();
    let mut shm = SharedMem::from_page(page(4));
    assert_eq!(shm.write_samples(&report), vec![store(0, 341), store(2, 512)]);
    let mut expected = page(4);
    expected.info[0] = PvschedInfo { qos_pressure: 341, update_seq: u64::MAX, tokens: 0 };
    expected.info[2] = PvschedInfo { qos_pressure: 512, update_seq: u64::MAX, tokens: -2 };
    assert_eq!(shm.page(), &expected);
}
