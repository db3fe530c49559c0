use pvsched_qos::error::QosError;
use pvsched_qos::pressure::Pressure;
use pvsched_qos::psi::{Cgroup, FileText, PsiCgroupSource, PsiPressureSource, PsiReading};
use pvsched_qos::source::{PressureSource, StubPressureSource, VcpuStat};

fn text(s: &str) -> Option<FileText> {
    Some(FileText::Text(s.to_string()))
}

fn unreadable(s: &str) -> Option<FileText> {
    Some(FileText::Unreadable(s.to_string()))
}

fn cgroup(path: &str, pressure: Option<FileText>, cpuset: Option<FileText>) -> Cgroup {
    Cgroup { path: path.to_string(), pressure, cpuset }
}

fn good(path: &str, cpus: &str) -> Cgroup {
    cgroup(path, text("some avg10=0.00 total=0\n"), text(cpus))
}

fn reading(now_us: u64, total: u64) -> PsiReading {
    PsiReading { now_us, pressure: FileText::Text(format!("some avg10=0.00 total={total}\n")) }
}

fn stat(vcpu_id: usize, pressure: f64) -> VcpuStat {
    VcpuStat { vcpu_id, pressure: Pressure { bits: pressure.to_bits() } }
}

#[test]
fn stub_reports_zero_on_each_vcpu() {
    let mut stub = StubPressureSource::new(3);
    let expected = vec![stat(0, 0.0), stat(1, 0.0), stat(2, 0.0)];
    assert_eq!(stub.collect(), Ok(expected.clone()));
    assert_eq!(stub.collect(), Ok(expected));
    assert_eq!(StubPressureSource::new(0).collect(), Ok(vec![]));
}

#[test]
fn cgroup_becomes_a_source_for_its_vcpus() {
    let source = PsiCgroupSource::try_new(&good("/cg/a", "1-2,9\n"), 4).unwrap();
    assert_eq!(source.target_vcpus(), &vec![1, 2]);
    assert_eq!(source.pressure_path(), "/cg/a/cpu.pressure");
    let source = PsiCgroupSource::try_new(&good("/cg/a/cpu.pressure", "3"), 4).unwrap();
    assert_eq!(source.target_vcpus(), &vec![3]);
    assert_eq!(source.pressure_path(), "/cg/a/cpu.pressure");
}

#[test]
fn cgroup_is_refused_for_the_first_thing_wrong() {
    let refused = |c: Cgroup| PsiCgroupSource::try_new(&c, 4).unwrap_err();
    assert_eq!(
        refused(cgroup("/cg", None, None)).message(),
        "PSI cpu.pressure not found at /cg/cpu.pressure"
    );
    assert_eq!(
        refused(cgroup("/cg/cpu.pressure", text("junk"), None)).message(),
        "cpuset.cpus not found at /cg/cpuset.cpus"
    );
    assert_eq!(
        refused(cgroup("/cg", unreadable("denied"), text("x"))),
        QosError::SourceFailed { reason: "denied".to_string() }
    );
    assert_eq!(refused(cgroup("/cg", text("junk"), unreadable("denied"))), QosError::TotalMissing);
    assert_eq!(refused(cgroup("/cg", text("total=1"), unreadable("denied"))).message(), "denied");
    assert_eq!(
        refused(good("/cg", "2-1")).message(),
        "invalid cpuset range 2-1"
    );
    assert_eq!(refused(good("/cg", "\n")), QosError::EmptyCpuset);
    assert_eq!(refused(good("/cg", ",")), QosError::EmptyCpuset);
    assert_eq!(refused(good("/cg", "4-7")), QosError::CpusOutOfRange { vcpu_count: 4 });
    assert_eq!(
        refused(good("/cg", "4-7")).message(),
        "cpuset.cpus lists CPUs outside vCPU range (count=4)"
    );
}

#[test]
fn pressure_is_stall_gained_per_time_passed() {
    let mut source = PsiCgroupSource::try_new(&good("/cg", "0"), 1).unwrap();
    let mut sample = |now: u64, total: u64| {
        f64::from_bits(source.sample_pressure(now, &reading(now, total).pressure).unwrap().bits)
    };
    assert_eq!(sample(1_000, 500), 0.0);
    assert_eq!(sample(2_000, 750), 0.25);
    assert_eq!(sample(2_000, 900), 0.0);
    assert_eq!(sample(5_000, 1_900), 1.0 / 3.0);
    assert_eq!(sample(6_000, 4_000), 1.0);
    assert_eq!(sample(7_000, 100), 0.0);
    assert_eq!(sample(6_500, 200), 0.0);
    assert_eq!(sample(7_500, 700), 0.5);
}

#[test]
fn failed_sample_changes_nothing() {
    let mut source = PsiCgroupSource::try_new(&good("/cg", "0"), 1).unwrap();
    source.sample_pressure(1_000, &reading(0, 100).pressure).unwrap();
    assert_eq!(
        source.sample_pressure(1_500, &FileText::Text("some".to_string())),
        Err(QosError::TotalMissing)
    );
    assert_eq!(
        source.sample_pressure(1_600, &FileText::Unreadable("gone".to_string())).unwrap_err().message(),
        "gone"
    );
    let p = source.sample_pressure(2_000, &reading(0, 600).pressure).unwrap();
    assert_eq!(f64::from_bits(p.bits), 0.5);
}

#[test]
fn unusable_cgroups_are_left_out() {
    let cgroups = vec![good("/a", "0-1"), cgroup("/b", None, None), good("/c", "9"), good("/d", "1")];
    let source = PsiPressureSource::try_new(&cgroups, 2).unwrap();
    assert_eq!(source.source_count(), 2);
    assert_eq!(source.pressure_path(0), "/a/cpu.pressure");
    assert_eq!(source.pressure_path(1), "/d/cpu.pressure");
    let err = PsiPressureSource::try_new(&vec![cgroup("/b", None, None)], 2).unwrap_err();
    assert_eq!(err, QosError::NoValidCgroup);
    assert_eq!(err.message(), "no valid PSI cgroup paths found");
    assert!(PsiPressureSource::try_new(&vec![], 2).is_err());
}

#[test]
fn largest_pressure_on_a_vcpu_counts() {
    let cgroups = vec![good("/a", "0-1"), good("/b", "1,3")];
    let mut source = PsiPressureSource::try_new(&cgroups, 5).unwrap();
    let first = source.collect(&vec![reading(1_000, 0), reading(1_000, 0)]);
    assert_eq!(first, Ok(vec![stat(0, 0.0), stat(1, 0.0), stat(3, 0.0)]));
    let second = source.collect(&vec![reading(2_000, 250), reading(2_000, 750)]);
    assert_eq!(second, Ok(vec![stat(0, 0.25), stat(1, 0.75), stat(3, 0.75)]));
    let third = source.collect(&vec![reading(3_000, 750), reading(3_000, 800)]);
    assert_eq!(third, Ok(vec![stat(0, 0.5), stat(1, 0.5), stat(3, 0.05)]));
}

#[test]
fn failed_reading_stops_the_collection() {
    let cgroups = vec![good("/a", "0"), good("/b", "1"), good("/c", "2")];
    let mut source = PsiPressureSource::try_new(&cgroups, 3).unwrap();
    source.collect(&vec![reading(1_000, 0), reading(1_000, 0), reading(1_000, 0)]).unwrap();
    let bad = PsiReading { now_us: 2_000, pressure: FileText::Unreadable("io".to_string()) };
    let failed = source.collect(&vec![reading(2_000, 1_000), bad, reading(2_000, 1_000)]);
    assert_eq!(failed, Err(QosError::SourceFailed { reason: "io".to_string() }));
    let report = source.collect(&vec![reading(3_000, 1_000), reading(3_000, 1_000), reading(3_000, 1_000)]);
    assert_eq!(report, Ok(vec![stat(0, 0.0), stat(1, 0.5), stat(2, 0.5)]));
}
