//! What can go wrong while pressure is set up, collected and reported.

use vstd::prelude::*;
use vstd::string::*;

use crate::decimal;
use crate::decimal::IntParseError;

verus! {

/// An error of the QoS reporter.
#[derive(Debug, PartialEq, Eq)]
pub enum QosError {
    /// A `cpuset.cpus` file lists no CPU.
    EmptyCpuset,
    /// A CPU number in `cpuset.cpus` cannot be read.
    InvalidCpu { cpu: String, cause: IntParseError },
    /// A range in `cpuset.cpus` ends before it starts.
    InvalidRange { start: usize, end: usize },
    /// All CPUs of `cpuset.cpus` lie beyond the vCPUs of the guest.
    CpusOutOfRange { vcpu_count: usize },
    /// A PSI line has no `total=` field.
    TotalMissing,
    /// The `total=` field of a PSI line cannot be read.
    InvalidTotal { cause: IntParseError },
    /// There is no `cpu.pressure` file at this path.
    PressureFileMissing { path: String },
    /// There is no `cpuset.cpus` file at this path.
    CpusetFileMissing { path: String },
    /// None of the cgroups can serve as a PSI source.
    NoValidCgroup,
    /// The host recorded a number of vCPUs that the ABI does not allow.
    InvalidVcpuNum { count: usize },
    /// The collection interval is zero.
    ZeroInterval,
    /// The collection interval does not fit in 64 bits of nanoseconds.
    IntervalTooLarge,
    /// A pressure source failed for a reason of its own, such as a file that cannot be read.
    SourceFailed { reason: String },
}

/// What a `QosError` says, with its texts as sequences of characters.
pub enum QosErrorView {
    EmptyCpuset,
    InvalidCpu { cpu: Seq<char>, cause: IntParseError },
    InvalidRange { start: int, end: int },
    CpusOutOfRange { vcpu_count: int },
    TotalMissing,
    InvalidTotal { cause: IntParseError },
    PressureFileMissing { path: Seq<char> },
    CpusetFileMissing { path: Seq<char> },
    NoValidCgroup,
    InvalidVcpuNum { count: int },
    ZeroInterval,
    IntervalTooLarge,
    SourceFailed { reason: Seq<char> },
}

impl View for QosError {
    type V = QosErrorView;

    open spec fn view(&self) -> QosErrorView {
        match *self {
            QosError::EmptyCpuset => QosErrorView::EmptyCpuset,
            QosError::InvalidCpu { cpu, cause } => QosErrorView::InvalidCpu { cpu: cpu@, cause },
            QosError::InvalidRange { start, end } => QosErrorView::InvalidRange {
                start: start as int,
                end: end as int,
            },
            QosError::CpusOutOfRange { vcpu_count } => QosErrorView::CpusOutOfRange {
                vcpu_count: vcpu_count as int,
            },
            QosError::TotalMissing => QosErrorView::TotalMissing,
            QosError::InvalidTotal { cause } => QosErrorView::InvalidTotal { cause },
            QosError::PressureFileMissing { path } => QosErrorView::PressureFileMissing {
                path: path@,
            },
            QosError::CpusetFileMissing { path } => QosErrorView::CpusetFileMissing { path: path@ },
            QosError::NoValidCgroup => QosErrorView::NoValidCgroup,
            QosError::InvalidVcpuNum { count } => QosErrorView::InvalidVcpuNum {
                count: count as int,
            },
            QosError::ZeroInterval => QosErrorView::ZeroInterval,
            QosError::IntervalTooLarge => QosErrorView::IntervalTooLarge,
            QosError::SourceFailed { reason } => QosErrorView::SourceFailed { reason: reason@ },
        }
    }
}

impl QosErrorView {
    /// The text of the error.
    pub open spec fn message(self) -> Seq<char> {
        match self {
            QosErrorView::EmptyCpuset => "cpuset.cpus is empty"@,
            QosErrorView::InvalidCpu { cpu, cause } => "invalid cpuset cpu '"@ + cpu + "': "@
                + cause.spec_message(),
            QosErrorView::InvalidRange { start, end } => "invalid cpuset range "@
                + decimal::rendered(start as nat) + "-"@ + decimal::rendered(end as nat),
            QosErrorView::CpusOutOfRange { vcpu_count } =>
                "cpuset.cpus lists CPUs outside vCPU range (count="@ + decimal::rendered(
                vcpu_count as nat,
            ) + ")"@,
            QosErrorView::TotalMissing => "PSI total field not found"@,
            QosErrorView::InvalidTotal { cause } => "invalid PSI total value: "@
                + cause.spec_message(),
            QosErrorView::PressureFileMissing { path } => "PSI cpu.pressure not found at "@ + path,
            QosErrorView::CpusetFileMissing { path } => "cpuset.cpus not found at "@ + path,
            QosErrorView::NoValidCgroup => "no valid PSI cgroup paths found"@,
            QosErrorView::InvalidVcpuNum { count } => "invalid vcpu_num in shared memory: "@
                + decimal::rendered(count as nat),
            QosErrorView::ZeroInterval => "interval must be non-zero"@,
            QosErrorView::IntervalTooLarge => "interval too large to represent in ns"@,
            QosErrorView::SourceFailed { reason } => reason,
        }
    }
}

impl QosError {
    /// The text of the error.
    pub fn message(&self) -> (r: String)
        ensures
            r@ == self@.message(),
    {
        match self {
            QosError::EmptyCpuset => "cpuset.cpus is empty".to_owned(),
            QosError::InvalidCpu { cpu, cause } => "invalid cpuset cpu '".to_owned().concat(
                cpu.as_str(),
            ).concat("': ").concat(cause.message()),
            QosError::InvalidRange { start, end } => "invalid cpuset range ".to_owned().concat(
                decimal::render(*start as u64).as_str(),
            ).concat("-").concat(decimal::render(*end as u64).as_str()),
            QosError::CpusOutOfRange { vcpu_count } =>
                "cpuset.cpus lists CPUs outside vCPU range (count=".to_owned().concat(
                decimal::render(*vcpu_count as u64).as_str(),
            ).concat(")"),
            QosError::TotalMissing => "PSI total field not found".to_owned(),
            QosError::InvalidTotal { cause } => "invalid PSI total value: ".to_owned().concat(
                cause.message(),
            ),
            QosError::PressureFileMissing { path } =>
                "PSI cpu.pressure not found at ".to_owned().concat(path.as_str()),
            QosError::CpusetFileMissing { path } => "cpuset.cpus not found at ".to_owned().concat(
                path.as_str(),
            ),
            QosError::NoValidCgroup => "no valid PSI cgroup paths found".to_owned(),
            QosError::InvalidVcpuNum { count } =>
                "invalid vcpu_num in shared memory: ".to_owned().concat(
                decimal::render(*count as u64).as_str(),
            ),
            QosError::ZeroInterval => "interval must be non-zero".to_owned(),
            QosError::IntervalTooLarge => "interval too large to represent in ns".to_owned(),
            QosError::SourceFailed { reason } => reason.clone(),
        }
    }
}

/// What each error says.
pub proof fn law_messages(
    cause: IntParseError,
    text: Seq<char>,
    start: nat,
    end: nat,
)
    ensures
        (QosErrorView::EmptyCpuset).message() == "cpuset.cpus is empty"@,
        (QosErrorView::InvalidCpu { cpu: text, cause }).message() == "invalid cpuset cpu '"@ + text
            + "': "@ + cause.spec_message(),
        (QosErrorView::InvalidRange { start: start as int, end: end as int }).message()
            == "invalid cpuset range "@ + decimal::rendered(start) + "-"@ + decimal::rendered(end),
        (QosErrorView::CpusOutOfRange { vcpu_count: start as int }).message()
            == "cpuset.cpus lists CPUs outside vCPU range (count="@ + decimal::rendered(start)
            + ")"@,
        (QosErrorView::TotalMissing).message() == "PSI total field not found"@,
        (QosErrorView::InvalidTotal { cause }).message() == "invalid PSI total value: "@
            + cause.spec_message(),
        (QosErrorView::PressureFileMissing { path: text }).message()
            == "PSI cpu.pressure not found at "@ + text,
        (QosErrorView::CpusetFileMissing { path: text }).message() == "cpuset.cpus not found at "@
            + text,
        (QosErrorView::NoValidCgroup).message() == "no valid PSI cgroup paths found"@,
        (QosErrorView::InvalidVcpuNum { count: start as int }).message()
            == "invalid vcpu_num in shared memory: "@ + decimal::rendered(start),
        (QosErrorView::ZeroInterval).message() == "interval must be non-zero"@,
        (QosErrorView::IntervalTooLarge).message() == "interval too large to represent in ns"@,
        (QosErrorView::SourceFailed { reason: text }).message() == text,
{
}

/// What an error holds is what its view shows.
pub proof fn law_error_view(text: String, cause: IntParseError, start: usize, end: usize)
    ensures
        (QosError::InvalidCpu { cpu: text, cause })@ == (QosErrorView::InvalidCpu {
            cpu: text@,
            cause,
        }),
        (QosError::InvalidRange { start, end })@ == (QosErrorView::InvalidRange {
            start: start as int,
            end: end as int,
        }),
        (QosError::CpusOutOfRange { vcpu_count: start })@ == (QosErrorView::CpusOutOfRange {
            vcpu_count: start as int,
        }),
        (QosError::InvalidTotal { cause })@ == (QosErrorView::InvalidTotal { cause }),
        (QosError::PressureFileMissing { path: text })@ == (QosErrorView::PressureFileMissing {
            path: text@,
        }),
        (QosError::CpusetFileMissing { path: text })@ == (QosErrorView::CpusetFileMissing {
            path: text@,
        }),
        (QosError::InvalidVcpuNum { count: start })@ == (QosErrorView::InvalidVcpuNum {
            count: start as int,
        }),
        (QosError::SourceFailed { reason: text })@ == (QosErrorView::SourceFailed {
            reason: text@,
        }),
        (QosError::EmptyCpuset)@ == QosErrorView::EmptyCpuset,
        (QosError::TotalMissing)@ == QosErrorView::TotalMissing,
        (QosError::NoValidCgroup)@ == QosErrorView::NoValidCgroup,
        (QosError::ZeroInterval)@ == QosErrorView::ZeroInterval,
        (QosError::IntervalTooLarge)@ == QosErrorView::IntervalTooLarge,
{
}

} // verus!
