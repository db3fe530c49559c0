//! Pressure from the PSI files of cgroups.
//!
//! A cgroup reports in `cpu.pressure` how long its tasks have been stalled for want of a CPU,
//! and lists in `cpuset.cpus` the CPUs they run on. The stall time per time passed since the
//! previous reading is the pressure on those CPUs.

use vstd::prelude::*;
use vstd::string::*;

use crate::cpuset;
use crate::decimal;
use crate::error::{QosError, QosErrorView};
use crate::path;
use crate::pressure;
use crate::pressure::Pressure;
use crate::ratio;
use crate::source::VcpuStat;
use crate::text;

verus! {

/// The value of the first `total=` field among the words of a PSI line.
pub open spec fn total_of(words: Seq<Seq<char>>) -> Result<int, QosErrorView>
    decreases words.len(),
{
    if words.len() == 0 {
        Err(QosErrorView::TotalMissing)
    } else if text::starts_with(words[0], "total="@) {
        match decimal::parsed(words[0].skip("total="@.len() as int), u64::MAX as int) {
            Ok(total) => Ok(total),
            Err(cause) => Err(QosErrorView::InvalidTotal { cause }),
        }
    } else {
        total_of(words.skip(1))
    }
}

/// The total stall time, in microseconds, that a PSI line reports.
pub open spec fn psi_total(line: Seq<char>) -> Result<int, QosErrorView> {
    total_of(text::words(line))
}

/// The total stall time, in microseconds, that a PSI line reports.
pub fn parse_psi_total_us(line: &str) -> (r: Result<u64, QosError>)
    ensures
        match r {
            Ok(total) => psi_total(line@) == Ok::<int, QosErrorView>(total as int),
            Err(e) => psi_total(line@) == Err::<int, QosErrorView>(e@),
        },
{
    let tokens: Vec<&str> = text::split_whitespace(line);
    let ghost words = text::words(line@);
    let mut i: usize = 0;
    assert(words.skip(0) =~= words);
    while i < tokens.len()
        invariant
            i <= tokens.len(),
            words == text::words(line@),
            words == text::texts(tokens@),
            total_of(words) == total_of(words.skip(i as int)),
        decreases tokens.len() - i,
    {
        assert(words.skip(i as int)[0] == tokens@[i as int]@);
        if let Some(total) = text::strip_prefix(tokens[i], "total=") {
            return match decimal::parse_u64(total) {
                Ok(n) => Ok(n),
                Err(cause) => Err(QosError::InvalidTotal { cause }),
            };
        }
        assert(words.skip(i as int).skip(1) =~= words.skip(i + 1));
        i += 1;
    }
    Err(QosError::TotalMissing)
}

/// Words without a `total=` field before it do not matter to the total.
proof fn lemma_total_after(a: Seq<Seq<char>>, b: Seq<Seq<char>>)
    requires
        forall|i: int| 0 <= i < a.len() ==> !text::starts_with(#[trigger] a[i], "total="@),
    ensures
        total_of(a + b) == total_of(b),
    decreases a.len(),
{
    if a.len() == 0 {
        assert(a + b =~= b);
    } else {
        assert((a + b)[0] == a[0]);
        assert((a + b).skip(1) =~= a.skip(1) + b);
        assert forall|i: int| 0 <= i < a.skip(1).len() implies !text::starts_with(
            #[trigger] a.skip(1)[i],
            "total="@,
        ) by {
            assert(a.skip(1)[i] == a[i + 1]);
        }
        lemma_total_after(a.skip(1), b);
    }
}

/// A line reports the number of its first `total=` field, whatever stands before the white
/// space in front of that field and after the field.
pub proof fn law_total_reads_back(head: Seq<char>, gap: char, total: u64, tail: Seq<char>)
    requires
        text::is_space(gap),
        tail.len() == 0 || text::is_space(tail[0]),
        forall|i: int|
            0 <= i < text::words(head).len() ==> !text::starts_with(
                #[trigger] text::words(head)[i],
                "total="@,
            ),
    ensures
        psi_total(
            head + seq![gap] + ("total="@ + decimal::rendered(total as nat) + tail),
        ) == Ok::<int, QosErrorView>(total as int),
{
    let number = decimal::rendered(total as nat);
    let field = "total="@ + number;
    let rest = field + tail;
    reveal_strlit("total=");
    decimal::lemma_rendered(total as nat);
    assert forall|i: int| 0 <= i < field.len() implies !text::is_space(#[trigger] field[i]) by {
        if i >= 6 {
            assert(field[i] == number[i - 6]);
        }
    }
    assert("total="@ + number + tail =~= rest);
    text::lemma_words_join(head, gap, rest);
    lemma_total_after(text::words(head), text::words(rest));
    text::lemma_first_word(field, tail);
    assert(field.take(6) =~= "total="@);
    assert(field.skip(6) =~= number);
    decimal::law_render_then_parse(total as nat, u64::MAX as int);
    assert(text::words(rest)[0] == field);
}

/// What an attempt to read a file gave.
#[derive(Debug, PartialEq, Eq)]
pub enum FileText {
    /// The file cannot be read, for this reason.
    Unreadable(String),
    /// The text that was read.
    Text(String),
}

/// A `FileText` with its text as a sequence of characters.
pub enum FileTextView {
    Unreadable(Seq<char>),
    Text(Seq<char>),
}

impl View for FileText {
    type V = FileTextView;

    open spec fn view(&self) -> FileTextView {
        match *self {
            FileText::Unreadable(reason) => FileTextView::Unreadable(reason@),
            FileText::Text(text) => FileTextView::Text(text@),
        }
    }
}

/// A cgroup that may serve as a source, as it was found.
#[derive(Debug, PartialEq, Eq)]
pub struct Cgroup {
    /// Its directory, or its `cpu.pressure` file.
    pub path: String,
    /// The first line of its `cpu.pressure` file, if there is such a file.
    pub pressure: Option<FileText>,
    /// Its `cpuset.cpus` file, if there is one.
    pub cpuset: Option<FileText>,
}

/// A `Cgroup` with its texts as sequences of characters.
pub struct CgroupView {
    pub path: Seq<char>,
    pub pressure: Option<FileTextView>,
    pub cpuset: Option<FileTextView>,
}

impl View for Cgroup {
    type V = CgroupView;

    open spec fn view(&self) -> CgroupView {
        CgroupView {
            path: self.path@,
            pressure: match self.pressure {
                Some(file) => Some(file@),
                None => None,
            },
            cpuset: match self.cpuset {
                Some(file) => Some(file@),
                None => None,
            },
        }
    }
}

/// The members of `cpus` below `vcpu_count`.
pub open spec fn in_range(cpus: Set<usize>, vcpu_count: usize) -> Set<usize> {
    cpus.filter(|cpu: usize| cpu < vcpu_count)
}

/// The vCPUs that a list of CPUs stands for.
pub open spec fn targets_of(cpus: Set<usize>, vcpu_count: usize) -> Result<
    Set<usize>,
    QosErrorView,
> {
    if cpus == Set::<usize>::empty() {
        Err(QosErrorView::EmptyCpuset)
    } else if in_range(cpus, vcpu_count) == Set::<usize>::empty() {
        Err(QosErrorView::CpusOutOfRange { vcpu_count: vcpu_count as int })
    } else {
        Ok(in_range(cpus, vcpu_count))
    }
}

/// The stall time that a `cpu.pressure` file reports, or why there is none.
pub open spec fn file_total(pressure: FileTextView) -> Result<int, QosErrorView> {
    match pressure {
        FileTextView::Unreadable(reason) => Err(QosErrorView::SourceFailed { reason }),
        FileTextView::Text(line) => psi_total(line),
    }
}

/// The CPUs that a `cpuset.cpus` file lists, or why there are none.
pub open spec fn file_cpus(cpuset: FileTextView) -> Result<Set<usize>, QosErrorView> {
    match cpuset {
        FileTextView::Unreadable(reason) => Err(QosErrorView::SourceFailed { reason }),
        FileTextView::Text(content) => cpuset::cpuset(content),
    }
}

/// The vCPUs that a cgroup can be a source for. Both files have to exist, and both have to make
/// sense; the first of these that fails decides the error.
pub open spec fn admitted(cgroup: CgroupView, vcpu_count: usize) -> Result<
    Set<usize>,
    QosErrorView,
> {
    let (dir, pressure_path) = path::resolved(cgroup.path);
    match (cgroup.pressure, cgroup.cpuset) {
        (None, _) => Err(QosErrorView::PressureFileMissing { path: pressure_path }),
        (_, None) => Err(
            QosErrorView::CpusetFileMissing { path: path::joined(dir, "cpuset.cpus"@) },
        ),
        (Some(pressure), Some(cpuset)) => match (file_total(pressure), file_cpus(cpuset)) {
            (Err(e), _) => Err(e),
            (_, Err(e)) => Err(e),
            (Ok(_), Ok(cpus)) => targets_of(cpus, vcpu_count),
        },
    }
}

/// A source of pressure: one cgroup.
#[derive(Debug)]
pub struct PsiCgroupSource {
    target_vcpus: Vec<usize>,
    pressure_path: String,
    last: Option<(u64, u64)>,
}

/// What a `PsiCgroupSource` holds: the vCPUs it is a source for, its `cpu.pressure` file, and
/// the stall time and the time of its last reading.
pub struct PsiCgroupView {
    pub targets: Seq<usize>,
    pub pressure_path: Seq<char>,
    pub last: Option<(u64, u64)>,
}

impl View for PsiCgroupSource {
    type V = PsiCgroupView;

    closed spec fn view(&self) -> PsiCgroupView {
        PsiCgroupView {
            targets: self.target_vcpus@,
            pressure_path: self.pressure_path@,
            last: self.last,
        }
    }
}

impl PsiCgroupView {
    /// Whether the vCPUs are some of the first `vcpu_count`, in order.
    pub open spec fn wf(self, vcpu_count: usize) -> bool {
        &&& self.targets.len() > 0
        &&& cpuset::increasing(self.targets)
        &&& forall|i: int| 0 <= i < self.targets.len() ==> #[trigger] self.targets[i] < vcpu_count
    }

    /// The same source after a reading.
    pub open spec fn after(self, total_us: u64, now_us: u64) -> PsiCgroupView {
        PsiCgroupView { last: Some((total_us, now_us)), ..self }
    }
}

/// How much larger `a` is than `b`, if it is.
pub open spec fn excess(a: u64, b: u64) -> int {
    if a > b {
        a - b
    } else {
        0
    }
}

/// The pressure between the last reading and one of `total_us` at `now_us`: the stall time
/// gained per time passed. There is none at the first reading, nor where no time has passed.
pub open spec fn pressure_between(last: Option<(u64, u64)>, total_us: u64, now_us: u64) -> Pressure {
    match last {
        Some((prev_total, prev_ts)) => if excess(now_us, prev_ts) == 0 {
            Pressure { bits: 0 }
        } else {
            ratio::spec_ratio(excess(total_us, prev_total), excess(now_us, prev_ts))
        },
        None => Pressure { bits: 0 },
    }
}

/// The numbers of `cpus` below `limit`.
fn keep_below(cpus: &Vec<usize>, limit: usize) -> (r: Vec<usize>)
    requires
        cpuset::increasing(cpus@),
    ensures
        cpuset::increasing(r@),
        r@.to_set() == in_range(cpus@.to_set(), limit),
        forall|i: int| 0 <= i < r@.len() ==> #[trigger] r@[i] < limit,
{
    let mut n: usize = 0;
    let mut r: Vec<usize> = Vec::new();
    while n < cpus.len() && cpus[n] < limit
        invariant
            n <= cpus.len(),
            cpuset::increasing(cpus@),
            r@ == cpus@.take(n as int),
            forall|i: int| 0 <= i < n ==> #[trigger] cpus@[i] < limit,
        decreases cpus.len() - n,
    {
        r.push(cpus[n]);
        n += 1;
        assert(r@ =~= cpus@.take(n as int));
    }
    proof {
        let kept = in_range(cpus@.to_set(), limit);
        assert forall|cpu: usize| kept.contains(cpu) implies r@.to_set().contains(cpu) by {
            let i = choose|i: int| 0 <= i < cpus@.len() && cpus@[i] == cpu;
            assert(i < n);
            assert(r@[i] == cpu);
        }
        assert forall|cpu: usize| r@.to_set().contains(cpu) implies kept.contains(cpu) by {
            let i = choose|i: int| 0 <= i < r@.len() && r@[i] == cpu;
            assert(cpus@[i] == cpu);
            assert(cpus@.contains(cpu));
        }
        assert(r@.to_set() =~= kept);
    }
    r
}

/// The stall time that a `cpu.pressure` file reports.
pub fn read_psi_total_us(pressure: &FileText) -> (r: Result<u64, QosError>)
    ensures
        match r {
            Ok(total) => file_total(pressure@) == Ok::<int, QosErrorView>(total as int),
            Err(e) => file_total(pressure@) == Err::<int, QosErrorView>(e@),
        },
{
    match pressure {
        FileText::Unreadable(reason) => Err(QosError::SourceFailed { reason: reason.clone() }),
        FileText::Text(line) => parse_psi_total_us(line.as_str()),
    }
}

/// A list is empty where the set of its members is.
proof fn lemma_empty_list(s: Seq<usize>)
    ensures
        s.len() == 0 <==> s.to_set() == Set::<usize>::empty(),
{
    if s.len() == 0 {
        assert(s.to_set() =~= Set::<usize>::empty());
    } else {
        assert(s.to_set().contains(s[0]));
    }
}

impl PsiCgroupSource {
    /// Makes a cgroup a source for its CPUs among the first `vcpu_count`.
    pub fn try_new(cgroup: &Cgroup, vcpu_count: usize) -> (r: Result<PsiCgroupSource, QosError>)
        ensures
            match r {
                Ok(source) => {
                    &&& source@.wf(vcpu_count)
                    &&& source@.last is None
                    &&& source@.pressure_path == path::resolved(cgroup@.path).1
                    &&& admitted(cgroup@, vcpu_count) == Ok::<Set<usize>, QosErrorView>(
                        source@.targets.to_set(),
                    )
                },
                Err(e) => admitted(cgroup@, vcpu_count) == Err::<Set<usize>, QosErrorView>(e@),
            },
    {
        let (dir, pressure_path) = path::resolve_cgroup_paths(cgroup.path.as_str());
        let pressure = match &cgroup.pressure {
            Some(file) => file,
            None => return Err(QosError::PressureFileMissing { path: pressure_path }),
        };
        let cpuset = match &cgroup.cpuset {
            Some(file) => file,
            None => return Err(
                QosError::CpusetFileMissing { path: path::join(dir.as_str(), "cpuset.cpus") },
            ),
        };
        if let Err(e) = read_psi_total_us(pressure) {
            return Err(e);
        }
        let listed = match cpuset {
            FileText::Unreadable(reason) => Err(QosError::SourceFailed { reason: reason.clone() }),
            FileText::Text(content) => cpuset::parse_cpuset_cpus(content.as_str()),
        };
        let cpus: Vec<usize> = match listed {
            Ok(cpus) => cpus,
            Err(e) => return Err(e),
        };
        proof {
            lemma_empty_list(cpus@);
        }
        if cpus.is_empty() {
            return Err(QosError::EmptyCpuset);
        }
        let target_vcpus: Vec<usize> = keep_below(&cpus, vcpu_count);
        proof {
            lemma_empty_list(target_vcpus@);
        }
        if target_vcpus.is_empty() {
            return Err(QosError::CpusOutOfRange { vcpu_count });
        }
        Ok(PsiCgroupSource { target_vcpus, pressure_path, last: None })
    }

    /// The vCPUs this is a source for, smallest first.
    pub fn target_vcpus(&self) -> (r: &Vec<usize>)
        ensures
            r@ == self@.targets,
    {
        &self.target_vcpus
    }

    /// The file this source is read from.
    pub fn pressure_path(&self) -> (r: &str)
        ensures
            r@ == self@.pressure_path,
    {
        self.pressure_path.as_str()
    }

    /// Takes in a reading of the file at `now_us` and returns the pressure since the last one.
    /// A file that cannot be read, or makes no sense,
    /// changes nothing.
    pub fn sample_pressure(&mut self, now_us: u64, pressure: &FileText) -> (r: Result<
        Pressure,
        QosError,
    >)
        ensures
            match r {
                Ok(p) => {
                    &&& p.in_unit_interval()
                    &&& final(self)@.last matches Some((total_us, at_us))
                    &&& at_us == now_us
                    &&& file_total(pressure@) == Ok::<int, QosErrorView>(total_us as int)
                    &&& final(self)@ == old(self)@.after(total_us, now_us)
                    &&& p == pressure_between(old(self)@.last, total_us, now_us)
                },
                Err(e) => {
                    &&& file_total(pressure@) == Err::<int, QosErrorView>(e@)
                    &&& *final(self) == *old(self)
                },
            },
    {
        let total_us: u64 = match read_psi_total_us(pressure) {
            Ok(n) => n,
            Err(e) => return Err(e),
        };
        let gained = match self.last {
            Some((prev_total, prev_ts)) => {
                let delta_t: u64 = now_us.saturating_sub(prev_ts);
                let delta_stall: u64 = total_us.saturating_sub(prev_total);
                if delta_t == 0 {
                    Pressure::zero()
                } else {
                    ratio::ratio(delta_stall, delta_t)
                }
            },
            None => Pressure::zero(),
        };
        self.last = Some((total_us, now_us));
        Ok(gained)
    }
}

/// PSI-based QoS source backed by one or more cgroups.
#[derive(Debug)]
pub struct PsiPressureSource {
    vcpu_count: usize,
    sources: Vec<PsiCgroupSource>,
}

/// What a `PsiPressureSource` holds.
pub struct PsiPressureView {
    pub vcpu_count: usize,
    pub sources: Seq<PsiCgroupView>,
}

impl View for PsiPressureSource {
    type V = PsiPressureView;

    closed spec fn view(&self) -> PsiPressureView {
        PsiPressureView { vcpu_count: self.vcpu_count, sources: views(self.sources@) }
    }
}

/// What a sequence of sources holds.
pub open spec fn views(sources: Seq<PsiCgroupSource>) -> Seq<PsiCgroupView> {
    Seq::new(sources.len(), |i: int| sources[i]@)
}

impl PsiPressureView {
    /// Whether there is a source, and each is one for vCPUs of the guest.
    pub open spec fn wf(self) -> bool {
        &&& self.sources.len() > 0
        &&& forall|i: int|
            0 <= i < self.sources.len() ==> (#[trigger] self.sources[i]).wf(self.vcpu_count)
    }
}

/// The paths and the vCPUs of the cgroups that can be sources, in order.
pub open spec fn usable(cgroups: Seq<Cgroup>, vcpu_count: usize) -> Seq<(Seq<char>, Set<usize>)>
    decreases cgroups.len(),
{
    if cgroups.len() == 0 {
        seq![]
    } else {
        let before = usable(cgroups.drop_last(), vcpu_count);
        let cgroup = cgroups.last()@;
        match admitted(cgroup, vcpu_count) {
            Ok(targets) => before.push((path::resolved(cgroup.path).1, targets)),
            Err(_) => before,
        }
    }
}

/// Whether fresh sources are those that `usable` lists.
pub open spec fn fresh(sources: Seq<PsiCgroupView>, list: Seq<(Seq<char>, Set<usize>)>) -> bool {
    &&& sources.len() == list.len()
    &&& forall|i: int|
        0 <= i < list.len() ==> {
            &&& (#[trigger] sources[i]).pressure_path == list[i].0
            &&& sources[i].targets.to_set() == list[i].1
            &&& sources[i].last is None
        }
}

/// A reading of the `cpu.pressure` file of a source.
#[derive(Debug, PartialEq, Eq)]
pub struct PsiReading {
    /// When the file was read, in microseconds of a monotonic clock.
    pub now_us: u64,
    /// The first line of the file.
    pub pressure: FileText,
}

/// How many readings make sense before the first that does not.
pub open spec fn sound(readings: Seq<PsiReading>) -> nat
    decreases readings.len(),
{
    if readings.len() > 0 && file_total(readings[0].pressure@) is Ok {
        1 + sound(readings.skip(1))
    } else {
        0
    }
}

/// The stall time that a reading reports.
pub open spec fn reading_total(reading: PsiReading) -> u64 {
    match file_total(reading.pressure@) {
        Ok(total) => total as u64,
        Err(_) => 0,
    }
}

/// The sources after the first `n` of them have taken in their readings.
pub open spec fn advanced(
    sources: Seq<PsiCgroupView>,
    readings: Seq<PsiReading>,
    n: nat,
) -> Seq<PsiCgroupView> {
    Seq::new(
        sources.len(),
        |i: int|
            if i < n {
                sources[i].after(reading_total(readings[i]), readings[i].now_us)
            } else {
                sources[i]
            },
    )
}

/// The pressure that each source sees with its reading.
pub open spec fn pressures(sources: Seq<PsiCgroupView>, readings: Seq<PsiReading>) -> Seq<
    Pressure,
> {
    Seq::new(
        readings.len(),
        |i: int|
            pressure_between(sources[i].last, reading_total(readings[i]), readings[i].now_us),
    )
}

/// The largest pressure on a vCPU among the sources for it, if there is any.
pub open spec fn vcpu_pressure(
    id: usize,
    sources: Seq<PsiCgroupView>,
    seen: Seq<Pressure>,
) -> Option<Pressure>
    decreases sources.len(),
{
    if sources.len() == 0 {
        None
    } else {
        let before = vcpu_pressure(id, sources.drop_last(), seen.drop_last());
        if sources.last().targets.contains(id) {
            match before {
                Some(existing) => Some(existing.spec_max(seen.last())),
                None => Some(seen.last()),
            }
        } else {
            before
        }
    }
}

/// The pressure on those of the first `n` vCPUs that there is a source for, in order.
pub open spec fn stats(n: nat, sources: Seq<PsiCgroupView>, seen: Seq<Pressure>) -> Seq<VcpuStat>
    decreases n,
{
    if n == 0 {
        seq![]
    } else {
        let id = (n - 1) as usize;
        let before = stats((n - 1) as nat, sources, seen);
        match vcpu_pressure(id, sources, seen) {
            Some(pressure) => before.push(VcpuStat { vcpu_id: id, pressure }),
            None => before,
        }
    }
}

impl PsiPressureSource {
    /// Builds a PSI source from one or more cgroups. Those that cannot be sources are left out.
    pub fn try_new(cgroups: &Vec<Cgroup>, vcpu_count: usize) -> (r: Result<
        PsiPressureSource,
        QosError,
    >)
        ensures
            match r {
                Ok(source) => {
                    &&& source@.wf()
                    &&& source@.vcpu_count == vcpu_count
                    &&& fresh(source@.sources, usable(cgroups@, vcpu_count))
                },
                Err(e) => {
                    &&& e@ == QosErrorView::NoValidCgroup
                    &&& usable(cgroups@, vcpu_count).len() == 0
                },
            },
    {
        let mut sources: Vec<PsiCgroupSource> = Vec::new();
        let mut i: usize = 0;
        assert(cgroups@.take(0) =~= seq![]);
        while i < cgroups.len()
            invariant
                i <= cgroups.len(),
                fresh(views(sources@), usable(cgroups@.take(i as int), vcpu_count)),
                forall|j: int| 0 <= j < sources@.len() ==> (#[trigger] sources@[j])@.wf(vcpu_count),
            decreases cgroups.len() - i,
        {
            assert(cgroups@.take(i + 1).drop_last() =~= cgroups@.take(i as int));
            let ghost before = sources@;
            if let Ok(source) = PsiCgroupSource::try_new(&cgroups[i], vcpu_count) {
                sources.push(source);
                proof {
                    let list = usable(cgroups@.take(i + 1), vcpu_count);
                    assert forall|j: int| 0 <= j < list.len() implies {
                        &&& (#[trigger] views(sources@)[j]).pressure_path == list[j].0
                        &&& views(sources@)[j].targets.to_set() == list[j].1
                        &&& views(sources@)[j].last is None
                    } by {
                        if j < before.len() {
                            assert(views(sources@)[j] == views(before)[j]);
                        }
                    }
                }
            }
            i += 1;
        }
        assert(cgroups@.take(i as int) =~= cgroups@);
        if sources.is_empty() {
            return Err(QosError::NoValidCgroup);
        }
        Ok(PsiPressureSource { vcpu_count, sources })
    }

    /// How many cgroups this source draws on.
    pub fn source_count(&self) -> (r: usize)
        ensures
            r == self@.sources.len(),
    {
        self.sources.len()
    }

    /// The file that source `i` is read from.
    pub fn pressure_path(&self, i: usize) -> (r: &str)
        requires
            i < self@.sources.len(),
        ensures
            r@ == self@.sources[i as int].pressure_path,
    {
        self.sources[i].pressure_path()
    }

    /// Takes in one reading for each source, up to the first that makes no sense, and returns
    /// the pressure each source sees.
    fn sample(&mut self, readings: &Vec<PsiReading>) -> (r: Result<Vec<Pressure>, QosError>)
        requires
            readings@.len() == old(self)@.sources.len(),
        ensures
            final(self)@.vcpu_count == old(self)@.vcpu_count,
            final(self)@.sources == advanced(old(self)@.sources, readings@, sound(readings@)),
            match r {
                Ok(seen) => {
                    &&& sound(readings@) == readings@.len()
                    &&& seen@ == pressures(old(self)@.sources, readings@)
                },
                Err(e) => {
                    &&& sound(readings@) < readings@.len()
                    &&& file_total(readings@[sound(readings@) as int].pressure@) == Err::<
                        int,
                        QosErrorView,
                    >(e@)
                },
            },
    {
        let mut seen: Vec<Pressure> = Vec::new();
        let mut i: usize = 0;
        let ghost start = self@.sources;
        proof {
            assert(readings@.skip(0) =~= readings@);
            assert(start =~= advanced(start, readings@, 0));
        }
        while i < readings.len()
            invariant
                i <= readings.len(),
                readings@.len() == start.len(),
                start == old(self)@.sources,
                self.vcpu_count == old(self).vcpu_count,
                self.sources@.len() == start.len(),
                views(self.sources@) == advanced(start, readings@, i as nat),
                sound(readings@) == i + sound(readings@.skip(i as int)),
                seen@ == pressures(start, readings@).take(i as int),
            decreases readings.len() - i,
        {
            let ghost before = self.sources@;
            assert(readings@.skip(i as int)[0] == readings@[i as int]);
            assert(readings@.skip(i as int).skip(1) =~= readings@.skip(i + 1));
            assert(before[i as int]@ == start[i as int]) by {
                assert(views(before)[i as int] == before[i as int]@);
            }
            match self.sources[i].sample_pressure(readings[i].now_us, &readings[i].pressure) {
                Ok(pressure) => {
                    seen.push(pressure);
                    proof {
                        assert(views(self.sources@) =~= advanced(start, readings@, (i + 1) as nat))
                            by {
                            assert forall|j: int| 0 <= j < start.len() implies views(
                                self.sources@,
                            )[j] == advanced(start, readings@, (i + 1) as nat)[j] by {
                                if j != i {
                                    assert(self.sources@[j] == before[j]);
                                    assert(views(before)[j] == advanced(
                                        start,
                                        readings@,
                                        i as nat,
                                    )[j]);
                                }
                            }
                        }
                        assert(seen@ =~= pressures(start, readings@).take(i + 1));
                    }
                },
                Err(e) => {
                    assert(views(self.sources@) =~= views(before));
                    return Err(e);
                },
            }
            i += 1;
        }
        assert(pressures(start, readings@).take(i as int) =~= pressures(start, readings@));
        Ok(seen)
    }

    /// The largest of the pressures seen on each vCPU that there is a source for.
    fn merge(&self, seen: &Vec<Pressure>) -> (r: Vec<VcpuStat>)
        requires
            self@.wf(),
            seen@.len() == self@.sources.len(),
        ensures
            r@ == stats(self@.vcpu_count as nat, self@.sources, seen@),
    {
        let ghost sources = self@.sources;
        let n: usize = self.vcpu_count;
        let mut per_vcpu: Vec<Option<Pressure>> = Vec::new();
        while per_vcpu.len() < n
            invariant
                per_vcpu@.len() <= n,
                forall|id: int| 0 <= id < per_vcpu@.len() ==> #[trigger] per_vcpu@[id] is None,
            decreases n - per_vcpu.len(),
        {
            per_vcpu.push(None);
        }
        let mut i: usize = 0;
        while i < self.sources.len()
            invariant
                i <= self.sources@.len(),
                sources == views(self.sources@),
                seen@.len() == sources.len(),
                self@.wf(),
                self@.sources == sources,
                n == self.vcpu_count,
                per_vcpu@.len() == n,
                forall|id: int|
                    0 <= id < n ==> #[trigger] per_vcpu@[id] == vcpu_pressure(
                        id as usize,
                        sources.take(i as int),
                        seen@.take(i as int),
                    ),
            decreases self.sources.len() - i,
        {
            let targets: &Vec<usize> = self.sources[i].target_vcpus();
            let pressure: Pressure = seen[i];
            let ghost before = per_vcpu@;
            let mut j: usize = 0;
            assert(sources[i as int].wf(n));
            while j < targets.len()
                invariant
                    j <= targets@.len(),
                    cpuset::increasing(targets@),
                    forall|k: int| 0 <= k < targets@.len() ==> #[trigger] targets@[k] < n,
                    per_vcpu@.len() == n,
                    before.len() == n,
                    forall|id: int|
                        0 <= id < n ==> #[trigger] per_vcpu@[id] == (if targets@.take(
                            j as int,
                        ).contains(id as usize) {
                            larger(before[id], pressure)
                        } else {
                            before[id]
                        }),
                decreases targets.len() - j,
            {
                let id: usize = targets[j];
                let ghost now = per_vcpu@;
                let merged = match per_vcpu[id] {
                    Some(existing) => Some(existing.max(pressure)),
                    None => Some(pressure),
                };
                proof {
                    let done = targets@.take(j as int);
                    if done.contains(id) {
                        let k = choose|k: int| 0 <= k < done.len() && done[k] == id;
                        assert(targets@[k] == id);
                    }
                    assert(targets@.take(j + 1) =~= done.push(id));
                    assert forall|x: usize| targets@.take(j + 1).contains(x) <==> (done.contains(x)
                        || x == id) by {
                        if done.contains(x) {
                            let k = choose|k: int| 0 <= k < done.len() && done[k] == x;
                            assert(targets@.take(j + 1)[k] == x);
                        }
                        if x == id {
                            assert(targets@.take(j + 1)[j as int] == x);
                        }
                    }
                }
                per_vcpu.set(id, merged);
                j += 1;
            }
            proof {
                assert(targets@.take(j as int) =~= targets@);
                assert(sources.take(i + 1).drop_last() =~= sources.take(i as int));
                assert(seen@.take(i + 1).drop_last() =~= seen@.take(i as int));
                assert(sources.take(i + 1).last().targets == targets@);
            }
            i += 1;
        }
        assert(sources.take(i as int) =~= sources);
        assert(seen@.take(i as int) =~= seen@);
        let mut r: Vec<VcpuStat> = Vec::new();
        let mut id: usize = 0;
        while id < n
            invariant
                id <= n,
                per_vcpu@.len() == n,
                forall|k: int|
                    0 <= k < n ==> #[trigger] per_vcpu@[k] == vcpu_pressure(
                        k as usize,
                        sources,
                        seen@,
                    ),
                r@ == stats(id as nat, sources, seen@),
            decreases n - id,
        {
            if let Some(pressure) = per_vcpu[id] {
                r.push(VcpuStat { vcpu_id: id, pressure });
            }
            id += 1;
        }
        r
    }

    /// Takes in one reading for each source and reports the largest pressure on each vCPU that
    /// there is a source for. The first reading that makes no sense is an error, and the sources
    /// from there on are left as they were.
    pub fn collect(&mut self, readings: &Vec<PsiReading>) -> (r: Result<Vec<VcpuStat>, QosError>)
        requires
            old(self)@.wf(),
            readings@.len() == old(self)@.sources.len(),
        ensures
            final(self)@.wf(),
            final(self)@.vcpu_count == old(self)@.vcpu_count,
            final(self)@.sources == advanced(old(self)@.sources, readings@, sound(readings@)),
            match r {
                Ok(report) => {
                    &&& sound(readings@) == readings@.len()
                    &&& report@ == stats(
                        old(self)@.vcpu_count as nat,
                        old(self)@.sources,
                        pressures(old(self)@.sources, readings@),
                    )
                },
                Err(e) => {
                    &&& sound(readings@) < readings@.len()
                    &&& file_total(readings@[sound(readings@) as int].pressure@) == Err::<
                        int,
                        QosErrorView,
                    >(e@)
                },
            },
    {
        let sampled = self.sample(readings);
        proof {
            let (before, after) = (old(self)@.sources, self@.sources);
            assert forall|i: int| 0 <= i < after.len() implies (#[trigger] after[i]).wf(
                self@.vcpu_count,
            ) by {
                assert(before[i].wf(self@.vcpu_count));
            }
        }
        match sampled {
            Ok(seen) => {
                proof {
                    lemma_stats_by_targets(
                        self@.vcpu_count as nat,
                        old(self)@.sources,
                        self@.sources,
                        seen@,
                    );
                }
                Ok(self.merge(&seen))
            },
            Err(e) => Err(e),
        }
    }
}

/// The larger of the pressure known so far, if any, and another.
spec fn larger(known: Option<Pressure>, pressure: Pressure) -> Option<Pressure> {
    match known {
        Some(existing) => Some(existing.spec_max(pressure)),
        None => Some(pressure),
    }
}

/// Only the vCPUs of the sources matter to what is reported.
proof fn lemma_stats_by_targets(
    n: nat,
    a: Seq<PsiCgroupView>,
    b: Seq<PsiCgroupView>,
    seen: Seq<Pressure>,
)
    requires
        a.len() == b.len(),
        forall|i: int| 0 <= i < a.len() ==> #[trigger] a[i].targets == b[i].targets,
    ensures
        stats(n, a, seen) == stats(n, b, seen),
    decreases n,
{
    if n > 0 {
        lemma_stats_by_targets((n - 1) as nat, a, b, seen);
        lemma_pressure_by_targets((n - 1) as usize, a, b, seen);
    }
}

proof fn lemma_pressure_by_targets(
    id: usize,
    a: Seq<PsiCgroupView>,
    b: Seq<PsiCgroupView>,
    seen: Seq<Pressure>,
)
    requires
        a.len() == b.len(),
        forall|i: int| 0 <= i < a.len() ==> #[trigger] a[i].targets == b[i].targets,
    ensures
        vcpu_pressure(id, a, seen) == vcpu_pressure(id, b, seen),
    decreases a.len(),
{
    if a.len() > 0 {
        assert(a.last().targets == b.last().targets);
        assert forall|i: int| 0 <= i < a.drop_last().len() implies #[trigger] a.drop_last()[i].targets
            == b.drop_last()[i].targets by {
            assert(a[i].targets == b[i].targets);
        }
        lemma_pressure_by_targets(id, a.drop_last(), b.drop_last(), seen.drop_last());
    }
}

/// A vCPU has a pressure exactly where a source is one for it. That pressure is one that such a
/// source sees, and none of them sees more.
pub proof fn law_largest_pressure_counts(
    id: usize,
    sources: Seq<PsiCgroupView>,
    seen: Seq<Pressure>,
)
    requires
        sources.len() == seen.len(),
        forall|i: int| 0 <= i < seen.len() ==> !(#[trigger] seen[i]).is_nan(),
    ensures
        match vcpu_pressure(id, sources, seen) {
            Some(p) => {
                &&& exists|i: int|
                    0 <= i < sources.len() && #[trigger] sources[i].targets.contains(id) && p
                        == seen[i]
                &&& forall|i: int|
                    0 <= i < sources.len() && #[trigger] sources[i].targets.contains(id)
                        ==> seen[i].units() <= p.units()
            },
            None => forall|i: int|
                0 <= i < sources.len() ==> !#[trigger] sources[i].targets.contains(id),
        },
    decreases sources.len(),
{
    if sources.len() > 0 {
        let (front, seen_front) = (sources.drop_last(), seen.drop_last());
        let last = sources.len() - 1;
        assert forall|i: int| 0 <= i < seen_front.len() implies !(
        #[trigger] seen_front[i]).is_nan() by {
            assert(!seen[i].is_nan());
        }
        law_largest_pressure_counts(id, front, seen_front);
        assert(sources.last() == sources[last]);
        assert(seen.last() == seen[last]);
        assert forall|i: int| 0 <= i < last implies sources[i] == front[i] && seen[i]
            == seen_front[i] by {}
        if let Some(p) = vcpu_pressure(id, front, seen_front) {
            let i = choose|i: int|
                0 <= i < front.len() && #[trigger] front[i].targets.contains(id) && p
                    == seen_front[i];
            assert(sources[i].targets.contains(id) && p == seen[i]);
            assert(!seen[i].is_nan());
        }
        assert forall|i: int|
            0 <= i < last && #[trigger] sources[i].targets.contains(
                id,
            ) implies front[i].targets.contains(id) by {}
    }
}

/// What is reported is in the order of the vCPUs, each at most once, and gives every vCPU that
/// there is a source for its pressure.
pub proof fn law_report_is_complete(n: nat, sources: Seq<PsiCgroupView>, seen: Seq<Pressure>)
    requires
        n <= usize::MAX,
    ensures
        forall|j: int, k: int|
            0 <= j < k < stats(n, sources, seen).len() ==> (#[trigger] stats(
                n,
                sources,
                seen,
            )[j]).vcpu_id < (#[trigger] stats(n, sources, seen)[k]).vcpu_id,
        forall|stat: VcpuStat|
            #[trigger] stats(n, sources, seen).contains(stat) <==> (stat.vcpu_id < n
                && vcpu_pressure(stat.vcpu_id, sources, seen) == Some(stat.pressure)),
    decreases n,
{
    let all = stats(n, sources, seen);
    if n > 0 {
        let id = (n - 1) as usize;
        let before = stats((n - 1) as nat, sources, seen);
        law_report_is_complete((n - 1) as nat, sources, seen);
        assert forall|k: int| 0 <= k < before.len() implies (#[trigger] before[k]).vcpu_id < id by {
            assert(before.contains(before[k]));
        }
        assert forall|stat: VcpuStat|
            #[trigger] all.contains(stat) <==> (stat.vcpu_id < n && vcpu_pressure(
                stat.vcpu_id,
                sources,
                seen,
            ) == Some(stat.pressure)) by {
            if all.contains(stat) {
                let k = choose|k: int| 0 <= k < all.len() && all[k] == stat;
                if k < before.len() {
                    assert(before[k] == stat);
                    assert(before.contains(stat));
                }
            }
            if stat.vcpu_id < n && vcpu_pressure(stat.vcpu_id, sources, seen) == Some(
                stat.pressure,
            ) {
                if stat.vcpu_id < id {
                    assert(before.contains(stat));
                    let k = choose|k: int| 0 <= k < before.len() && before[k] == stat;
                    assert(all[k] == stat);
                } else {
                    assert(all[all.len() - 1] == stat);
                }
            }
        }
    }
}

/// The first reading of a source counts as no pressure, and so does a reading for which no time
/// has passed. A stall time that has not grown counts as none.
pub proof fn law_no_gain_no_pressure(total_us: u64, now_us: u64, prev_total: u64, prev_ts: u64)
    ensures
        pressure_between(None, total_us, now_us).units() == 0,
        now_us <= prev_ts ==> pressure_between(
            Some((prev_total, prev_ts)),
            total_us,
            now_us,
        ).units() == 0,
        total_us <= prev_total ==> pressure_between(
            Some((prev_total, prev_ts)),
            total_us,
            now_us,
        ).units() == 0,
{
    if now_us > prev_ts {
        ratio::law_ratio_of_zero((now_us - prev_ts) as nat);
    }
}

/// The pressure a source sees lies between 0.0 and 1.0.
pub proof fn law_pressure_in_unit_interval(last: Option<(u64, u64)>, total_us: u64, now_us: u64)
    ensures
        pressure_between(last, total_us, now_us).in_unit_interval(),
{
    ratio::law_ratio_in_unit_interval(0, 1);
    ratio::law_ratio_of_zero(1);
    if let Some((prev_total, prev_ts)) = last {
        if now_us > prev_ts {
            ratio::law_ratio_in_unit_interval(
                excess(total_us, prev_total) as nat,
                excess(now_us, prev_ts) as nat,
            );
        }
    }
}

/// Every pressure that is reported lies between 0.0 and 1.0.
pub proof fn law_report_in_unit_interval(
    n: nat,
    sources: Seq<PsiCgroupView>,
    readings: Seq<PsiReading>,
    stat: VcpuStat,
)
    requires
        n <= usize::MAX,
        sources.len() == readings.len(),
        stats(n, sources, pressures(sources, readings)).contains(stat),
    ensures
        stat.pressure.in_unit_interval(),
{
    let seen = pressures(sources, readings);
    assert forall|i: int| 0 <= i < seen.len() implies (#[trigger] seen[i]).in_unit_interval() by {
        law_pressure_in_unit_interval(
            sources[i].last,
            reading_total(readings[i]),
            readings[i].now_us,
        );
    }
    law_report_is_complete(n, sources, seen);
    law_largest_pressure_counts(stat.vcpu_id, sources, seen);
}

/// Between two readings with time passed, the pressure is the stall time gained over the time
/// passed: both as doubles, their quotient rounded to the nearest, but at most 1.0. It is above
/// 0.0 wherever any stall time was gained, and it is 1.0 wherever as much was gained as time has
/// passed. How far the readings lie apart does not matter.
pub proof fn law_pressure_is_the_quotient(
    prev_total: u64,
    prev_ts: u64,
    total_us: u64,
    now_us: u64,
)
    requires
        prev_total <= total_us,
        prev_ts < now_us,
    ensures
        ({
            let p = pressure_between(Some((prev_total, prev_ts)), total_us, now_us);
            &&& exists|x: int, y: int, q: int|
                {
                    &&& #[trigger] ratio::nearest(x, total_us - prev_total, 1)
                    &&& #[trigger] ratio::nearest(y, now_us - prev_ts, 1)
                    &&& #[trigger] ratio::nearest(q, pressure::magnitude(x), pressure::magnitude(y))
                    &&& p.bits == if q > 0x3ff0_0000_0000_0000 {
                        0x3ff0_0000_0000_0000
                    } else {
                        q
                    }
                }
            &&& total_us > prev_total <==> p.units() > 0
            &&& total_us - prev_total >= now_us - prev_ts ==> p.bits == 0x3ff0_0000_0000_0000
        }),
{
    let stall = (total_us - prev_total) as nat;
    let passed = (now_us - prev_ts) as nat;
    ratio::law_ratio_is_nearest(stall, passed);
    ratio::law_ratio_ends(stall, passed);
}

/// Over less than 2^44 microseconds, the pressure in steps of 1/1024 is the share of the time
/// that was stall time, in those steps and rounded down.
pub proof fn law_pressure_in_steps(prev_total: u64, prev_ts: u64, total_us: u64, now_us: u64)
    requires
        prev_total <= total_us,
        prev_ts < now_us,
        now_us - prev_ts < 0x1000_0000_0000,
    ensures
        pressure_between(Some((prev_total, prev_ts)), total_us, now_us).spec_scaled() == if total_us
            - prev_total >= now_us - prev_ts {
            1024
        } else {
            (total_us - prev_total) * 1024 / (now_us - prev_ts)
        },
{
    ratio::law_ratio_in_steps((total_us - prev_total) as nat, (now_us - prev_ts) as nat);
}

/// More stall time in the same time is never less pressure.
pub proof fn law_pressure_grows_with_stall(
    last: Option<(u64, u64)>,
    less: u64,
    more: u64,
    now_us: u64,
)
    requires
        less <= more,
    ensures
        pressure_between(last, less, now_us).units() <= pressure_between(
            last,
            more,
            now_us,
        ).units(),
{
    if let Some((prev_total, prev_ts)) = last {
        if now_us > prev_ts {
            ratio::law_ratio_monotonic(
                excess(less, prev_total) as nat,
                excess(more, prev_total) as nat,
                excess(now_us, prev_ts) as nat,
            );
        }
    }
}

/// Where there is no pressure it is 0.0, without a sign.
pub proof fn law_no_pressure_is_zero(total_us: u64, now_us: u64, prev_total: u64, prev_ts: u64)
    ensures
        pressure_between(None, total_us, now_us).bits == 0,
        now_us <= prev_ts || total_us <= prev_total ==> pressure_between(
            Some((prev_total, prev_ts)),
            total_us,
            now_us,
        ).bits == 0,
{
    if now_us > prev_ts {
        ratio::law_ratio_of_zero((now_us - prev_ts) as nat);
    }
}

/// The first `total=` field decides, at the start of the line as after other words: it gives the
/// number it holds, and a field that holds none is an error that says why. What comes after the
/// field does not matter. A line without such a field is an error.
pub proof fn law_first_total_field_decides(
    head: Seq<char>,
    gap: char,
    value: Seq<char>,
    tail: Seq<char>,
)
    requires
        text::is_space(gap),
        tail.len() == 0 || text::is_space(tail[0]),
        forall|i: int| 0 <= i < value.len() ==> !text::is_space(#[trigger] value[i]),
        forall|i: int|
            0 <= i < text::words(head).len() ==> !text::starts_with(
                #[trigger] text::words(head)[i],
                "total="@,
            ),
    ensures
        ({
            let field = "total="@ + value + tail;
            let expected = match decimal::parsed(value, u64::MAX as int) {
                Ok(total) => Ok::<int, QosErrorView>(total),
                Err(cause) => Err::<int, QosErrorView>(QosErrorView::InvalidTotal { cause }),
            };
            &&& psi_total(field) == expected
            &&& psi_total(head + seq![gap] + field) == expected
        }),
        psi_total(head) == Err::<int, QosErrorView>(QosErrorView::TotalMissing),
{
    let field = "total="@ + value;
    let rest = field + tail;
    reveal_strlit("total=");
    assert forall|i: int| 0 <= i < field.len() implies !text::is_space(#[trigger] field[i]) by {
        if i >= 6 {
            assert(field[i] == value[i - 6]);
        }
    }
    assert("total="@ + value + tail =~= rest);
    text::lemma_words_join(head, gap, rest);
    lemma_total_after(text::words(head), text::words(rest));
    text::lemma_first_word(field, tail);
    assert(field.take(6) =~= "total="@);
    assert(field.skip(6) =~= value);
    assert(text::words(rest)[0] == field);
    lemma_total_after(text::words(head), seq![]);
    assert(text::words(head) + seq![] =~= text::words(head));
}

/// A file that cannot be read is an error that gives the reason; one that can counts by its text.
pub proof fn law_file_counts_by_its_text(text: Seq<char>)
    ensures
        file_total(FileTextView::Text(text)) == psi_total(text),
        file_cpus(FileTextView::Text(text)) == cpuset::cpuset(text),
        file_total(FileTextView::Unreadable(text)) == Err::<int, QosErrorView>(
            QosErrorView::SourceFailed { reason: text },
        ),
        file_cpus(FileTextView::Unreadable(text)) == Err::<Set<usize>, QosErrorView>(
            QosErrorView::SourceFailed { reason: text },
        ),
{
}

/// A cgroup whose two files can be read and make sense is a source for exactly those CPUs that
/// its list names and that are below the number of vCPUs, whatever that number is. It is refused
/// as out of range only where no listed CPU is below that number, and as empty only where none is
/// listed.
pub proof fn law_admission(
    path: Seq<char>,
    line: Seq<char>,
    content: Seq<char>,
    cpus: Set<usize>,
    vcpu_count: usize,
)
    requires
        psi_total(line) is Ok,
        cpuset::cpuset(content) == Ok::<Set<usize>, QosErrorView>(cpus),
    ensures
        match admitted(
            (CgroupView {
                path,
                pressure: Some(FileTextView::Text(line)),
                cpuset: Some(FileTextView::Text(content)),
            }),
            vcpu_count,
        ) {
            Ok(targets) => {
                &&& exists|cpu: usize| #[trigger] cpus.contains(cpu) && cpu < vcpu_count
                &&& forall|cpu: usize| #[trigger]
                    targets.contains(cpu) <==> cpus.contains(cpu) && cpu < vcpu_count
            },
            Err(QosErrorView::CpusOutOfRange { vcpu_count: count }) => {
                &&& count == vcpu_count
                &&& exists|cpu: usize| #[trigger] cpus.contains(cpu)
                &&& forall|cpu: usize| #[trigger] cpus.contains(cpu) ==> cpu >= vcpu_count
            },
            Err(QosErrorView::EmptyCpuset) => forall|cpu: usize| !#[trigger] cpus.contains(cpu),
            Err(_) => false,
        },
{
    let kept = in_range(cpus, vcpu_count);
    let none = Set::<usize>::empty();
    if cpus != none {
        if forall|cpu: usize| !#[trigger] cpus.contains(cpu) {
            assert(cpus =~= none);
        }
        if kept == none {
            assert forall|cpu: usize| #[trigger] cpus.contains(cpu) implies cpu >= vcpu_count by {
                assert(!kept.contains(cpu));
            }
        } else if forall|cpu: usize| #[trigger] cpus.contains(cpu) ==> cpu >= vcpu_count {
            assert(kept =~= none);
        }
    }
}

/// A cgroup whose list is made of ranges is a source for the vCPUs in any of them, however many
/// ranges there are.
pub proof fn law_listed_ranges_are_admitted(
    path: Seq<char>,
    line: Seq<char>,
    ranges: Seq<(nat, nat)>,
    vcpu_count: usize,
)
    requires
        psi_total(line) is Ok,
        ranges.len() > 0,
        forall|i: int|
            0 <= i < ranges.len() ==> (#[trigger] ranges[i]).0 <= ranges[i].1 <= usize::MAX,
    ensures
        match admitted(
            (CgroupView {
                path,
                pressure: Some(FileTextView::Text(line)),
                cpuset: Some(FileTextView::Text(cpuset::listing(ranges))),
            }),
            vcpu_count,
        ) {
            Ok(targets) => forall|cpu: usize| #[trigger]
                targets.contains(cpu) <==> cpu < vcpu_count && cpuset::in_some_range(ranges, cpu),
            Err(e) => {
                &&& e == (QosErrorView::CpusOutOfRange { vcpu_count: vcpu_count as int })
                &&& forall|cpu: usize| #[trigger] cpuset::in_some_range(ranges, cpu) ==> cpu
                    >= vcpu_count
            },
        },
{
    let content = cpuset::listing(ranges);
    cpuset::law_listing_reads_back(ranges);
    let cpus = cpuset::cpuset(content)->Ok_0;
    let verdict = admitted(
        CgroupView {
            path,
            pressure: Some(FileTextView::Text(line)),
            cpuset: Some(FileTextView::Text(content)),
        },
        vcpu_count,
    );
    law_admission(path, line, content, cpus, vcpu_count);
    let first = ranges[0].0 as usize;
    assert(ranges[0].0 <= first <= ranges[0].1);
    assert(cpuset::in_some_range(ranges, first));
    assert(cpus.contains(first));
    if let Err(e) = verdict {
        assert(e is CpusOutOfRange);
        assert forall|cpu: usize| #[trigger] cpuset::in_some_range(ranges, cpu) implies cpu
            >= vcpu_count by {
            assert(cpus.contains(cpu));
        }
    }
}

/// What a cgroup is refused for is the first of these: a file that does not exist, `cpu.pressure`
/// before `cpuset.cpus`; and then a file that cannot be read or makes no sense, in the same order.
pub proof fn law_refusal(
    path: Seq<char>,
    pressure: FileTextView,
    cpuset: Option<FileTextView>,
    vcpu_count: usize,
)
    ensures
        admitted((CgroupView { path, pressure: None, cpuset }), vcpu_count) == Err::<
            Set<usize>,
            QosErrorView,
        >(QosErrorView::PressureFileMissing { path: path::resolved(path).1 }),
        admitted((CgroupView { path, pressure: Some(pressure), cpuset: None }), vcpu_count) == Err::<
            Set<usize>,
            QosErrorView,
        >(
            QosErrorView::CpusetFileMissing {
                path: path::joined(path::resolved(path).0, "cpuset.cpus"@),
            },
        ),
        cpuset matches Some(list) ==> {
            let verdict = admitted(
                (CgroupView { path, pressure: Some(pressure), cpuset }),
                vcpu_count,
            );
            match (file_total(pressure), file_cpus(list)) {
                (Err(e), _) => verdict == Err::<Set<usize>, QosErrorView>(e),
                (_, Err(e)) => verdict == Err::<Set<usize>, QosErrorView>(e),
                _ => true,
            }
        },
{
}

/// The usable cgroups of a list are those of its parts, in order, and a cgroup is usable exactly
/// where it is admitted.
pub proof fn law_usable(a: Seq<Cgroup>, b: Seq<Cgroup>, cgroup: Cgroup, vcpu_count: usize)
    ensures
        usable(a + b, vcpu_count) == usable(a, vcpu_count) + usable(b, vcpu_count),
        usable(seq![], vcpu_count).len() == 0,
        usable(seq![cgroup], vcpu_count) == match admitted(cgroup@, vcpu_count) {
            Ok(targets) => seq![(path::resolved(cgroup@.path).1, targets)],
            Err(_) => seq![],
        },
    decreases b.len(),
{
    assert(seq![cgroup].drop_last() =~= seq![]);
    reveal_with_fuel(usable, 2);
    if b.len() == 0 {
        assert(a + b =~= a);
    } else {
        law_usable(a, b.drop_last(), cgroup, vcpu_count);
        assert((a + b).drop_last() =~= a + b.drop_last());
        assert((a + b).last() == b.last());
    }
    assert(usable(a + b, vcpu_count) =~= usable(a, vcpu_count) + usable(b, vcpu_count));
}

/// There is one fresh source for each usable cgroup, in order, which watches the file and the
/// vCPUs of that cgroup and has taken in no reading.
pub proof fn law_fresh_sources(
    sources: Seq<PsiCgroupView>,
    list: Seq<(Seq<char>, Set<usize>)>,
    i: int,
)
    requires
        fresh(sources, list),
        0 <= i < list.len(),
    ensures
        sources.len() == list.len(),
        sources[i].pressure_path == list[i].0,
        forall|id: usize| #[trigger] sources[i].targets.contains(id) <==> list[i].1.contains(id),
        sources[i].last == None::<(u64, u64)>,
{
    assert forall|id: usize| #[trigger] sources[i].targets.contains(id) <==> list[i].1.contains(
        id,
    ) by {
        assert(sources[i].targets.to_set().contains(id) <==> sources[i].targets.contains(id));
    }
}

/// Readings are sound up to the first that makes no sense, and no further.
pub proof fn law_sound_readings(readings: Seq<PsiReading>)
    ensures
        sound(readings) <= readings.len(),
        forall|i: int|
            0 <= i < sound(readings) ==> file_total((#[trigger] readings[i]).pressure@) is Ok,
        sound(readings) < readings.len() ==> file_total(
            readings[sound(readings) as int].pressure@,
        ) is Err,
    decreases readings.len(),
{
    if readings.len() > 0 && file_total(readings[0].pressure@) is Ok {
        let rest = readings.skip(1);
        law_sound_readings(rest);
        assert forall|i: int| 0 <= i < sound(readings) implies file_total(
            (#[trigger] readings[i]).pressure@,
        ) is Ok by {
            if i > 0 {
                assert(rest[i - 1] == readings[i]);
            }
        }
        if sound(rest) < rest.len() {
            assert(rest[sound(rest) as int] == readings[sound(rest) as int + 1]);
        }
    }
}

/// A source that takes in a reading remembers its stall time and its time and changes in nothing
/// else; the sources from the first reading that makes no sense on do not change at all.
pub proof fn law_sources_remember_their_readings(
    sources: Seq<PsiCgroupView>,
    readings: Seq<PsiReading>,
    i: int,
)
    requires
        sources.len() == readings.len(),
        0 <= i < sources.len(),
    ensures
        ({
            let after = advanced(sources, readings, sound(readings));
            &&& after.len() == sources.len()
            &&& after[i].targets == sources[i].targets
            &&& after[i].pressure_path == sources[i].pressure_path
            &&& (forall|j: int|
                0 <= j <= i ==> file_total((#[trigger] readings[j]).pressure@) is Ok) ==> {
                &&& after[i].last matches Some((total_us, now_us))
                &&& file_total(readings[i].pressure@) == Ok::<int, QosErrorView>(total_us as int)
                &&& now_us == readings[i].now_us
            }
            &&& (exists|j: int|
                0 <= j <= i && file_total((#[trigger] readings[j]).pressure@) is Err) ==> after[i]
                == sources[i]
        }),
{
    law_sound_readings(readings);
    if forall|j: int| 0 <= j <= i ==> file_total((#[trigger] readings[j]).pressure@) is Ok {
        if sound(readings) <= i {
            assert(file_total(readings[sound(readings) as int].pressure@) is Ok);
        }
        assert(file_total(readings[i].pressure@) is Ok);
        lemma_total_bound(readings[i].pressure@);
    }
    if exists|j: int| 0 <= j <= i && file_total((#[trigger] readings[j]).pressure@) is Err {
        let j = choose|j: int| 0 <= j <= i && file_total((#[trigger] readings[j]).pressure@) is Err;
        if j < sound(readings) {
            assert(file_total(readings[j].pressure@) is Ok);
        }
    }
}

/// A total fits its type.
proof fn lemma_total_bound(file: FileTextView)
    ensures
        file_total(file) matches Ok(total) ==> 0 <= total <= u64::MAX,
{
    if let FileTextView::Text(line) = file {
        lemma_total_of_bound(text::words(line));
    }
}

proof fn lemma_total_of_bound(words: Seq<Seq<char>>)
    ensures
        total_of(words) matches Ok(total) ==> 0 <= total <= u64::MAX,
    decreases words.len(),
{
    if words.len() > 0 {
        decimal::lemma_parsed_bound(words[0].skip("total="@.len() as int), u64::MAX as int);
        lemma_total_of_bound(words.skip(1));
    }
}

/// Each source sees the pressure between its last reading and the one it takes in.
pub proof fn law_each_source_sees_its_own(
    sources: Seq<PsiCgroupView>,
    readings: Seq<PsiReading>,
    i: int,
    total_us: u64,
)
    requires
        0 <= i < readings.len(),
        file_total(readings[i].pressure@) == Ok::<int, QosErrorView>(total_us as int),
    ensures
        pressures(sources, readings).len() == readings.len(),
        pressures(sources, readings)[i] == pressure_between(
            sources[i].last,
            total_us,
            readings[i].now_us,
        ),
{
}

/// A report names exactly the vCPUs that some source is one for. Each gets the pressure that one
/// of its sources sees between its last reading and this one, and none of its sources sees more.
pub proof fn law_report(n: usize, sources: Seq<PsiCgroupView>, readings: Seq<PsiReading>, id: usize)
    requires
        sources.len() == readings.len(),
        forall|i: int|
            0 <= i < readings.len() ==> file_total((#[trigger] readings[i]).pressure@) is Ok,
        id < n,
    ensures
        ({
            let report = stats(n as nat, sources, pressures(sources, readings));
            let seen = |i: int|
                pressure_between(
                    sources[i].last,
                    file_total(readings[i].pressure@)->Ok_0 as u64,
                    readings[i].now_us,
                );
            &&& (exists|i: int| 0 <= i < sources.len() && #[trigger] sources[i].targets.contains(id))
                <==> (exists|k: int| 0 <= k < report.len() && (#[trigger] report[k]).vcpu_id == id)
            &&& forall|k: int|
                0 <= k < report.len() && (#[trigger] report[k]).vcpu_id == id ==> {
                    &&& exists|i: int|
                        0 <= i < sources.len() && #[trigger] sources[i].targets.contains(id)
                            && report[k].pressure == seen(i)
                    &&& forall|i: int|
                        0 <= i < sources.len() && #[trigger] sources[i].targets.contains(id)
                            ==> seen(i).units() <= report[k].pressure.units()
                }
        }),
{
    let all = pressures(sources, readings);
    let report = stats(n as nat, sources, all);
    assert forall|i: int| 0 <= i < all.len() implies !(#[trigger] all[i]).is_nan() by {
        law_pressure_in_unit_interval(
            sources[i].last,
            reading_total(readings[i]),
            readings[i].now_us,
        );
    }
    let seen = |i: int|
        pressure_between(
            sources[i].last,
            file_total(readings[i].pressure@)->Ok_0 as u64,
            readings[i].now_us,
        );
    assert forall|i: int| 0 <= i < readings.len() implies #[trigger] all[i] == seen(i) by {
        assert(file_total(readings[i].pressure@) is Ok);
    }
    law_report_is_complete(n as nat, sources, all);
    law_largest_pressure_counts(id, sources, all);
    assert forall|k: int| 0 <= k < report.len() && (#[trigger] report[k]).vcpu_id == id implies {
        &&& exists|i: int|
            0 <= i < sources.len() && #[trigger] sources[i].targets.contains(id)
                && report[k].pressure == seen(i)
        &&& forall|i: int|
            0 <= i < sources.len() && #[trigger] sources[i].targets.contains(id)
                ==> seen(i).units() <= report[k].pressure.units()
    } by {
        assert(report.contains(report[k]));
        let i = choose|i: int|
            0 <= i < sources.len() && #[trigger] sources[i].targets.contains(id)
                && report[k].pressure == all[i];
        assert(all[i] == seen(i));
        assert forall|j: int|
            0 <= j < sources.len() && #[trigger] sources[j].targets.contains(
                id,
            ) implies seen(j).units() <= report[k].pressure.units() by {
            assert(all[j] == seen(j));
        }
    }
    if let Some(pressure) = vcpu_pressure(id, sources, all) {
        let stat = VcpuStat { vcpu_id: id, pressure };
        assert(report.contains(stat));
        let k = choose|k: int| 0 <= k < report.len() && report[k] == stat;
        assert(report[k].vcpu_id == id);
    } else {
        assert forall|k: int| 0 <= k < report.len() implies (#[trigger] report[k]).vcpu_id != id by {
            assert(report.contains(report[k]));
        }
    }
}

/// What was found of a cgroup is what its view shows.
pub proof fn law_cgroup_view(cgroup: Cgroup, reason: String)
    ensures
        cgroup@.path == cgroup.path@,
        cgroup.pressure is None <==> cgroup@.pressure is None,
        cgroup.cpuset is None <==> cgroup@.cpuset is None,
        cgroup.pressure matches Some(file) ==> cgroup@.pressure == Some(file@),
        cgroup.cpuset matches Some(file) ==> cgroup@.cpuset == Some(file@),
        (FileText::Text(reason))@ == FileTextView::Text(reason@),
        (FileText::Unreadable(reason))@ == FileTextView::Unreadable(reason@),
{
}

/// A source is one for some of the vCPUs there are, listed in order, each once.
pub proof fn law_source_targets(source: PsiCgroupView, vcpu_count: usize, i: int)
    requires
        source.wf(vcpu_count),
        0 <= i < source.targets.len(),
    ensures
        source.targets.len() > 0,
        source.targets[i] < vcpu_count,
        i > 0 ==> source.targets[i - 1] < source.targets[i],
{
}

} // verus!
