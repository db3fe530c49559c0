//! The list format of `cpuset.cpus`: numbers and ranges of numbers, separated by commas.

use std::collections::BTreeSet;
use vstd::prelude::*;
use vstd::string::*;

use crate::decimal;
use crate::error::{QosError, QosErrorView};
use crate::text;

verus! {

/// A CPU number as `cpuset.cpus` writes it; `shown` is the text that an error quotes.
pub open spec fn cpu_number(s: Seq<char>, shown: Seq<char>) -> Result<int, QosErrorView> {
    match decimal::parsed(s, usize::MAX as int) {
        Ok(n) => Ok(n),
        Err(cause) => Err(QosErrorView::InvalidCpu { cpu: shown, cause }),
    }
}

/// The first and the last CPU that an entry such as `4` or `0-3` names. White space around the
/// numbers of a range does not matter.
pub open spec fn entry_bounds(entry: Seq<char>) -> Result<(int, int), QosErrorView> {
    match text::cut_at(entry, '-') {
        Some((first, last)) => match cpu_number(text::trimmed(first), first) {
            Err(e) => Err(e),
            Ok(start) => match cpu_number(text::trimmed(last), last) {
                Err(e) => Err(e),
                Ok(end) => if start > end {
                    Err(QosErrorView::InvalidRange { start, end })
                } else {
                    Ok((start, end))
                },
            },
        },
        None => match cpu_number(entry, entry) {
            Err(e) => Err(e),
            Ok(cpu) => Ok((cpu, cpu)),
        },
    }
}

/// The CPUs from `start` to `end`, both included.
pub open spec fn cpus_between(start: int, end: int) -> Set<usize> {
    Set::new(|cpu: usize| start <= cpu <= end)
}

/// The CPUs that a list of entries names. Blank entries name none, and the first entry that
/// cannot be read decides the error.
pub open spec fn cpus_of(entries: Seq<Seq<char>>) -> Result<Set<usize>, QosErrorView>
    decreases entries.len(),
{
    if entries.len() == 0 {
        Ok(Set::empty())
    } else {
        let entry = text::trimmed(entries.last());
        match cpus_of(entries.drop_last()) {
            Err(e) => Err(e),
            Ok(cpus) => if entry.len() == 0 {
                Ok(cpus)
            } else {
                match entry_bounds(entry) {
                    Err(e) => Err(e),
                    Ok((start, end)) => Ok(cpus.union(cpus_between(start, end))),
                }
            },
        }
    }
}

/// The CPUs that the text of a `cpuset.cpus` file names.
pub open spec fn cpuset(content: Seq<char>) -> Result<Set<usize>, QosErrorView> {
    let list = text::trimmed(content);
    if list.len() == 0 {
        Err(QosErrorView::EmptyCpuset)
    } else {
        cpus_of(text::fields(list, ','))
    }
}

/// Whether each number of `s` is larger than all before it.
pub open spec fn increasing(s: Seq<usize>) -> bool {
    forall|i: int, j: int| 0 <= i < j < s.len() ==> s[i] < s[j]
}

/// The order in which a set of numbers is walked is their order as numbers.
proof fn lemma_walk_increasing(walk: Seq<&usize>)
    requires
        vstd::std_specs::btree::increasing_seq(walk),
    ensures
        increasing(walk.unref()),
{
    broadcast use vstd::std_specs::btree::group_btree_axioms;

    reveal(vstd::laws_cmp::obeys_cmp_partial_ord);
    reveal(vstd::laws_cmp::obeys_cmp_ord);
    assert(vstd::laws_cmp::obeys_cmp::<&usize>());
    assert forall|i: int, j: int| 0 <= i < j < walk.len() implies walk.unref()[i]
        < walk.unref()[j] by {
        assert(vstd::std_specs::cmp::OrdSpec::cmp_spec(&walk[i], &walk[j]) is Less);
    }
}

/// The members of `cpus`, smallest first.
fn in_order(cpus: &BTreeSet<usize>) -> (r: Vec<usize>)
    ensures
        increasing(r@),
        r@.to_set() == cpus@,
{
    broadcast use vstd::std_specs::btree::group_btree_axioms;

    let ghost walk = vstd::std_specs::iter::IteratorSpec::remaining(
        &vstd::std_specs::btree::spec_btree_keys_iter(cpus),
    );
    let mut r: Vec<usize> = Vec::new();
    for cpu in it: cpus.iter()
        invariant
            it.seq() == walk,
            r@ == walk.unref().take(it.index()),
    {
        r.push(*cpu);
    }
    proof {
        lemma_walk_increasing(walk);
        assert(r@ =~= walk.unref());
    }
    r
}

/// Adds the CPUs from `start` to `end` to `cpus`.
fn insert_range(cpus: &mut BTreeSet<usize>, start: usize, end: usize)
    requires
        start <= end,
    ensures
        final(cpus)@ == old(cpus)@.union(cpus_between(start as int, end as int)),
{
    broadcast use vstd::std_specs::btree::group_btree_axioms;

    let mut cpu: usize = start;
    cpus.insert(cpu);
    assert(cpus@ =~= old(cpus)@.union(cpus_between(start as int, cpu as int)));
    while cpu < end
        invariant
            start <= cpu <= end,
            cpus@ == old(cpus)@.union(cpus_between(start as int, cpu as int)),
        decreases end - cpu,
    {
        cpu += 1;
        cpus.insert(cpu);
        assert(cpus@ =~= old(cpus)@.union(cpus_between(start as int, cpu as int)));
    }
}

/// Reads a CPU number; `shown` is the text that an error quotes.
fn parse_cpu(s: &str, shown: &str) -> (r: Result<usize, QosError>)
    ensures
        match r {
            Ok(n) => cpu_number(s@, shown@) == Ok::<int, QosErrorView>(n as int),
            Err(e) => cpu_number(s@, shown@) == Err::<int, QosErrorView>(e@),
        },
{
    match decimal::parse_usize(s) {
        Ok(n) => Ok(n),
        Err(cause) => Err(QosError::InvalidCpu { cpu: shown.to_owned(), cause }),
    }
}

/// The first and the last CPU that an entry names.
fn parse_entry(entry: &str) -> (r: Result<(usize, usize), QosError>)
    ensures
        match r {
            Ok((start, end)) => start <= end && entry_bounds(entry@) == Ok::<
                (int, int),
                QosErrorView,
            >((start as int, end as int)),
            Err(e) => entry_bounds(entry@) == Err::<(int, int), QosErrorView>(e@),
        },
{
    if let Some((first, last)) = text::split_once(entry, '-') {
        let start: usize = match parse_cpu(text::trim(first), first) {
            Ok(n) => n,
            Err(e) => return Err(e),
        };
        let end: usize = match parse_cpu(text::trim(last), last) {
            Ok(n) => n,
            Err(e) => return Err(e),
        };
        if start > end {
            Err(QosError::InvalidRange { start, end })
        } else {
            Ok((start, end))
        }
    } else {
        match parse_cpu(entry, entry) {
            Ok(cpu) => Ok((cpu, cpu)),
            Err(e) => Err(e),
        }
    }
}

/// The CPUs that the text of a `cpuset.cpus` file names, smallest first and each once.
pub fn parse_cpuset_cpus(content: &str) -> (r: Result<Vec<usize>, QosError>)
    ensures
        match r {
            Ok(cpus) => increasing(cpus@) && cpuset(content@) == Ok::<Set<usize>, QosErrorView>(
                cpus@.to_set(),
            ),
            Err(e) => cpuset(content@) == Err::<Set<usize>, QosErrorView>(e@),
        },
{
    let list = text::trim(content);
    if list.is_empty() {
        return Err(QosError::EmptyCpuset);
    }
    let tokens: Vec<&str> = text::split(list, ',');
    let ghost entries = text::fields(list@, ',');
    let mut cpus: BTreeSet<usize> = BTreeSet::new();
    let mut i: usize = 0;
    assert(entries.take(0) =~= seq![]);
    while i < tokens.len()
        invariant
            i <= tokens.len(),
            list@ == text::trimmed(content@),
            list@.len() > 0,
            entries == text::fields(list@, ','),
            entries == text::texts(tokens@),
            cpus_of(entries.take(i as int)) == Ok::<Set<usize>, QosErrorView>(cpus@),
        decreases tokens.len() - i,
    {
        let token = text::trim(tokens[i]);
        proof {
            assert(entries.take(i + 1).drop_last() =~= entries.take(i as int));
            assert(entries.take(i + 1).last() == tokens[i as int]@);
        }
        if !token.is_empty() {
            match parse_entry(token) {
                Ok((start, end)) => {
                    insert_range(&mut cpus, start, end);
                },
                Err(e) => {
                    proof {
                        lemma_first_error(entries, i + 1);
                    }
                    return Err(e);
                },
            }
        }
        i += 1;
    }
    assert(entries.take(i as int) =~= entries);
    Ok(in_order(&cpus))
}

/// An error in the first entries is the error of the whole list.
proof fn lemma_first_error(entries: Seq<Seq<char>>, n: int)
    requires
        0 <= n <= entries.len(),
        cpus_of(entries.take(n)) is Err,
    ensures
        cpus_of(entries) == cpus_of(entries.take(n)),
    decreases entries.len(),
{
    if n == entries.len() {
        assert(entries.take(n) =~= entries);
    } else {
        assert(entries.drop_last().take(n) =~= entries.take(n));
        lemma_first_error(entries.drop_last(), n);
    }
}

/// What two lists name together.
pub open spec fn merged(
    a: Result<Set<usize>, QosErrorView>,
    b: Result<Set<usize>, QosErrorView>,
) -> Result<Set<usize>, QosErrorView> {
    match (a, b) {
        (Ok(s), Ok(t)) => Ok(s.union(t)),
        (Err(e), _) => Err(e),
        (_, Err(e)) => Err(e),
    }
}

/// A list that continues another names the CPUs of both.
pub proof fn law_lists_concatenate(a: Seq<Seq<char>>, b: Seq<Seq<char>>)
    ensures
        cpus_of(a + b) == merged(cpus_of(a), cpus_of(b)),
    decreases b.len(),
{
    if b.len() == 0 {
        assert(a + b =~= a);
        if let Ok(s) = cpus_of(a) {
            assert(s.union(Set::empty()) =~= s);
        }
    } else {
        law_lists_concatenate(a, b.drop_last());
        assert((a + b).drop_last() =~= a + b.drop_last());
        assert((a + b).last() == b.last());
        if let (Ok(s), Ok(t)) = (cpus_of(a), cpus_of(b.drop_last())) {
            if let Ok((start, end)) = entry_bounds(text::trimmed(b.last())) {
                let more = cpus_between(start, end);
                assert(s.union(t).union(more) =~= s.union(t.union(more)));
            }
        }
    }
}

/// Two lists joined by a comma name the CPUs of both.
pub proof fn law_comma_joins(a: Seq<char>, b: Seq<char>)
    ensures
        cpus_of(text::fields(a + seq![','] + b, ',')) == merged(
            cpus_of(text::fields(a, ',')),
            cpus_of(text::fields(b, ',')),
        ),
{
    text::lemma_fields_join(a, b, ',');
    law_lists_concatenate(text::fields(a, ','), text::fields(b, ','));
}

/// The text `start-end` names the CPUs from `start` to `end`.
pub proof fn law_range_reads_back(start: nat, end: nat)
    requires
        start <= end <= usize::MAX,
    ensures
        cpuset(decimal::rendered(start) + seq!['-'] + decimal::rendered(end)) == Ok::<
            Set<usize>,
            QosErrorView,
        >(cpus_between(start as int, end as int)),
{
    let first = decimal::rendered(start);
    let last = decimal::rendered(end);
    let s = first + seq!['-'] + last;
    decimal::lemma_rendered(start);
    decimal::lemma_rendered(end);
    assert forall|i: int| 0 <= i < s.len() implies s[i] == '-' || decimal::is_digit(
        #[trigger] s[i],
    ) by {
        if i < first.len() {
            assert(s[i] == first[i]);
        } else if i > first.len() {
            assert(s[i] == last[i - first.len() - 1]);
        }
    }
    text::lemma_trimmed_bare(s);
    text::lemma_trimmed_bare(first);
    text::lemma_trimmed_bare(last);
    text::lemma_span_is(s, text::other_than(','), s.len() as int);
    assert forall|i: int| 0 <= i < first.len() implies text::other_than('-')(#[trigger] s[i]) by {
        assert(s[i] == first[i]);
    }
    text::lemma_span_is(s, text::other_than('-'), first.len() as int);
    assert(s.take(first.len() as int) =~= first);
    assert(s.skip(first.len() as int + 1) =~= last);
    decimal::law_render_then_parse(start, usize::MAX as int);
    decimal::law_render_then_parse(end, usize::MAX as int);
    let entries = text::fields(s, ',');
    assert(entries =~= seq![s]);
    assert(entries.drop_last() =~= seq![]);
    reveal_with_fuel(cpus_of, 2);
    assert(Set::<usize>::empty().union(cpus_between(start as int, end as int)) =~= cpus_between(
        start as int,
        end as int,
    ));
}

/// The text of a single number names that CPU alone.
pub proof fn law_number_reads_back(cpu: usize)
    ensures
        cpuset(decimal::rendered(cpu as nat)) == Ok::<Set<usize>, QosErrorView>(set![cpu]),
{
    let s = decimal::rendered(cpu as nat);
    decimal::lemma_rendered(cpu as nat);
    text::lemma_trimmed_bare(s);
    text::lemma_span_is(s, text::other_than(','), s.len() as int);
    text::lemma_span_is(s, text::other_than('-'), s.len() as int);
    decimal::law_render_then_parse(cpu as nat, usize::MAX as int);
    let entries = text::fields(s, ',');
    assert(entries =~= seq![s]);
    assert(entries.drop_last() =~= seq![]);
    reveal_with_fuel(cpus_of, 2);
    assert(Set::<usize>::empty().union(cpus_between(cpu as int, cpu as int)) =~= set![cpu]);
}

/// Only the trimmed forms of the entries matter.
proof fn lemma_cpus_by_trimmed(a: Seq<Seq<char>>, b: Seq<Seq<char>>)
    requires
        a.len() == b.len(),
        forall|i: int| 0 <= i < a.len() ==> text::trimmed(#[trigger] a[i]) == text::trimmed(b[i]),
    ensures
        cpus_of(a) == cpus_of(b),
    decreases a.len(),
{
    if a.len() > 0 {
        let (x, y) = (a.drop_last(), b.drop_last());
        assert forall|i: int| 0 <= i < x.len() implies text::trimmed(#[trigger] x[i])
            == text::trimmed(y[i]) by {
            assert(text::trimmed(a[i]) == text::trimmed(b[i]));
        }
        lemma_cpus_by_trimmed(x, y);
        assert(text::trimmed(a[a.len() - 1]) == text::trimmed(b[b.len() - 1]));
    }
}

/// The text of a file that is not blank names what its entries name, white space or not.
proof fn lemma_cpuset_of_entries(content: Seq<char>)
    requires
        !text::blank(content),
    ensures
        cpuset(content) == cpus_of(text::fields(content, ',')),
{
    let (lead, trail) = text::lemma_trim_parts(content);
    let list = text::trimmed(content);
    text::lemma_fields_outer_space(lead, list, trail, ',');
    lemma_cpus_by_trimmed(text::fields(content, ','), text::fields(list, ','));
}

/// A text with a comma in it is not blank.
proof fn lemma_comma_not_blank(a: Seq<char>, b: Seq<char>)
    ensures
        !text::blank(a + seq![','] + b),
{
    assert((a + seq![','] + b)[a.len() as int] == ',');
}

/// A comma joins what two texts name: where both can be read, the CPUs of either; else the error
/// of the first that cannot. This holds of texts of any length.
pub proof fn law_comma_joins_texts(a: Seq<char>, b: Seq<char>)
    requires
        !text::blank(a),
        !text::blank(b),
    ensures
        match (cpuset(a), cpuset(b)) {
            (Ok(s), Ok(t)) => {
                &&& cpuset(a + seq![','] + b) matches Ok(both)
                &&& forall|cpu: usize|
                    #[trigger] both.contains(cpu) <==> s.contains(cpu) || t.contains(cpu)
            },
            (Err(e), _) => cpuset(a + seq![','] + b) == Err::<Set<usize>, QosErrorView>(e),
            (_, Err(e)) => cpuset(a + seq![','] + b) == Err::<Set<usize>, QosErrorView>(e),
        },
{
    lemma_comma_not_blank(a, b);
    lemma_cpuset_of_entries(a);
    lemma_cpuset_of_entries(b);
    lemma_cpuset_of_entries(a + seq![','] + b);
    law_comma_joins(a, b);
}

/// A blank entry names no CPU, wherever it stands. A text that is all blank is an error, and one
/// of blank entries alone is not.
pub proof fn law_blank_entries_name_nothing(empty: Seq<char>, s: Seq<char>)
    requires
        text::blank(empty),
    ensures
        cpuset(empty) == Err::<Set<usize>, QosErrorView>(QosErrorView::EmptyCpuset),
        !text::blank(s) ==> cpuset(empty + seq![','] + s) == cpuset(s),
        !text::blank(s) ==> cpuset(s + seq![','] + empty) == cpuset(s),
        text::blank(s) ==> cpuset(empty + seq![','] + s) == Ok::<Set<usize>, QosErrorView>(
            Set::empty(),
        ),
{
    let none = Set::<usize>::empty();
    let (_, _) = text::lemma_trim_parts(empty);
    assert(!empty.contains(',')) by {
        if empty.contains(',') {
            let i = choose|i: int| 0 <= i < empty.len() && empty[i] == ',';
            assert(text::is_space(empty[i]));
        }
    }
    text::law_fields(empty, ',', s);
    assert(seq![empty].drop_last() =~= seq![]);
    reveal_with_fuel(cpus_of, 2);
    assert(cpus_of(text::fields(empty, ',')) == Ok::<Set<usize>, QosErrorView>(none));
    if text::blank(s) {
        if s.contains(',') {
            let i = choose|i: int| 0 <= i < s.len() && s[i] == ',';
            assert(text::is_space(s[i]));
        }
        let (_, _) = text::lemma_trim_parts(s);
        text::law_fields(s, ',', s);
        assert(seq![s].drop_last() =~= seq![]);
        assert(cpus_of(text::fields(s, ',')) == Ok::<Set<usize>, QosErrorView>(none));
    }
    lemma_comma_not_blank(empty, s);
    lemma_comma_not_blank(s, empty);
    lemma_cpuset_of_entries(empty + seq![','] + s);
    lemma_cpuset_of_entries(s + seq![','] + empty);
    law_comma_joins(empty, s);
    law_comma_joins(s, empty);
    if !text::blank(s) {
        lemma_cpuset_of_entries(s);
        if let Ok(cpus) = cpuset(s) {
            assert(none.union(cpus) =~= cpus);
            assert(cpus.union(none) =~= cpus);
        }
    }
    assert(none.union(none) =~= none);
}

/// What a text of one entry names.
proof fn lemma_one_entry(s: Seq<char>)
    requires
        !text::blank(s),
        !s.contains(','),
    ensures
        cpuset(s) == match entry_bounds(text::trimmed(s)) {
            Ok((start, end)) => Ok::<Set<usize>, QosErrorView>(cpus_between(start, end)),
            Err(e) => Err::<Set<usize>, QosErrorView>(e),
        },
{
    let (_, _) = text::lemma_trim_parts(s);
    lemma_cpuset_of_entries(s);
    text::law_fields(s, ',', s);
    assert(seq![s].drop_last() =~= seq![]);
    reveal_with_fuel(cpus_of, 2);
    if let Ok((start, end)) = entry_bounds(text::trimmed(s)) {
        assert(Set::<usize>::empty().union(cpus_between(start, end)) =~= cpus_between(start, end));
    }
}

/// An entry without a dash is a number and names that CPU alone; if it cannot be read the error
/// quotes it and says why. White space around it does not matter.
pub proof fn law_single_entry(lead: Seq<char>, number: Seq<char>, trail: Seq<char>)
    requires
        text::blank(lead),
        text::blank(trail),
        number.len() > 0,
        !text::is_space(number[0]) && !text::is_space(number.last()),
        !number.contains(','),
        !number.contains('-'),
    ensures
        match decimal::parsed(number, usize::MAX as int) {
            Ok(n) => {
                &&& cpuset(lead + number + trail) matches Ok(cpus)
                &&& forall|cpu: usize| #[trigger] cpus.contains(cpu) <==> cpu == n
            },
            Err(cause) => cpuset(lead + number + trail) == Err::<Set<usize>, QosErrorView>(
                QosErrorView::InvalidCpu { cpu: number, cause },
            ),
        },
{
    let s = lead + number + trail;
    text::law_trimming(lead, number, trail);
    lemma_no_comma(lead, number, trail);
    assert(s[lead.len() as int] == number[0]);
    lemma_one_entry(s);
    text::law_cut(number, '-', number);
    decimal::lemma_parsed_bound(number, usize::MAX as int);
}

/// White space around a text holds no comma.
proof fn lemma_no_comma(lead: Seq<char>, s: Seq<char>, trail: Seq<char>)
    requires
        text::blank(lead),
        text::blank(trail),
        !s.contains(','),
    ensures
        !(lead + s + trail).contains(','),
{
    let all = lead + s + trail;
    if all.contains(',') {
        let i = choose|i: int| 0 <= i < all.len() && all[i] == ',';
        if i < lead.len() {
            assert(text::is_space(lead[i]));
        } else if i < lead.len() + s.len() {
            assert(s[i - lead.len()] == ',');
        } else {
            assert(text::is_space(trail[i - lead.len() - s.len()]));
        }
    }
}

/// An entry with a dash names the CPUs from the number before the first dash to the one after it.
/// The first of the two that cannot be read is the error, which quotes that side; a range that
/// ends before it starts is an error too. White space around either number does not matter.
pub proof fn law_range_entry(
    lead: Seq<char>,
    first: Seq<char>,
    last: Seq<char>,
    trail: Seq<char>,
)
    requires
        text::blank(lead),
        text::blank(trail),
        first.len() > 0 ==> !text::is_space(first[0]),
        last.len() > 0 ==> !text::is_space(last.last()),
        !first.contains(','),
        !last.contains(','),
        !first.contains('-'),
    ensures
        ({
            let s = lead + (first + seq!['-'] + last) + trail;
            match (
                decimal::parsed(text::trimmed(first), usize::MAX as int),
                decimal::parsed(text::trimmed(last), usize::MAX as int),
            ) {
                (Ok(start), Ok(end)) => if start > end {
                    cpuset(s) == Err::<Set<usize>, QosErrorView>(
                        QosErrorView::InvalidRange { start, end },
                    )
                } else {
                    &&& cpuset(s) matches Ok(cpus)
                    &&& forall|cpu: usize|
                        #[trigger] cpus.contains(cpu) <==> start <= cpu <= end
                },
                (Err(cause), _) => cpuset(s) == Err::<Set<usize>, QosErrorView>(
                    QosErrorView::InvalidCpu { cpu: first, cause },
                ),
                (_, Err(cause)) => cpuset(s) == Err::<Set<usize>, QosErrorView>(
                    QosErrorView::InvalidCpu { cpu: last, cause },
                ),
            }
        }),
{
    let core = first + seq!['-'] + last;
    let s = lead + core + trail;
    assert(core[first.len() as int] == '-');
    assert(first.len() > 0 ==> core[0] == first[0]);
    assert(last.len() > 0 ==> core.last() == last.last());
    text::law_trimming(lead, core, trail);
    if core.contains(',') {
        let i = choose|i: int| 0 <= i < core.len() && core[i] == ',';
        if i < first.len() {
            assert(first[i] == ',');
        } else {
            assert(last[i - first.len() - 1] == ',');
        }
    }
    lemma_no_comma(lead, core, trail);
    assert(s[lead.len() as int] == core[0]);
    lemma_one_entry(s);
    text::law_cut(first, '-', last);
}

/// Ranges of CPUs as text, separated by commas.
pub open spec fn listing(ranges: Seq<(nat, nat)>) -> Seq<char>
    decreases ranges.len(),
{
    let (start, end) = ranges.last();
    let range = decimal::rendered(start) + seq!['-'] + decimal::rendered(end);
    if ranges.len() <= 1 {
        range
    } else {
        listing(ranges.drop_last()) + seq![','] + range
    }
}

/// A listing holds a dash, and so is not blank.
proof fn lemma_listing_not_blank(ranges: Seq<(nat, nat)>)
    ensures
        !text::blank(listing(ranges)),
{
    let (start, end) = ranges.last();
    let range = decimal::rendered(start) + seq!['-'] + decimal::rendered(end);
    let s = listing(ranges);
    let i = s.len() - decimal::rendered(end).len() - 1;
    assert(s[i] == '-') by {
        assert(range[range.len() - decimal::rendered(end).len() - 1] == '-');
    }
    assert(!text::is_space(s[i]));
}

/// Whether a CPU lies in one of the ranges.
pub open spec fn in_some_range(ranges: Seq<(nat, nat)>, cpu: usize) -> bool {
    exists|i: int| 0 <= i < ranges.len() && (#[trigger] ranges[i]).0 <= cpu <= ranges[i].1
}

/// A CPU lies in one of the ranges if it lies in the last or in one of those before it.
proof fn lemma_in_last_range(ranges: Seq<(nat, nat)>, cpu: usize)
    requires
        ranges.len() > 0,
    ensures
        in_some_range(ranges, cpu) <==> in_some_range(ranges.drop_last(), cpu) || ranges.last().0
            <= cpu <= ranges.last().1,
{
    let front = ranges.drop_last();
    let last = ranges.len() - 1;
    if in_some_range(front, cpu) {
        let i = choose|i: int|
            0 <= i < front.len() && (#[trigger] front[i]).0 <= cpu <= front[i].1;
        assert(ranges[i].0 <= cpu <= ranges[i].1);
    }
    if ranges.last().0 <= cpu <= ranges.last().1 {
        assert(ranges[last].0 <= cpu <= ranges[last].1);
    }
    if in_some_range(ranges, cpu) {
        let i = choose|i: int|
            0 <= i < ranges.len() && (#[trigger] ranges[i]).0 <= cpu <= ranges[i].1;
        if i < last {
            assert(front[i].0 <= cpu <= front[i].1);
        }
    }
}

/// However many ranges are listed, a CPU is named exactly where it lies in one of them.
pub proof fn law_listing_reads_back(ranges: Seq<(nat, nat)>)
    requires
        ranges.len() > 0,
        forall|i: int|
            0 <= i < ranges.len() ==> (#[trigger] ranges[i]).0 <= ranges[i].1 <= usize::MAX,
    ensures
        cpuset(listing(ranges)) is Ok,
        forall|cpu: usize| #[trigger]
            cpuset(listing(ranges))->Ok_0.contains(cpu) <==> in_some_range(ranges, cpu),
    decreases ranges.len(),
{
    let front = ranges.drop_last();
    let (start, end) = ranges[ranges.len() - 1];
    let range = decimal::rendered(start) + seq!['-'] + decimal::rendered(end);
    decimal::lemma_rendered(start);
    assert(decimal::is_digit(decimal::rendered(start)[0]));
    assert(range[0] == decimal::rendered(start)[0]);
    assert(!text::blank(range));
    law_range_reads_back(start, end);
    if ranges.len() > 1 {
        assert forall|i: int| 0 <= i < front.len() implies (#[trigger] front[i]).0 <= front[i].1
            <= usize::MAX by {
            assert(ranges[i].0 <= ranges[i].1);
        }
        law_listing_reads_back(front);
        lemma_listing_not_blank(front);
        law_comma_joins_texts(listing(front), range);
    }
    assert forall|cpu: usize| #[trigger]
        cpuset(listing(ranges))->Ok_0.contains(cpu) <==> in_some_range(ranges, cpu) by {
        lemma_in_last_range(ranges, cpu);
    }
}

/// Numbers in increasing order grow from each to the next, so that none occurs twice.
pub proof fn law_increasing(s: Seq<usize>)
    requires
        increasing(s),
    ensures
        forall|i: int| 0 < i < s.len() ==> s[i - 1] < #[trigger] s[i],
        s.no_duplicates(),
{
}

} // verus!
