//! What the command line asks for.

use vstd::prelude::*;
use vstd::string::*;

use crate::decimal;
use crate::text;

verus! {

/// The collection interval if none is given, in milliseconds.
pub const DEFAULT_QOS_INTERVAL_MS: u64 = 100;

/// Marks a worker; the watchdog appends it when it spawns one.
pub const WORKER_FLAG: &'static str = "--worker";

/// The cgroup to watch if none is given.
pub const DEFAULT_PSI_CGROUP: &'static str = "/sys/fs/cgroup/gnuradio";

/// The arguments as texts.
pub open spec fn arg_texts(args: Seq<String>) -> Seq<Seq<char>> {
    Seq::new(args.len(), |i: int| args[i]@)
}

/// Where `flag` first occurs among the arguments, or their number if it does not.
pub open spec fn position_of(args: Seq<Seq<char>>, flag: Seq<char>) -> nat
    decreases args.len(),
{
    if args.len() == 0 || args[0] == flag {
        0
    } else {
        1 + position_of(args.skip(1), flag)
    }
}

/// The argument after the first occurrence of `flag`.
pub open spec fn value_of(args: Seq<Seq<char>>, flag: Seq<char>) -> Option<Seq<char>> {
    let at = position_of(args, flag);
    if at + 1 < args.len() {
        Some(args[at as int + 1])
    } else {
        None
    }
}

/// Whether the arguments are those of a worker.
pub open spec fn asks_for_worker(args: Seq<Seq<char>>) -> bool {
    args.contains("--worker"@)
}

/// The collection interval in milliseconds: what follows `--interval`, if it is a number.
pub open spec fn asked_interval(args: Seq<Seq<char>>) -> int {
    match value_of(args, "--interval"@) {
        Some(value) => match decimal::parsed(value, u64::MAX as int) {
            Ok(n) => n,
            Err(_) => DEFAULT_QOS_INTERVAL_MS as int,
        },
        None => DEFAULT_QOS_INTERVAL_MS as int,
    }
}

/// The cgroup to watch: what follows `--psi-cgroup`, else the one from the environment, else
/// the default.
pub open spec fn asked_cgroup(args: Seq<Seq<char>>, from_env: Option<Seq<char>>) -> Seq<char> {
    match value_of(args, "--psi-cgroup"@) {
        Some(value) => value,
        None => match from_env {
            Some(value) => value,
            None => "/sys/fs/cgroup/gnuradio"@,
        },
    }
}

/// What the command line asks for.
#[derive(Debug, PartialEq, Eq)]
pub struct Config {
    pub is_worker: bool,
    pub interval_ms: u64,
    pub psi_cgroup: String,
}

/// Where `flag` first occurs among the arguments.
fn position(args: &Vec<String>, flag: &str) -> (r: usize)
    ensures
        r == position_of(arg_texts(args@), flag@),
        r <= args@.len(),
        r < args@.len() <==> arg_texts(args@).contains(flag@),
{
    let ghost all = arg_texts(args@);
    let mut i: usize = 0;
    assert(all.skip(0) =~= all);
    while i < args.len()
        invariant
            i <= args@.len(),
            all == arg_texts(args@),
            position_of(all, flag@) == i + position_of(all.skip(i as int), flag@),
            forall|j: int| 0 <= j < i ==> #[trigger] all[j] != flag@,
        decreases args.len() - i,
    {
        assert(all.skip(i as int)[0] == all[i as int]);
        if text::same_text(args[i].as_str(), flag) {
            assert(all[i as int] == flag@);
            return i;
        }
        assert(all.skip(i as int).skip(1) =~= all.skip(i + 1));
        i += 1;
    }
    i
}

/// The argument after the first occurrence of `flag`.
fn option_value<'a>(args: &'a Vec<String>, flag: &str) -> (r: Option<&'a String>)
    ensures
        match r {
            Some(value) => value_of(arg_texts(args@), flag@) == Some(value@),
            None => value_of(arg_texts(args@), flag@) is None,
        },
{
    let at: usize = position(args, flag);
    if at < args.len() && at + 1 < args.len() {
        Some(&args[at + 1])
    } else {
        None
    }
}

/// Reads the command line; `from_env` is the cgroup that the environment names, if it does.
pub fn parse_args(args: &Vec<String>, from_env: Option<String>) -> (r: Config)
    ensures
        r.is_worker == asks_for_worker(arg_texts(args@)),
        r.interval_ms == asked_interval(arg_texts(args@)),
        r.psi_cgroup@ == asked_cgroup(
            arg_texts(args@),
            match from_env {
                Some(value) => Some(value@),
                None => None,
            },
        ),
{
    let is_worker: bool = position(args, WORKER_FLAG) < args.len();
    let interval_ms: u64 = match option_value(args, "--interval") {
        Some(value) => match decimal::parse_u64(value.as_str()) {
            Ok(n) => n,
            Err(_) => DEFAULT_QOS_INTERVAL_MS,
        },
        None => DEFAULT_QOS_INTERVAL_MS,
    };
    let psi_cgroup: String = match option_value(args, "--psi-cgroup") {
        Some(value) => value.clone(),
        None => match from_env {
            Some(value) => value,
            None => DEFAULT_PSI_CGROUP.to_owned(),
        },
    };
    Config { is_worker, interval_ms, psi_cgroup }
}

/// A flag that stands first behind arguments other than itself is found there.
proof fn lemma_position_after(a: Seq<Seq<char>>, flag: Seq<char>, b: Seq<Seq<char>>)
    requires
        !a.contains(flag),
    ensures
        position_of(a, flag) == a.len(),
        position_of(a + seq![flag] + b, flag) == a.len(),
    decreases a.len(),
{
    let all = a + seq![flag] + b;
    if a.len() > 0 {
        assert(a.contains(a[0]));
        assert(all[0] == a[0]);
        let rest = a.skip(1);
        assert(all.skip(1) =~= rest + seq![flag] + b);
        if rest.contains(flag) {
            let i = choose|i: int| 0 <= i < rest.len() && rest[i] == flag;
            assert(a[i + 1] == flag);
        }
        lemma_position_after(rest, flag, b);
    } else {
        assert(all[0] == flag);
    }
}

/// The argument behind the first occurrence of a flag is its value, whatever else is given.
/// There is none where the flag is not given, or is given first as the last argument.
pub proof fn law_first_flag_counts(
    a: Seq<Seq<char>>,
    flag: Seq<char>,
    value: Seq<char>,
    b: Seq<Seq<char>>,
)
    requires
        !a.contains(flag),
    ensures
        value_of(a + seq![flag, value] + b, flag) == Some(value),
        value_of(a + seq![flag], flag) is None,
        value_of(a, flag) is None,
{
    let all = a + seq![flag, value] + b;
    assert(all =~= a + seq![flag] + (seq![value] + b));
    lemma_position_after(a, flag, seq![value] + b);
    assert(all[a.len() as int + 1] == value);
    lemma_position_after(a, flag, seq![]);
    assert(a + seq![flag] + seq![] =~= a + seq![flag]);
}

/// Every number of milliseconds can be asked for: where the first `--interval` is followed by
/// the decimal text of a number, that number is the interval.
pub proof fn law_asked_interval_reads_back(a: Seq<Seq<char>>, n: u64, b: Seq<Seq<char>>)
    requires
        !a.contains("--interval"@),
    ensures
        asked_interval(a + seq!["--interval"@, decimal::rendered(n as nat)] + b) == n,
{
    law_first_flag_counts(a, "--interval"@, decimal::rendered(n as nat), b);
    decimal::law_render_then_parse(n as nat, u64::MAX as int);
}

/// What follows the first `--interval` is the interval if it is a number, leading zeros, plus
/// sign and all. The interval is 100 ms only where that text is not a number, or too large a one,
/// or where nothing follows the flag, or the flag is not given.
pub proof fn law_interval(a: Seq<Seq<char>>, value: Seq<char>, b: Seq<Seq<char>>)
    requires
        !a.contains("--interval"@),
    ensures
        match decimal::parsed(value, 0xffff_ffff_ffff_ffff) {
            Ok(n) => asked_interval(a + seq!["--interval"@, value] + b) == n,
            Err(_) => asked_interval(a + seq!["--interval"@, value] + b) == 100,
        },
        asked_interval(a + seq!["--interval"@]) == 100,
        asked_interval(a) == 100,
{
    law_first_flag_counts(a, "--interval"@, value, b);
}

/// The cgroup is what follows the first `--psi-cgroup`, whatever it is; else the one that the
/// environment names; else the default.
pub proof fn law_cgroup(
    a: Seq<Seq<char>>,
    value: Seq<char>,
    b: Seq<Seq<char>>,
    named: Seq<char>,
    from_env: Option<Seq<char>>,
)
    requires
        !a.contains("--psi-cgroup"@),
    ensures
        asked_cgroup(a + seq!["--psi-cgroup"@, value] + b, from_env) == value,
        asked_cgroup(a, Some(named)) == named,
        asked_cgroup(a + seq!["--psi-cgroup"@], Some(named)) == named,
        asked_cgroup(a, None) == "/sys/fs/cgroup/gnuradio"@,
        asked_cgroup(a + seq!["--psi-cgroup"@], None) == "/sys/fs/cgroup/gnuradio"@,
{
    law_first_flag_counts(a, "--psi-cgroup"@, value, b);
}

/// The arguments are those of a worker where `--worker` is one of them, at any place.
pub proof fn law_worker(a: Seq<Seq<char>>, b: Seq<Seq<char>>)
    ensures
        asks_for_worker(a + seq!["--worker"@] + b),
        asks_for_worker(a + b) <==> asks_for_worker(a) || asks_for_worker(b),
        !asks_for_worker(seq![]),
        forall|arg: Seq<char>| arg != "--worker"@ ==> !#[trigger] asks_for_worker(seq![arg]),
{
    let flag = "--worker"@;
    assert((a + seq![flag] + b)[a.len() as int] == flag);
    let all = a + b;
    if a.contains(flag) {
        let i = choose|i: int| 0 <= i < a.len() && a[i] == flag;
        assert(all[i] == flag);
    }
    if b.contains(flag) {
        let i = choose|i: int| 0 <= i < b.len() && b[i] == flag;
        assert(all[a.len() + i] == flag);
    }
    if all.contains(flag) {
        let i = choose|i: int| 0 <= i < all.len() && all[i] == flag;
        if i < a.len() {
            assert(a[i] == flag);
        } else {
            assert(b[i - a.len()] == flag);
        }
    }
}

/// The texts of the arguments are theirs, one by one.
pub proof fn law_arg_texts(args: Seq<String>, i: int)
    requires
        0 <= i < args.len(),
    ensures
        arg_texts(args).len() == args.len(),
        arg_texts(args)[i] == args[i]@,
{
}

} // verus!
