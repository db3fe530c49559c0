//! Watchdog: re-spawns the worker process after any exit or crash.
//!
//! The watchdog re-executes the same binary with `--worker` appended, so that the worker
//! inherits its arguments.

use vstd::prelude::*;
use vstd::string::*;

use crate::args;
use crate::args::WORKER_FLAG;

verus! {

/// How long to wait before a worker is spawned again, in milliseconds.
pub const RESPAWN_DELAY_MS: u64 = 100;

/// The arguments that a worker is given: those of the watchdog without the program's name, and
/// the flag that marks a worker.
pub open spec fn worker_arg_texts(args: Seq<Seq<char>>) -> Seq<Seq<char>> {
    let forwarded = if args.len() > 0 {
        args.skip(1)
    } else {
        args
    };
    forwarded.push("--worker"@)
}

/// The arguments that a worker is given.
pub fn worker_args(args: &Vec<String>) -> (r: Vec<String>)
    ensures
        args::arg_texts(r@) == worker_arg_texts(args::arg_texts(args@)),
{
    let ghost all = args::arg_texts(args@);
    let mut r: Vec<String> = Vec::new();
    let mut i: usize = 1;
    while i < args.len()
        invariant
            1 <= i,
            all == args::arg_texts(args@),
            args@.len() > 0 ==> i <= args@.len() && args::arg_texts(r@) == all.subrange(
                1,
                i as int,
            ),
            args@.len() == 0 ==> i == 1 && r@.len() == 0,
        decreases args.len() - i,
    {
        r.push(args[i].clone());
        i += 1;
        assert(args::arg_texts(r@) =~= all.subrange(1, i as int));
    }
    r.push(WORKER_FLAG.to_owned());
    assert(args::arg_texts(r@) =~= worker_arg_texts(all));
    r
}

/// What happened to the watchdog.
#[derive(Clone, Copy, Debug, PartialEq, Eq, Structural)]
pub enum WatchdogEvent {
    /// A worker was spawned.
    Spawned,
    /// The worker exited, successfully or not.
    Exited { success: bool },
    /// The delay after an exit is over.
    Rested,
    /// A worker could not be spawned or waited for.
    Failed,
}

/// What the watchdog does next.
#[derive(Clone, Copy, Debug, PartialEq, Eq, Structural)]
pub enum WatchdogAction {
    /// Spawn a worker.
    Spawn,
    /// Wait for the worker to exit.
    Wait,
    /// Sleep for this many milliseconds.
    Sleep { millis: u64 },
    /// Give up.
    Stop,
}

/// What the watchdog does after an event.
pub open spec fn reaction(event: WatchdogEvent) -> WatchdogAction {
    match event {
        WatchdogEvent::Spawned => WatchdogAction::Wait,
        WatchdogEvent::Exited { .. } => WatchdogAction::Sleep { millis: RESPAWN_DELAY_MS },
        WatchdogEvent::Rested => WatchdogAction::Spawn,
        WatchdogEvent::Failed => WatchdogAction::Stop,
    }
}

/// What the watchdog does after an event. It begins as after a delay.
pub fn next_action(event: WatchdogEvent) -> (r: WatchdogAction)
    ensures
        r == reaction(event),
{
    match event {
        WatchdogEvent::Spawned => WatchdogAction::Wait,
        WatchdogEvent::Exited { success: _ } => WatchdogAction::Sleep { millis: RESPAWN_DELAY_MS },
        WatchdogEvent::Rested => WatchdogAction::Spawn,
        WatchdogEvent::Failed => WatchdogAction::Stop,
    }
}

/// However a worker exits, another is spawned after the delay.
pub proof fn law_every_exit_is_followed_by_a_spawn(success: bool)
    ensures
        reaction(WatchdogEvent::Exited { success }) == (WatchdogAction::Sleep {
            millis: RESPAWN_DELAY_MS,
        }),
        reaction(WatchdogEvent::Rested) == WatchdogAction::Spawn,
{
}

/// The place of a flag among arguments is that of its first occurrence.
proof fn lemma_position(all: Seq<Seq<char>>, flag: Seq<char>)
    ensures
        args::position_of(all, flag) <= all.len(),
        args::position_of(all, flag) < all.len() ==> all[args::position_of(all, flag) as int]
            == flag,
        all.contains(flag) ==> args::position_of(all, flag) < all.len(),
    decreases all.len(),
{
    if all.len() > 0 && all[0] != flag {
        let rest = all.skip(1);
        lemma_position(rest, flag);
        if all.contains(flag) {
            let i = choose|i: int| 0 <= i < all.len() && all[i] == flag;
            assert(rest[i - 1] == flag);
        }
    }
}

/// An argument at the end does not change where an earlier flag stands.
proof fn lemma_position_push(all: Seq<Seq<char>>, extra: Seq<char>, flag: Seq<char>)
    requires
        extra != flag,
    ensures
        args::position_of(all.push(extra), flag) == if args::position_of(all, flag) < all.len() {
            args::position_of(all, flag)
        } else {
            all.len() + 1
        },
    decreases all.len(),
{
    if all.len() == 0 {
        assert(all.push(extra).skip(1) =~= seq![]);
        reveal_with_fuel(args::position_of, 2);
    } else if all[0] != flag {
        assert(all.push(extra).skip(1) =~= all.skip(1).push(extra));
        assert(all.push(extra)[0] == all[0]);
        lemma_position_push(all.skip(1), extra, flag);
    } else {
        assert(all.push(extra)[0] == flag);
    }
}

/// The name in front of the arguments does not matter to where a flag stands, unless it is that
/// flag.
proof fn lemma_position_name(name: Seq<char>, rest: Seq<Seq<char>>, flag: Seq<char>)
    requires
        name != flag,
    ensures
        args::position_of(seq![name] + rest, flag) == 1 + args::position_of(rest, flag),
{
    assert((seq![name] + rest)[0] == name);
    assert((seq![name] + rest).skip(1) =~= rest);
}

/// A worker knows that it is one, and works with the interval and the cgroup that the watchdog
/// was asked for. `name` is the name that the watchdog was called by and `exe` the path of its
/// binary, which the worker is called by. The last argument must not be a `--psi-cgroup`
/// without its value: the worker would take the flag that follows it for that value.
pub proof fn law_worker_inherits_arguments(
    name: Seq<char>,
    exe: Seq<char>,
    rest: Seq<Seq<char>>,
    from_env: Option<Seq<char>>,
)
    requires
        name != "--interval"@ && name != "--psi-cgroup"@,
        exe != "--interval"@ && exe != "--psi-cgroup"@,
        args::position_of(rest, "--psi-cgroup"@) + 1 != rest.len(),
    ensures
        ({
            let watchdog = seq![name] + rest;
            let worker = seq![exe] + worker_arg_texts(watchdog);
            &&& args::asks_for_worker(worker)
            &&& args::asked_interval(worker) == args::asked_interval(watchdog)
            &&& args::asked_cgroup(worker, from_env) == args::asked_cgroup(watchdog, from_env)
        }),
{
    let flag = "--worker"@;
    let watchdog = seq![name] + rest;
    let given = worker_arg_texts(watchdog);
    let worker = seq![exe] + given;
    reveal_strlit("--worker");
    reveal_strlit("--interval");
    reveal_strlit("--psi-cgroup");
    assert(flag.len() == 8 && "--interval"@.len() == 10 && "--psi-cgroup"@.len() == 12);
    assert(watchdog.skip(1) =~= rest);
    assert(given == rest.push(flag));
    assert(worker[worker.len() - 1] == flag);
    lemma_values(name, exe, rest, flag, "--psi-cgroup"@);
    lemma_values(name, exe, rest, flag, "--interval"@);
    assert(decimal_fails(flag)) by {
        assert(flag[0] == '-');
        assert(crate::text::span(flag, crate::decimal::digits()) == 0);
        assert(flag.take(0) =~= seq![]);
    }
}

/// Whether a text is not a number.
spec fn decimal_fails(s: Seq<char>) -> bool {
    crate::decimal::parsed(s, u64::MAX as int) is Err
}

/// The value of an option for a worker is that for its watchdog, unless the option comes last.
proof fn lemma_values(
    name: Seq<char>,
    exe: Seq<char>,
    rest: Seq<Seq<char>>,
    extra: Seq<char>,
    flag: Seq<char>,
)
    requires
        name != flag,
        exe != flag,
        extra != flag,
    ensures
        args::value_of(seq![exe] + rest.push(extra), flag) == if args::position_of(rest, flag) + 1
            == rest.len() {
            Some(extra)
        } else {
            args::value_of(seq![name] + rest, flag)
        },
        args::position_of(rest, flag) + 1 == rest.len() ==> args::value_of(
            seq![name] + rest,
            flag,
        ) is None,
{
    lemma_position(rest, flag);
    lemma_position_name(name, rest, flag);
    lemma_position_name(exe, rest.push(extra), flag);
    lemma_position_push(rest, extra, flag);
}

/// A worker is given what its watchdog was given after the program's name, in the same order,
/// and `--worker` behind it.
pub proof fn law_worker_arguments(name: Seq<char>, rest: Seq<Seq<char>>)
    ensures
        worker_arg_texts(seq![name] + rest) == rest + seq!["--worker"@],
        worker_arg_texts(seq![]) == seq!["--worker"@],
{
    assert((seq![name] + rest).skip(1) =~= rest);
    assert(rest.push("--worker"@) =~= rest + seq!["--worker"@]);
    assert(Seq::<Seq<char>>::empty().push("--worker"@) =~= seq!["--worker"@]);
}

/// The watchdog waits for what it has spawned, rests for a tenth of a second after an exit of
/// either kind, and gives up exactly where spawning or waiting fails.
pub proof fn law_watchdog(event: WatchdogEvent, success: bool)
    ensures
        reaction(WatchdogEvent::Spawned) == WatchdogAction::Wait,
        reaction(WatchdogEvent::Exited { success }) == (WatchdogAction::Sleep { millis: 100 }),
        reaction(WatchdogEvent::Rested) == WatchdogAction::Spawn,
        reaction(event) == WatchdogAction::Stop <==> event == WatchdogEvent::Failed,
{
}

} // verus!
