use pvsched_qos::args::{parse_args, Config, DEFAULT_PSI_CGROUP, DEFAULT_QOS_INTERVAL_MS, WORKER_FLAG};
use pvsched_qos::daemon::{next_action, worker_args, WatchdogAction, WatchdogEvent};

fn strings(args: &[&str]) -> Vec<String> {
    args.iter().map(|a| a.to_string()).collect()
}

fn config(is_worker: bool, interval_ms: u64, psi_cgroup: &str) -> Config {
    Config { is_worker, interval_ms, psi_cgroup: psi_cgroup.to_string() }
}

#[test]
fn command_line_defaults() {
    assert_eq!(parse_args(&strings(&["guest"]), None), config(false, 100, "/sys/fs/cgroup/gnuradio"));
    assert_eq!(parse_args(&vec![], None), config(false, DEFAULT_QOS_INTERVAL_MS, DEFAULT_PSI_CGROUP));
    assert_eq!(parse_args(&strings(&["guest"]), Some("/env".to_string())), config(false, 100, "/env"));
}

#[test]
fn command_line_options() {
    let parse = |args: &[&str]| parse_args(&strings(args), Some("/env".to_string()));
    assert_eq!(parse(&["g", "--interval", "25", "--worker"]), config(true, 25, "/env"));
    assert_eq!(parse(&["g", "--psi-cgroup", "/x"]), config(false, 100, "/x"));
    assert_eq!(parse(&["g", "--interval", "soon"]), config(false, 100, "/env"));
    assert_eq!(parse(&["g", "--interval"]), config(false, 100, "/env"));
    assert_eq!(parse(&["g", "--psi-cgroup"]), config(false, 100, "/env"));
    assert_eq!(parse(&["g", "--interval", "1", "--interval", "2"]), config(false, 1, "/env"));
    assert_eq!(parse(&["g", "--psi-cgroup", "--worker"]), config(true, 100, "--worker"));
}

#[test]
fn worker_gets_the_arguments_and_its_flag() {
    assert_eq!(worker_args(&strings(&["g", "--interval", "5"])), strings(&["--interval", "5", "--worker"]));
    assert_eq!(worker_args(&strings(&["g"])), strings(&[WORKER_FLAG]));
    assert_eq!(worker_args(&vec![]), strings(&["--worker"]));
}

#[test]
fn worker_inherits_what_was_asked_for() {
    let lines: [&[&str]; 5] = [
        &[],
        &["--interval", "5"],
        &["--interval"],
        &["--psi-cgroup", "/x", "--interval", "9"],
        &["--psi-cgroup", "/x", "--interval"],
    ];
    for rest in lines {
        let mut watchdog = strings(&["guest"]);
        watchdog.extend(strings(rest));
        let mut worker = strings(&["/usr/bin/guest"]);
        worker.extend(worker_args(&watchdog));
        let asked = parse_args(&watchdog, None);
        assert_eq!(parse_args(&worker, None), config(true, asked.interval_ms, &asked.psi_cgroup));
    }
}

#[test]
fn watchdog_spawns_again_after_any_exit() {
    let sleep = WatchdogAction::Sleep { millis: 100 };
    assert_eq!(next_action(WatchdogEvent::Rested), WatchdogAction::Spawn);
    assert_eq!(next_action(WatchdogEvent::Spawned), WatchdogAction::Wait);
    assert_eq!(next_action(WatchdogEvent::Exited { success: true }), sleep);
    assert_eq!(next_action(WatchdogEvent::Exited { success: false }), sleep);
    assert_eq!(next_action(WatchdogEvent::Failed), WatchdogAction::Stop);
}
