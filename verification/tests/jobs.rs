use ci_runner::jobs::{cgroup_pids, comm_is, parse_cgroup_path, tally, Jobs, LISTENER, WORKER};

#[test]
fn comm_is_matches_exactly_and_ignores_the_newline() {
    assert!(comm_is(b"Runner.Worker\n", WORKER));
    assert!(comm_is(b"Runner.Worker", WORKER));
    assert!(comm_is(b"Runner.Listener\n", LISTENER));
}

#[test]
fn comm_is_rejects_the_truncated_plugin_host() {
    assert!(!comm_is(b"Runner.PluginHo\n", WORKER));
    assert!(!comm_is(b"Runner.PluginHo\n", LISTENER));
}

#[test]
fn comm_is_rejects_prefixes_and_superstrings() {
    assert!(!comm_is(b"Runner.Worker2\n", WORKER));
    assert!(!comm_is(b"Runner\n", WORKER));
    assert!(!comm_is(b"", WORKER));
    assert!(!comm_is(b"Runner.Listener\n", WORKER));
}

#[test]
fn parse_cgroup_path_builds_the_unified_hierarchy_path() {
    let d = b"0::/system.slice/actions.runner.IteraLabs.circadian-runner.service\n";
    assert_eq!(
        parse_cgroup_path(d).unwrap(),
        "/sys/fs/cgroup/system.slice/actions.runner.IteraLabs.circadian-runner.service/cgroup.procs"
    );
}

#[test]
fn parse_cgroup_path_rejects_root_and_v1_only_output() {
    assert!(parse_cgroup_path(b"0::/\n").is_none());
    assert!(parse_cgroup_path(b"12:pids:/user.slice\n").is_none());
    assert!(parse_cgroup_path(b"").is_none());
}

#[test]
fn state_reflects_listener_and_worker_presence() {
    let mut j = Jobs {
        cgroup: None,
        running: 0,
        listener: false,
        countdown: 0,
    };
    assert_eq!(j.state(), "offline");
    j.listener = true;
    assert_eq!(j.state(), "listening");
    j.running = 2;
    assert_eq!(j.state(), "busy");
}

#[test]
fn comm_is_stops_at_a_nul() {
    assert!(comm_is(b"Runner.Worker\0junk", WORKER));
}

#[test]
fn parse_cgroup_path_trims_and_skips_other_lines() {
    assert_eq!(
        parse_cgroup_path(b"1:name=systemd:/x\n0:: /a.slice \n").unwrap(),
        "/sys/fs/cgroup/a.slice/cgroup.procs"
    );
    assert!(parse_cgroup_path(b"0::  \n").is_none());
    assert!(parse_cgroup_path(b"0::\xff\n").is_none());
}

#[test]
fn tally_counts_workers_and_finds_the_listener() {
    let entries = vec![
        (10u64, b"Runner.Listener\n".to_vec()),
        (11u64, b"Runner.Worker\n".to_vec()),
        (12u64, b"bash\n".to_vec()),
        (13u64, b"Runner.Worker\n".to_vec()),
    ];
    assert_eq!(tally(&entries), (2, Some(10)));
    assert_eq!(tally(&Vec::new()), (0, None));
}

#[test]
fn cgroup_pids_skips_blank_and_malformed_lines() {
    assert_eq!(cgroup_pids(b"12\n34\nx\n\n56"), vec![12, 34, 56]);
}

#[test]
fn jobs_counts_every_third_tick_and_rescans_without_a_listener() {
    let mut j = Jobs::new();
    j.bootstrap(1, Some(7), Some("/sys/fs/cgroup/r/cgroup.procs".to_string()));
    assert_eq!(j.state(), "busy");
    assert!(j.tick());
    assert!(!j.tick());
    assert!(!j.tick());
    assert!(j.tick());
    assert!(!j.counted(Some((0, true))));
    assert_eq!(j.state(), "listening");
    assert!(j.counted(Some((3, false))));
    assert!(j.counted(None));
    assert_eq!(j.running, 0);
}
