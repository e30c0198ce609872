//! The control plane of the daemon.

use rustscreen::macos_host::daemon::{
    log_path, parse_command, parse_pid, permission_help, pid_path, pid_text, runtime_dir,
    start_plan, start_state, stop_plan, usage, Command, Shutdown, StartPlan, StartState,
    StopAction, StopPlan, GRACE_POLLS, KILL_POLLS,
};

#[test]
fn paths_live_under_dot_rustscreen_in_home() {
    assert_eq!(runtime_dir("/Users/me"), "/Users/me/.rustscreen");
    assert_eq!(
        pid_path("/Users/me"),
        "/Users/me/.rustscreen/rustscreen.pid"
    );
    assert_eq!(
        log_path("/Users/me"),
        "/Users/me/.rustscreen/rustscreen.log"
    );
}

#[test]
fn parse_pid_accepts_clean_positive_and_rejects_junk() {
    assert_eq!(parse_pid("12345\n"), Some(12345));
    assert_eq!(parse_pid("  678  "), Some(678));
    assert_eq!(parse_pid(""), None);
    assert_eq!(parse_pid("not-a-pid"), None);
    assert_eq!(parse_pid("0"), None);
    assert_eq!(parse_pid("-4"), None);
}

#[test]
fn write_then_read_pid_round_trips() {
    assert_eq!(pid_text(4242), "4242\n");
    assert_eq!(parse_pid(&pid_text(4242)), Some(4242));
    assert_eq!(parse_pid(&pid_text(i32::MAX)), Some(i32::MAX));
    assert_eq!(pid_text(-7), "-7\n");
    assert_eq!(pid_text(i32::MIN), "-2147483648\n");
    assert_eq!(parse_pid(&pid_text(-7)), None);
}

#[test]
fn start_state_no_pid_is_not_running() {
    assert_eq!(start_state(None, |_| true), StartState::NotRunning);
}

#[test]
fn start_state_live_pid_is_running() {
    assert_eq!(start_state(Some(99), |p| p == 99), StartState::Running(99));
}

#[test]
fn start_state_dead_pid_is_stale() {
    assert_eq!(start_state(Some(99), |_| false), StartState::Stale(99));
}

#[test]
fn parse_command_maps_known_verbs() {
    assert_eq!(parse_command(Some("start")), Command::Start);
    assert_eq!(parse_command(Some("stop")), Command::Stop);
    assert_eq!(parse_command(Some("status")), Command::Status);
    assert_eq!(parse_command(Some("__serve")), Command::Serve);
}

#[test]
fn parse_command_no_arg_or_help_is_help() {
    assert_eq!(parse_command(None), Command::Help);
    assert_eq!(parse_command(Some("--help")), Command::Help);
}

#[test]
fn parse_command_unknown_is_reported() {
    assert_eq!(
        parse_command(Some("frobnicate")),
        Command::Unknown("frobnicate".into())
    );
}

#[test]
fn permission_help_names_the_exact_settings_path() {
    let msg = permission_help();
    assert!(msg.contains("Screen & System Audio Recording"));
    assert!(msg.contains("System Settings"));
    assert!(msg.contains("Privacy & Security"));
}

#[test]
fn usage_lists_the_three_verbs() {
    let u = usage();
    assert!(u.contains("start"));
    assert!(u.contains("stop"));
    assert!(u.contains("status"));
}

#[test]
fn paths_join_with_one_separator() {
    assert_eq!(runtime_dir("/"), "/.rustscreen");
    assert_eq!(runtime_dir(""), ".rustscreen");
    assert_eq!(log_path("/home/me/"), "/home/me/.rustscreen/rustscreen.log");
}

#[test]
fn parse_pid_takes_what_a_number_may_look_like() {
    assert_eq!(parse_pid("+12"), Some(12));
    assert_eq!(parse_pid("0000000000000000000012"), Some(12));
    assert_eq!(parse_pid("2147483647"), Some(i32::MAX));
    assert_eq!(parse_pid("2147483648"), None);
    assert_eq!(parse_pid("99999999999999999999999999"), None);
    assert_eq!(parse_pid("\u{a0}\u{2003}7\r\n"), Some(7));
    assert_eq!(parse_pid("1 2"), None);
    assert_eq!(parse_pid("+"), None);
    assert_eq!(parse_pid("++1"), None);
}

#[test]
fn help_is_also_a_word_and_a_short_flag() {
    assert_eq!(parse_command(Some("help")), Command::Help);
    assert_eq!(parse_command(Some("-h")), Command::Help);
    assert_eq!(parse_command(Some("")), Command::Unknown("".into()));
}

#[test]
fn messages_match_to_the_letter() {
    assert!(usage().starts_with("rustscreen \u{2014} turn your phone"));
    assert!(usage().contains("\n    rustscreen stop      Stop the host and remove the virtual display\n"));
    assert!(permission_help().ends_with("add the app manually."));
    assert_eq!(permission_help().lines().count(), 4);
}

#[test]
fn a_process_that_does_not_end_is_forced_once() {
    let mut stop = Shutdown::new();
    let (mut waits, mut kills, mut steps) = (0, 0, 0);
    loop {
        steps += 1;
        match stop.next(true) {
            StopAction::Wait => waits += 1,
            StopAction::Kill => {
                assert_eq!(waits, GRACE_POLLS);
                kills += 1;
            }
            StopAction::Finished => break,
        }
    }
    assert_eq!((waits, kills), (GRACE_POLLS + KILL_POLLS, 1));
    assert_eq!(steps, 42);
}

#[test]
fn a_process_that_ends_is_left_alone() {
    let mut stop = Shutdown::new();
    assert_eq!(stop.next(true), StopAction::Wait);
    assert_eq!(stop.next(false), StopAction::Finished);
    assert!(!stop.killed);
}

#[test]
fn start_needs_the_permission_and_no_running_worker() {
    assert_eq!(start_plan(false, Some(9), |_| panic!("not asked")), StartPlan::RequestPermission);
    assert_eq!(start_plan(true, None, |_| panic!("not asked")), StartPlan::Spawn { stale: None });
    assert_eq!(start_plan(true, Some(9), |pid| pid == 9), StartPlan::LeaveRunning(9));
    assert_eq!(start_plan(true, Some(9), |_| false), StartPlan::Spawn { stale: Some(9) });
}

#[test]
fn stop_signals_the_whole_process_group() {
    assert_eq!(stop_plan(None, |_| panic!("not asked")), StopPlan::Nothing);
    assert_eq!(stop_plan(Some(77), |_| true), StopPlan::End { pid: 77, group: -77 });
    assert_eq!(stop_plan(Some(77), |_| false), StopPlan::Forget(77));
}

#[test]
fn a_sign_in_front_of_a_pid_is_accepted() {
    assert_eq!(parse_pid("+12"), Some(12));
    assert_eq!(parse_pid("+"), None);
}
