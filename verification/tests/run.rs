//! Executions: options, standard input, supervision and the macOS profile.
use world::policy::{Endpoint, Policy, PolicyError};
use world::run::seatbelt::{sandbox_arguments, seatbelt_profile, ProfileError};
use world::run::stdin::{
    check_sigchld, check_stdin, is_null_device, isolated_stdin, relay_source, relay_step,
    stdin_is_socket, stdin_needs_relay, stdin_writes_storage, Input, RelayAction, RelayEvent,
    RelaySource, RelayState, Source, StdinError,
};
use world::run::supervise::{
    before_start, first_drained, first_end, is_confirmation, return_code, wait, Drained, End,
    Output, Status, Supervision, WaitError, WaitEvent, WaitState,
};
use world::run::{
    environment, run, validate_command, workdir, CommandError, Platform, RunError, RunOptions,
    Timeout, WorkdirError,
};
use world::sys;

const MINUTE: Timeout = Timeout { secs: 60, nanos: 0 };

fn command(words: &[&str]) -> Vec<Vec<u8>> {
    words.iter().map(|w| w.as_bytes().to_vec()).collect()
}

fn options(words: &[&str], timeout: Timeout, host: &str) -> RunOptions {
    RunOptions {
        policy: Policy {
            network_id: "n".to_string(),
            allow: vec![Endpoint { host: host.to_string(), port: 80 }],
        },
        workdir: b"/w".to_vec(),
        command: command(words),
        timeout,
    }
}

#[test]
fn commands_need_a_program_and_a_time_limit() {
    let day = Timeout { secs: 86400, nanos: 0 };
    assert_eq!(validate_command(&command(&["a"]), day), Ok(()));
    assert_eq!(validate_command(&command(&["a"]), Timeout { secs: 0, nanos: 1 }), Ok(()));
    assert_eq!(validate_command(&[], day), Err(CommandError::CommandRequired));
    assert_eq!(validate_command(&command(&[""]), day), Err(CommandError::CommandRequired));
    for timeout in [Timeout { secs: 0, nanos: 0 }, Timeout { secs: 86400, nanos: 1 }] {
        let refused = validate_command(&command(&["a"]), timeout);
        assert_eq!(refused, Err(CommandError::TimeoutOutOfRange));
    }
    assert_eq!(CommandError::CommandRequired.message(), "command required");
    assert_eq!(
        CommandError::TimeoutOutOfRange.message(),
        "timeout must be positive and at most 24h"
    );
}

#[test]
fn workspaces_are_dedicated_directories() {
    let dir = |p: &str| Some(p.as_bytes().to_vec());
    assert_eq!(workdir(dir("/home/u/w"), true, dir("/home/u")), Ok(b"/home/u/w".to_vec()));
    assert_eq!(workdir(dir("/w"), true, None), Ok(b"/w".to_vec()));
    assert_eq!(workdir(None, true, None), Err(WorkdirError::Unresolved));
    assert_eq!(workdir(dir("/w"), false, None), Err(WorkdirError::NotDirectory));
    for bad in ["/", "/home/u", "/home"] {
        assert_eq!(workdir(dir(bad), true, dir("/home/u")), Err(WorkdirError::NotDedicated));
    }
    assert_eq!(WorkdirError::NotDedicated.message(), "workdir must be a dedicated workspace");
}

#[test]
fn faults_are_reported_in_order() {
    let good = options(&["a"], MINUTE, "x");
    assert!(run(&good, false, 0, Ok(false), Platform::Linux).is_ok());
    assert!(run(&good, false, 0, Ok(false), Platform::Mac).is_ok());
    let none = run(&good, false, 0, Ok(false), Platform::Other).unwrap_err();
    assert_eq!(
        none.message(),
        Some("network isolation backend requires macOS or Linux; refusing unsandboxed execution")
    );
    let writable = run(&good, false, 0, Ok(true), Platform::Other).unwrap_err();
    assert_eq!(
        writable.message(),
        Some("writable file stdin is not allowed; open it read-only or use a pipe")
    );
    assert!(matches!(run(&good, false, 0, Err(5), Platform::Linux), Err(RunError::Stdin(5))));
    let (nocldwait, other) = (libc::SA_NOCLDWAIT, libc::SA_NOCLDSTOP | libc::SA_RESTART);
    for (ignored, flags) in [(true, 0), (false, nocldwait), (false, nocldwait | other)] {
        let lost = run(&good, ignored, flags, Ok(true), Platform::Linux).unwrap_err();
        assert_eq!(
            lost.message(),
            Some("SIGCHLD must not be ignored; exit statuses would be lost")
        );
    }
    assert!(run(&good, false, other, Ok(false), Platform::Linux).is_ok());
    // Elsewhere nothing depends on how children end.
    for (ignored, flags) in [(true, 0), (false, 0x2), (false, 0x20), (true, 0x22)] {
        assert!(run(&good, ignored, flags, Ok(false), Platform::Mac).is_ok());
        assert!(matches!(
            run(&good, ignored, flags, Ok(false), Platform::Other),
            Err(RunError::NoBackend)
        ));
    }
    let idle = options(&[], MINUTE, "x");
    assert!(matches!(
        run(&idle, true, 0, Ok(true), Platform::Linux),
        Err(RunError::Command(CommandError::CommandRequired))
    ));
    let open = options(&[], MINUTE, "*");
    assert!(matches!(
        run(&open, false, 0, Ok(true), Platform::Linux),
        Err(RunError::Policy(PolicyError::Host(_)))
    ));
}

#[test]
fn environment_is_built_from_nothing() {
    let list = |env: Vec<world::run::Setting>| -> Vec<(String, String)> {
        env.into_iter()
            .map(|s| (s.name.to_string(), String::from_utf8(s.value).unwrap()))
            .collect()
    };
    let own = list(environment(Platform::Linux, b"/w", b"/t", None));
    let expected = [
        ("PATH", "/usr/local/bin:/usr/bin:/bin:/usr/sbin:/sbin"),
        ("HOME", "/t"),
        ("TMPDIR", "/t"),
        ("PWD", "/w"),
        ("LANG", "C.UTF-8"),
        ("NO_PROXY", ""),
        ("no_proxy", ""),
    ];
    assert_eq!(own, expected.map(|(k, v)| (k.to_string(), v.to_string())));
    let mac = list(environment(Platform::Mac, b"/w", b"/t", Some("http://p")));
    assert_eq!(mac.len(), 13);
    assert_eq!(mac[4], ("LANG".to_string(), "en_US.UTF-8".to_string()));
    for (i, name) in ["http_proxy", "https_proxy", "HTTP_PROXY", "HTTPS_PROXY", "ALL_PROXY", "all_proxy"]
        .into_iter()
        .enumerate()
    {
        assert_eq!(mac[7 + i], (name.to_string(), "http://p".to_string()));
    }
}

#[test]
fn standard_input_is_told_apart() {
    let closed = Err(sys::EBADF);
    assert_eq!(stdin_needs_relay(closed, Ok(0)), Ok(false));
    assert_eq!(stdin_needs_relay(Err(5), Ok(0)), Err(5));
    assert_eq!(stdin_needs_relay(Ok(sys::S_IFSOCK | 0o777), Ok(0)), Ok(false));
    assert_eq!(stdin_needs_relay(Ok(sys::S_IFIFO), Ok(sys::PIPEFS_MAGIC)), Ok(false));
    assert_eq!(stdin_needs_relay(Ok(sys::S_IFIFO), Ok(0xef53)), Ok(true));
    assert_eq!(stdin_needs_relay(Ok(sys::S_IFIFO), Err(22)), Err(22));
    assert_eq!(stdin_needs_relay(Ok(sys::S_IFREG), Err(22)), Ok(true));
    assert_eq!(stdin_writes_storage(closed, Ok(2)), Ok(false));
    assert_eq!(stdin_writes_storage(Err(5), Ok(2)), Err(5));
    assert_eq!(stdin_writes_storage(Ok(sys::S_IFREG), Ok(0)), Ok(false));
    assert_eq!(stdin_writes_storage(Ok(sys::S_IFREG), Ok(1)), Ok(true));
    assert_eq!(stdin_writes_storage(Ok(sys::S_IFBLK), Ok(2 | libc::O_NONBLOCK)), Ok(true));
    assert_eq!(stdin_writes_storage(Ok(sys::S_IFBLK), Err(9)), Err(9));
    assert_eq!(stdin_writes_storage(Ok(sys::S_IFCHR), Ok(2)), Ok(false));
    assert_eq!(stdin_is_socket(Ok(sys::S_IFSOCK)), Ok(true));
    assert_eq!(stdin_is_socket(Ok(sys::S_IFIFO)), Ok(false));
    assert_eq!(check_stdin(closed), Ok(()));
    assert_eq!(check_stdin(Ok(sys::S_IFSOCK)), Err(StdinError::Socket));
    assert_eq!(check_stdin(Err(5)), Err(StdinError::Failed(5)));
    assert_eq!(StdinError::Socket.message(), Some("socket stdin is not allowed; use a pipe"));
    assert!(is_null_device(libc::makedev(1, 3)));
    assert!(!is_null_device(libc::makedev(1, 5)));
}

#[test]
fn isolated_executions_read_a_pipe_null_or_nothing() {
    let input = |mode: u32, device: u64, magic: u32, flags: i32| {
        isolated_stdin(Ok(Input { mode, device, filesystem: Ok(magic), flags: Ok(flags) }))
    };
    let pipe = sys::PIPEFS_MAGIC;
    assert_eq!(isolated_stdin(Err(sys::EBADF)), Ok(Source::Closed));
    assert_eq!(isolated_stdin(Err(5)), Err(StdinError::Failed(5)));
    assert_eq!(input(sys::S_IFIFO, 0, pipe, 0), Ok(Source::Pipe));
    assert_eq!(input(sys::S_IFIFO, 0, pipe, 1), Err(StdinError::Unsupported));
    assert_eq!(input(sys::S_IFIFO, 0, 0xef53, 0), Err(StdinError::Unsupported));
    assert_eq!(input(sys::S_IFCHR, sys::NULL_DEVICE, 0, 2), Ok(Source::Null));
    assert_eq!(input(sys::S_IFCHR, 0x500, 0, 0), Err(StdinError::Unsupported));
    assert_eq!(input(sys::S_IFREG, sys::NULL_DEVICE, 0, 0), Err(StdinError::Unsupported));
    assert_eq!(input(sys::S_IFSOCK, 0, 0, 0), Err(StdinError::Socket));
}

#[test]
fn lost_statuses_are_refused() {
    for platform in [Platform::Mac, Platform::Linux, Platform::Other] {
        assert!(check_sigchld(false, 0, platform).is_ok());
        assert!(check_sigchld(true, 0, platform).is_err());
    }
    assert!(check_sigchld(false, libc::SA_NOCLDWAIT | 4, Platform::Linux).is_err());
    // What Linux calls SA_NOCLDWAIT is SA_RESTART on macOS.
    assert!(check_sigchld(false, 0x2, Platform::Mac).is_ok());
    assert!(check_sigchld(false, 0x20, Platform::Mac).is_err());
    assert!(check_sigchld(false, 0x22, Platform::Mac).is_err());
    assert!(check_sigchld(false, 0x20, Platform::Linux).is_ok());
}

#[test]
fn shared_inputs_are_reopened() {
    let flags = libc::O_RDONLY | libc::O_NONBLOCK | libc::O_NOCTTY | libc::O_CLOEXEC;
    assert_eq!(relay_source(sys::S_IFIFO, Platform::Linux), RelaySource::Reopen(flags));
    assert_eq!(relay_source(sys::S_IFCHR, Platform::Linux), RelaySource::Reopen(flags));
    assert_eq!(relay_source(sys::S_IFREG, Platform::Linux), RelaySource::Duplicate);
    assert_eq!(relay_source(sys::S_IFIFO, Platform::Mac), RelaySource::Reopen(0x0102_0004));
    assert_eq!(relay_source(sys::S_IFREG, Platform::Mac), RelaySource::Duplicate);
}

#[test]
fn relay_copies_until_told_to_stop() {
    let mut state = RelayState::Polling;
    let mut actions = Vec::new();
    for event in [
        RelayEvent::PollFailed(sys::EINTR),
        RelayEvent::Polled { woken: false },
        RelayEvent::ReadFailed(libc::EAGAIN),
        RelayEvent::Polled { woken: false },
        RelayEvent::Read(7),
        RelayEvent::Written,
        RelayEvent::Polled { woken: true },
    ] {
        let (next, action) = relay_step(Platform::Linux, state, event);
        state = next;
        actions.push(action);
    }
    assert_eq!(
        actions,
        [
            RelayAction::Poll,
            RelayAction::Read,
            RelayAction::Poll,
            RelayAction::Read,
            RelayAction::Write(7),
            RelayAction::Poll,
            RelayAction::Stop
        ]
    );
    assert_eq!(relay_step(Platform::Linux, state, RelayEvent::Read(1)).1, RelayAction::Stop);
    for event in [RelayEvent::Read(0), RelayEvent::ReadFailed(5), RelayEvent::Cancelled] {
        assert_eq!(relay_step(Platform::Linux, RelayState::Reading, event).1, RelayAction::Stop);
    }
    assert_eq!(relay_step(Platform::Linux, RelayState::Writing(1), RelayEvent::WriteFailed).1, RelayAction::Stop);
    let taken = RelayEvent::ReadFailed(35);
    assert_eq!(relay_step(Platform::Mac, RelayState::Reading, taken).1, RelayAction::Poll);
    assert_eq!(relay_step(Platform::Linux, RelayState::Reading, taken).1, RelayAction::Stop);
}

const EXIT_3: Status = Status { code: Some(3), signal: None };
const KILLED: Status = Status { code: None, signal: Some(9) };

fn supervise(events: &[WaitEvent]) -> Supervision {
    let mut state = WaitState::Running;
    let mut last = None;
    for event in events {
        let (next, action) = wait(state, *event);
        state = next;
        last = Some(action);
    }
    last.unwrap()
}

#[test]
fn codes_follow_the_shell() {
    assert_eq!(return_code(Some(EXIT_3)), 3);
    assert_eq!(return_code(Some(KILLED)), 137);
    assert_eq!(return_code(Some(Status { code: None, signal: None })), 128);
    assert_eq!(return_code(None), 124);
    assert_eq!(before_start(false, false), None);
    assert_eq!(before_start(true, false), Some(124));
    assert_eq!(before_start(false, true), Some(124));
}

#[test]
fn what_stops_a_workload_goes_first() {
    assert_eq!(first_end(false, false, false, None), None);
    assert_eq!(first_end(false, false, false, Some(Ok(EXIT_3))), Some(End::Exited(EXIT_3)));
    assert_eq!(first_end(false, true, false, Some(Ok(EXIT_3))), Some(End::Stopped));
    assert_eq!(first_end(false, false, true, Some(Ok(EXIT_3))), Some(End::Stopped));
    assert_eq!(first_end(true, false, false, None), Some(End::Stopped));
    assert_eq!(first_end(false, false, false, Some(Err(10))), Some(End::Lost));
    assert_eq!(first_drained(false, false, None), None);
    assert_eq!(first_drained(true, false, Some(Drained::Forwarded)), Some(Drained::Stopped));
    assert_eq!(first_drained(false, false, Some(Drained::TaskLost)), Some(Drained::TaskLost));
}

#[test]
fn status_is_returned_once_output_is_forwarded() {
    let exited = [
        WaitEvent::Ended(End::Exited(KILLED)),
        WaitEvent::Closed,
        WaitEvent::Drained(Drained::Forwarded),
        WaitEvent::Drained(Drained::Forwarded),
        WaitEvent::Confirmed(None),
    ];
    assert_eq!(supervise(&exited[..1]), Supervision::Close { kill: false });
    assert_eq!(supervise(&exited[..2]), Supervision::Drain(Output::Stdout));
    assert_eq!(supervise(&exited[..3]), Supervision::Drain(Output::Stderr));
    assert_eq!(supervise(&exited[..4]), Supervision::Confirm);
    assert_eq!(supervise(&exited), Supervision::Return(137));
}

#[test]
fn stopped_workload_times_out() {
    let stopped = [
        WaitEvent::Ended(End::Stopped),
        WaitEvent::Closed,
        WaitEvent::GraceOver { forwarded: false },
        WaitEvent::Aborted,
        WaitEvent::GraceOver { forwarded: true },
        WaitEvent::Confirmed(Some(true)),
    ];
    assert_eq!(supervise(&stopped[..1]), Supervision::Close { kill: true });
    assert_eq!(supervise(&stopped[..3]), Supervision::Abort(Output::Stdout));
    assert_eq!(supervise(&stopped[..4]), Supervision::Grace(Output::Stderr));
    assert_eq!(supervise(&stopped), Supervision::Return(124));
    let late = [
        WaitEvent::Ended(End::Exited(EXIT_3)),
        WaitEvent::Closed,
        WaitEvent::Drained(Drained::Forwarded),
        WaitEvent::Drained(Drained::Stopped),
        WaitEvent::GraceOver { forwarded: true },
        WaitEvent::Confirmed(None),
    ];
    assert_eq!(supervise(&late), Supervision::Return(124));
}

#[test]
fn failures_of_supervision_have_their_errors() {
    let drained = |d: Drained| {
        supervise(&[WaitEvent::Ended(End::Exited(EXIT_3)), WaitEvent::Closed, WaitEvent::Drained(d)])
    };
    assert_eq!(drained(Drained::TaskLost), Supervision::Fail(WaitError::TaskLost));
    assert_eq!(drained(Drained::ForwardFailed), Supervision::Fail(WaitError::ForwardFailed));
    assert_eq!(
        supervise(&[WaitEvent::Ended(End::Lost)]),
        Supervision::Fail(WaitError::StatusLost)
    );
    let confirm = wait(WaitState::Confirming(Some(EXIT_3)), WaitEvent::Confirmed(Some(false)));
    assert_eq!(confirm.1, Supervision::Fail(WaitError::NotConfirmed));
    assert_eq!(
        WaitError::NotConfirmed.message(),
        "silo injection was not confirmed; this executable is unsupported"
    );
    assert_eq!(
        wait(WaitState::Running, WaitEvent::Closed).1,
        Supervision::Fail(WaitError::Protocol)
    );
    assert!(is_confirmation(b"world-silo-v1"));
    assert!(!is_confirmation(b"world-silo-v1\n"));
    assert!(!is_confirmation(b""));
}

#[test]
fn profile_quotes_its_paths() {
    let profile = seatbelt_profile(Some("/w/\"a\\\n\u{1}\u{7f}"), Some("/t"), Some(8080)).unwrap();
    let expected = "(version 1)\n(allow default)\n(deny network*)\n(deny mach-lookup)\n\
        (deny mach-register)\n(deny ipc-posix*)\n(deny ipc-sysv*)\n(deny process-info*)\n\
        (allow process-info* (target self))\n(deny signal)\n\
        (allow signal (target same-sandbox))\n(deny file-write*)\n\
        (allow file-write* (subpath \"/w/\\\"a\\\\\\n\\u0001\u{7f}\") (subpath \"/t\") \
        (literal \"/dev/null\"))\n\
        (allow network-outbound (remote tcp \"localhost:8080\"))\n";
    assert_eq!(profile, expected);
    let offline = seatbelt_profile(Some("/w"), Some("/t"), None).unwrap();
    assert!(offline.ends_with("(subpath \"/w\") (subpath \"/t\") (literal \"/dev/null\"))\n"));
    assert_eq!(seatbelt_profile(None, Some("/t"), None), Err(ProfileError::NotText));
    assert_eq!(seatbelt_profile(Some("/w"), None, None), Err(ProfileError::NotText));
}

#[test]
fn quoting_escapes_what_json_escapes() {
    for c in (0u32..128).filter_map(char::from_u32) {
        let text = c.to_string();
        let profile = seatbelt_profile(Some(&text), Some("t"), None).unwrap();
        let quoted = serde_json::to_string(&text).unwrap();
        assert!(profile.contains(&format!("(subpath {quoted}) (subpath")), "{c:?}");
    }
}

#[test]
fn command_is_passed_as_arguments() {
    let args = sandbox_arguments("(p)", &command(&["sh", "-c", "x; y"]));
    assert_eq!(args.len(), 10);
    assert_eq!(args[0], b"-c");
    assert!(args[1].starts_with(b"\nfor file in /dev/fd/*; do\n"));
    assert!(args[1].ends_with(b"done\nexec \"$@\"\n"));
    assert_eq!(args[2], b"world-fd-guard");
    assert_eq!(args[3], b"/usr/bin/sandbox-exec");
    assert_eq!(args[4], b"-p");
    assert_eq!(args[5], b"(p)");
    assert_eq!(args[6], b"--");
    assert_eq!(args[9], b"x; y");
}
