//! Worlds: creation, lifecycle and execution.
use world::linux::holder::{Holder, Verified};
use world::run::{CommandError, Platform, Timeout, WorkdirError};
use world::silo::exec::{
    exec, injected_environment, program_places, resolve_executable, world_environment, ExecError,
    ProgramError, Variable,
};
use world::silo::lifecycle::{
    alias_arguments, alias_step, setup, teardown, AliasStep, SetupAction, SetupError, SetupEvent,
    SetupState, TeardownAction, TeardownError, TeardownEvent, TeardownState,
};
use world::silo::{
    allocate, create, default_state_dir, holder, inspect, valid_id, CreateError, InspectError,
    Place, World,
};
use world::table::Table;

fn place(dir: &str) -> Place {
    Place { dir: Some(dir.as_bytes().to_vec()), is_dir: true, home: Some(b"/home/u".to_vec()) }
}

fn free(_: [u8; 4]) -> bool {
    false
}

fn world(id: &str, ip: [u8; 4]) -> World {
    World { id: id.to_string(), ip, workdir: b"/w".to_vec() }
}

#[test]
fn allocation_serializes_world_identity() {
    let mut worlds = Table::new();
    let mut ips = Vec::new();
    for _ in 0..8 {
        ips.push(create(&mut worlds, true, "A", place("/w"), &free).map(|w| w.ip));
    }
    assert!(ips.iter().all(|ip| *ip == Ok([127, 77, 0, 1])));
    let other = create(&mut worlds, true, "B", place("/w"), &free).unwrap_or_else(|_| panic!());
    assert_eq!(other.ip, [127, 77, 0, 2]);
    assert_eq!(worlds.len(), 2);
    let elsewhere = create(&mut worlds, true, "A", place("/another"), &free);
    assert_eq!(elsewhere.err(), Some(CreateError::OtherWorkdir));
    assert_eq!(worlds.len(), 2);
}

#[test]
fn faults_keep_the_registry_as_it_is() {
    let mut worlds = Table::new();
    let mut refused = |supported: bool, id: &str, place: Place| {
        create(&mut worlds, supported, id, place, &free).err()
    };
    assert_eq!(refused(false, "", place("/")), Some(CreateError::NoBackend));
    assert_eq!(refused(true, "", place("/")), Some(CreateError::InvalidId));
    assert_eq!(
        refused(true, "A", place("/home")),
        Some(CreateError::Workdir(WorkdirError::NotDedicated))
    );
    let missing = Place { dir: None, is_dir: false, home: None };
    assert_eq!(refused(true, "A", missing), Some(CreateError::Workdir(WorkdirError::Unresolved)));
    assert_eq!(worlds.len(), 0);
    assert_eq!(CreateError::InvalidId.message(), "invalid World ID");
    assert_eq!(CreateError::PoolExhausted.message(), "World address pool exhausted");
    assert_eq!(CreateError::OtherWorkdir.message(), "World already belongs to another workdir");
}

#[test]
fn identifiers_are_short_single_lines() {
    assert!(valid_id("A"));
    assert!(valid_id(&"x".repeat(128)));
    assert!(valid_id(&"\u{e9}".repeat(64)));
    for bad in ["", "a\nb", "a\rb", "a\0b"] {
        assert!(!valid_id(bad));
    }
    assert!(!valid_id(&"x".repeat(129)));
    assert!(!valid_id(&"\u{e9}".repeat(65)));
}

#[test]
fn addresses_are_taken_in_order() {
    let mut worlds = Table::new();
    worlds.insert("A".to_string(), world("A", [127, 77, 0, 1]));
    worlds.insert("B".to_string(), world("B", [127, 77, 0, 3]));
    assert_eq!(allocate(&worlds, &free), Some([127, 77, 0, 2]));
    let low = |ip: [u8; 4]| ip[2] == 0;
    assert_eq!(allocate(&worlds, &low), Some([127, 77, 1, 0]));
    let all_but_last = |ip: [u8; 4]| ip != [127, 77, 255, 254];
    assert_eq!(allocate(&worlds, &all_but_last), Some([127, 77, 255, 254]));
    let busy = |_: [u8; 4]| true;
    assert_eq!(allocate(&worlds, &busy), None);
    let full = create(&mut worlds, true, "C", place("/w"), &busy);
    assert_eq!(full.err(), Some(CreateError::PoolExhausted));
    assert_eq!(worlds.len(), 2);
}

#[test]
fn entries_are_checked_when_read() {
    let mut worlds = Table::new();
    let made = create(&mut worlds, true, "A", place("/w"), &free).unwrap_or_else(|_| panic!());
    let found = inspect(&worlds, "A").unwrap_or_else(|_| panic!());
    assert_eq!((found.id, found.ip, found.workdir), (made.id, made.ip, made.workdir));
    assert_eq!(inspect(&worlds, "B").err(), Some(InspectError::Unknown));
    worlds.insert("B".to_string(), world("A", [127, 77, 0, 9]));
    assert_eq!(inspect(&worlds, "B").err(), Some(InspectError::Invalid));
    worlds.insert("C".to_string(), world("C", [127, 0, 0, 9]));
    assert_eq!(inspect(&worlds, "C").err(), Some(InspectError::Invalid));
    assert_eq!(InspectError::Unknown.message(), "unknown World; create it first");
    assert_eq!(InspectError::Invalid.message(), "invalid World registry entry");
}

#[test]
fn state_is_kept_below_home() {
    assert_eq!(
        default_state_dir(Some(b"/home/u")),
        Some(b"/home/u/.local/share/world/silo".to_vec())
    );
    assert_eq!(default_state_dir(None), None);
}

const HOLDER: Holder = Holder { pid: 7, start_time: 1, user_ns: 2, net_ns: 3 };

#[test]
fn recorded_holders_are_found() {
    let mut holders = Table::new();
    assert_eq!(holder(&holders, "A"), None);
    holders.insert("A".to_string(), HOLDER);
    assert_eq!(holder(&holders, "A"), Some(HOLDER));
}

fn set_up(events: &[SetupEvent]) -> Vec<SetupAction> {
    let mut state = SetupState::Reading;
    events
        .iter()
        .map(|event| {
            let (next, action) = setup(state, *event);
            state = next;
            action
        })
        .collect()
}

#[test]
fn setup_starts_records_and_commits() {
    assert_eq!(
        set_up(&[
            SetupEvent::Found(None),
            SetupEvent::Started(HOLDER),
            SetupEvent::Recorded,
            SetupEvent::Committed
        ]),
        [
            SetupAction::Start,
            SetupAction::Record(HOLDER),
            SetupAction::Commit,
            SetupAction::Succeed
        ]
    );
    assert_eq!(
        set_up(&[SetupEvent::Found(Some(HOLDER)), SetupEvent::Verified(Verified::Running)]),
        [SetupAction::Verify(HOLDER), SetupAction::Succeed]
    );
    assert_eq!(
        set_up(&[
            SetupEvent::Found(Some(HOLDER)),
            SetupEvent::Verified(Verified::Gone),
            SetupEvent::Reaped
        ]),
        [SetupAction::Verify(HOLDER), SetupAction::Reap(HOLDER), SetupAction::Start]
    );
}

#[test]
fn setup_failures_leave_no_unrecorded_holder() {
    let last = |events: &[SetupEvent]| set_up(events).pop().unwrap();
    let recording = [SetupEvent::Found(None), SetupEvent::Started(HOLDER), SetupEvent::RecordFailed];
    assert_eq!(last(&recording), SetupAction::StopUnrecorded(HOLDER));
    let stop = |event: SetupEvent| last(&[recording[0], recording[1], recording[2], event]);
    assert_eq!(stop(SetupEvent::Stopped), SetupAction::Fail(SetupError::NotRecorded));
    assert_eq!(stop(SetupEvent::StopFailed), SetupAction::Fail(SetupError::NotStopped(7)));
    assert_eq!(
        last(&[SetupEvent::Found(None), SetupEvent::StartFailed]),
        SetupAction::Fail(SetupError::NotStarted)
    );
    assert_eq!(
        last(&[SetupEvent::Found(Some(HOLDER)), SetupEvent::Verified(Verified::Failed)]),
        SetupAction::Fail(SetupError::Unverified)
    );
    assert_eq!(
        setup(SetupState::Committing, SetupEvent::CommitFailed).1,
        SetupAction::Fail(SetupError::NotCommitted)
    );
    assert_eq!(
        setup(SetupState::Reading, SetupEvent::Committed).1,
        SetupAction::Fail(SetupError::Protocol)
    );
}

fn tear_down(events: &[TeardownEvent]) -> TeardownAction {
    let mut state = TeardownState::Reading;
    let mut last = None;
    for event in events {
        let (next, action) = teardown(state, *event);
        state = next;
        last = Some(action);
    }
    last.unwrap()
}

#[test]
fn teardown_forgets_only_what_is_stopped() {
    let found = TeardownEvent::Found(Some(HOLDER));
    let running = TeardownEvent::Verified(Verified::Running);
    assert_eq!(tear_down(&[TeardownEvent::Found(None)]), TeardownAction::Succeed);
    assert_eq!(tear_down(&[found]), TeardownAction::Verify(HOLDER));
    assert_eq!(tear_down(&[found, running]), TeardownAction::Stop(HOLDER));
    assert_eq!(
        tear_down(&[found, running, TeardownEvent::StopFailed]),
        TeardownAction::Fail(TeardownError::NotStopped)
    );
    assert_eq!(tear_down(&[found, running, TeardownEvent::Stopped]), TeardownAction::Forget);
    assert_eq!(
        tear_down(&[found, running, TeardownEvent::Stopped, TeardownEvent::Forgotten]),
        TeardownAction::Succeed
    );
    assert_eq!(
        tear_down(&[found, running, TeardownEvent::Stopped, TeardownEvent::ForgetFailed]),
        TeardownAction::Fail(TeardownError::NotForgotten)
    );
    let gone = TeardownEvent::Verified(Verified::Gone);
    assert_eq!(tear_down(&[found, gone]), TeardownAction::Reap(HOLDER));
    assert_eq!(tear_down(&[found, gone, TeardownEvent::Reaped]), TeardownAction::Forget);
    assert_eq!(
        tear_down(&[found, TeardownEvent::Verified(Verified::Failed)]),
        TeardownAction::Fail(TeardownError::Unverified)
    );
    assert_eq!(
        tear_down(&[TeardownEvent::Stopped]),
        TeardownAction::Fail(TeardownError::Protocol)
    );
}

#[test]
fn aliases_are_added_once() {
    assert_eq!(alias_step(true, None), AliasStep::Ready);
    assert_eq!(alias_step(false, None), AliasStep::Add);
    assert_eq!(alias_step(true, Some(true)), AliasStep::Ready);
    assert_eq!(alias_step(false, Some(true)), AliasStep::Failed);
    assert_eq!(alias_step(true, Some(false)), AliasStep::Failed);
    assert_eq!(
        alias_arguments([127, 77, 1, 2]),
        ["/sbin/ifconfig", "lo0", "alias", "127.77.1.2", "netmask", "255.0.0.0"]
    );
}

#[test]
fn executions_in_a_world_are_checked() {
    let minute = Timeout { secs: 60, nanos: 0 };
    let command = [b"a".to_vec()];
    assert_eq!(exec(&command, minute, false, 0, Platform::Linux), Ok(()));
    assert_eq!(
        exec(&[], minute, true, 0, Platform::Other),
        Err(ExecError::Command(CommandError::CommandRequired))
    );
    assert_eq!(exec(&command, minute, true, 0, Platform::Other), Err(ExecError::StatusLost));
    assert_eq!(exec(&command, minute, false, 2, Platform::Linux), Err(ExecError::StatusLost));
    assert_eq!(exec(&command, minute, false, 0x2, Platform::Mac), Ok(()));
    assert_eq!(exec(&command, minute, false, 0x20, Platform::Mac), Err(ExecError::StatusLost));
    assert_eq!(exec(&command, minute, true, 0, Platform::Mac), Err(ExecError::StatusLost));
    assert_eq!(exec(&command, minute, false, 0x20, Platform::Linux), Ok(()));
    assert_eq!(exec(&command, minute, false, 0, Platform::Other), Err(ExecError::NoBackend));
    assert_eq!(
        ExecError::NoBackend.message(),
        "silo backend requires macOS or Linux; refusing unisolated execution"
    );
}

fn variables(list: &[(&str, &str)]) -> Vec<Variable> {
    list.iter()
        .map(|(k, v)| Variable { name: k.as_bytes().to_vec(), value: v.as_bytes().to_vec() })
        .collect()
}

fn shown(env: &[Variable]) -> Vec<(&str, &str)> {
    env.iter()
        .map(|v| (core::str::from_utf8(&v.name).unwrap(), core::str::from_utf8(&v.value).unwrap()))
        .collect()
}

#[test]
fn world_is_named_in_the_environment() {
    let caller = variables(&[("A", "1"), ("WORLD_ID", "old"), ("DYLD_X", "2"), ("SILO_IP", "3")]);
    let env = world_environment(&caller, "W");
    assert_eq!(shown(&env), [("A", "1"), ("DYLD_X", "2"), ("SILO_IP", "3"), ("WORLD_ID", "W")]);
    let injected = injected_environment(&caller, b"/lib", [127, 77, 0, 1], b"/ack", "W");
    assert_eq!(
        shown(&injected),
        [
            ("A", "1"),
            ("DYLD_INSERT_LIBRARIES", "/lib"),
            ("SILO_IP", "127.77.0.1"),
            ("SILO_CONNECT", "1"),
            ("WORLD_SILO_ACTIVE", "1"),
            ("WORLD_SILO_ACK", "/ack"),
            ("WORLD_ID", "W")
        ]
    );
}

#[test]
fn programs_are_looked_for_along_the_path() {
    let find = |name: &str, search: &str| -> (bool, Vec<String>) {
        let (along, places) = program_places(name.as_bytes(), b"/w", search.as_bytes());
        (along, places.into_iter().map(|p| String::from_utf8(p).unwrap()).collect())
    };
    assert_eq!(find("/bin/x", "/a"), (false, vec!["/bin/x".to_string()]));
    assert_eq!(find("sub/x", "/a"), (false, vec!["/w/sub/x".to_string()]));
    assert_eq!(
        find("x", "/a::b"),
        (true, vec!["/a/x".to_string(), "/w/x".to_string(), "/w/b/x".to_string()])
    );
    assert_eq!(find("x", ""), (true, vec!["/w/x".to_string()]));
}

#[test]
fn programs_that_refuse_injection_are_told() {
    let mut native = [0u8; 32];
    native[..4].copy_from_slice(&0xfeed_facfu32.to_le_bytes());
    assert_eq!(resolve_executable(b"/opt/x", 0o755, &native), Ok(()));
    for magic in [0xfeed_faceu32, 0xbeba_feca, 0xcafe_babe] {
        native[..4].copy_from_slice(&magic.to_le_bytes());
        assert_eq!(resolve_executable(b"/usr/local/bin/x", 0o755, &native), Ok(()));
    }
    for path in ["/bin/sh", "/sbin/x", "/usr/bin/env", "/usr/sbin/x", "/System/x"] {
        let refused = resolve_executable(path.as_bytes(), 0o4755, &[]);
        assert_eq!(refused, Err(ProgramError::Protected), "{path}");
    }
    assert_eq!(resolve_executable(b"/opt/x", 0o4755, &native), Err(ProgramError::Privileged));
    assert_eq!(resolve_executable(b"/opt/x", 0o2755, &native), Err(ProgramError::Privileged));
    assert_eq!(resolve_executable(b"/opt/x", 0o755, &native[..27]), Err(ProgramError::Script));
    assert_eq!(
        resolve_executable(b"/opt/x", 0o755, b"#!/bin/sh\necho this is a script\n"),
        Err(ProgramError::Script)
    );
    assert_eq!(resolve_executable(b"/opt/x", 0o755, &[1; 32]), Err(ProgramError::Format));
    assert_eq!(
        ProgramError::Protected.message(),
        ("SIP-protected executable unsupported: ", "; use a non-SIP toolchain")
    );
}
