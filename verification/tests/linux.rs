//! Kernel isolation on Linux.
use world::linux::descriptors::{
    above_stdio, close_pass, closed_meanwhile, descriptors, next_descriptor, Listed, Pass,
};
use world::linux::holder::{
    hold_step, observed_error, parse_start_time, start_step, stop_step, HoldAction, HoldEvent,
    HoldState, Holder, Observed, StartAction, StartError, StartEvent, StartState, StopAction,
    StopError, StopEvent, StopState, Verified,
};
use world::linux::landlock::{too_old_message, write_ruleset, LandlockError};
use world::linux::listeners::{
    loopback4_address, loopback6_address, next_stage, random_port, receive_listeners,
    received_rights, rights_message, Next, NoListener, Stage,
};
use world::linux::mounts::{private_dev, Link, Node, NulInPath, Step, Tmpfs, WritableView};
use world::linux::network::{after_step, launch_steps, place, Launch, LaunchStep, Outcome, UnderDev};
use world::linux::process::{
    caught, drop_capabilities, fork_role, interrupted, join_namespaces, namespace_steps,
    network_steps, relay_exit, wait_step, world_steps, CapabilityAction, CapabilityState,
    ChildStep, Fork, IdMaps, Namespace, NamespaceStep, Relay, Role, WaitAction,
};
use world::linux::seccomp::{
    build, socket_filter, Architecture, Instruction, AND_K, JEQ_K, JGE_K, LD_W_ABS, RET_ALLOW,
    RET_EACCES, RET_EPERM, RET_K, RET_KILL_PROCESS,
};
use world::policy::{Endpoint, Policy};
use world::sys;

/// Minimal classic-BPF evaluator for the instructions of the filter, rejecting
/// out-of-range jumps like the kernel verifier.
fn run_filter(filter: &[Instruction], arch: u32, nr: u32, a0: u32, a1: u32) -> u32 {
    let (mut pc, mut acc) = (0usize, 0u32);
    loop {
        let ins = filter[pc];
        let (jt, jf) = (ins.jt as usize, ins.jf as usize);
        pc += 1;
        match ins.code {
            LD_W_ABS => {
                acc = match ins.k {
                    0 => nr,
                    4 => arch,
                    16 => a0,
                    24 => a1,
                    k => panic!("load {k}"),
                }
            }
            AND_K => acc &= ins.k,
            RET_K => return ins.k,
            JEQ_K | JGE_K => {
                let taken = if ins.code == JEQ_K { acc == ins.k } else { acc >= ins.k };
                pc += if taken { jt } else { jf };
            }
            code => panic!("opcode {code:#x}"),
        }
        assert!(pc < filter.len(), "jump beyond program end");
    }
}

#[test]
fn filter_decisions_for_both_layouts() {
    let numbers = Architecture::X86_64.call_numbers().unwrap();
    let arch = numbers.arch;
    assert_eq!(arch, 0xc000_003e);
    for x32_guard in [true, false] {
        let filter = build(numbers, x32_guard);
        let socket = libc::SYS_socket as u32;
        let eval = |arch, nr, arg0| run_filter(&filter, arch, nr, arg0, 0);
        assert_eq!(eval(arch ^ 1, socket, 0), RET_KILL_PROCESS);
        for family in [libc::AF_INET, libc::AF_INET6, libc::AF_NETLINK] {
            assert_eq!(eval(arch, socket, family as u32), RET_ALLOW);
        }
        for family in [libc::AF_UNIX, libc::AF_VSOCK, libc::AF_PACKET] {
            assert_eq!(eval(arch, socket, family as u32), 0x0005_0000 | libc::EACCES as u32);
        }
        let (socketpair, unix) = (libc::SYS_socketpair as u32, libc::AF_UNIX as u32);
        let pair = |k: i32| run_filter(&filter, arch, socketpair, unix, k as u32);
        for kind in [libc::SOCK_STREAM, libc::SOCK_SEQPACKET] {
            assert_eq!(pair(kind), RET_ALLOW);
            assert_eq!(pair(kind | libc::SOCK_CLOEXEC), RET_ALLOW);
        }
        for kind in [libc::SOCK_DGRAM, libc::SOCK_DGRAM | libc::SOCK_CLOEXEC] {
            assert_eq!(pair(kind), 0x0005_0000 | libc::EACCES as u32);
        }
        for nr in [
            libc::SYS_io_uring_setup,
            libc::SYS_keyctl,
            libc::SYS_add_key,
            libc::SYS_request_key,
        ] {
            assert_eq!(eval(arch, nr as u32, 0), 0x0005_0000 | libc::EPERM as u32);
        }
        assert_eq!(eval(arch, libc::SYS_getpid as u32, 0), RET_ALLOW);
        let x32 = eval(arch, 0x4000_0000 | socket, libc::AF_UNIX as u32);
        if x32_guard {
            assert_eq!(x32, 0x0005_0000 | libc::EPERM as u32);
        }
    }
}

#[test]
fn filters_exist_for_two_architectures() {
    let x86 = socket_filter(Architecture::X86_64).unwrap();
    assert_eq!(run_filter(&x86, 0xc000_003e, 0x4000_0029, 2, 0), RET_EPERM);
    let arm = socket_filter(Architecture::Aarch64).unwrap();
    assert_eq!(run_filter(&arm, 0xc000_00b7, 198, 1, 0), RET_EACCES);
    assert_eq!(run_filter(&arm, 0xc000_00b7, 198, 2, 0), RET_ALLOW);
    assert!(socket_filter(Architecture::Other).is_err());
}

fn paths(list: &[&str]) -> Vec<Vec<u8>> {
    list.iter().map(|p| p.as_bytes().to_vec()).collect()
}

#[test]
fn rulesets_follow_the_version() {
    let build = |abi: i64| write_ruleset(abi, &paths(&["/w", "/t"]), &paths(&["/dev/null"]));
    assert_eq!(build(-1).err(), Some(LandlockError::Unavailable));
    assert_eq!(build(0).err(), Some(LandlockError::Unavailable));
    assert_eq!(build(2).err(), Some(LandlockError::NoTruncate(2)));
    let old = build(3).unwrap_or_else(|_| panic!());
    assert_eq!((old.handled, old.scoped, old.dir_rights), (0x7ff2, 0, 0x7ff2));
    let rules: Vec<(&[u8], u64)> = old.rules.iter().map(|r| (&r.path[..], r.rights)).collect();
    assert_eq!(
        rules,
        [(&b"/w"[..], 0x7ff2), (&b"/t"[..], 0x7ff2), (&b"/dev/null"[..], 0x4002)]
    );
    let new = build(6).unwrap_or_else(|_| panic!());
    assert_eq!((new.handled, new.scoped, new.dir_rights), (0xfff2, 3, 0x7ff2));
    assert_eq!(new.rules[2].rights, 0xc002);
    assert_eq!(
        too_old_message(2),
        "Landlock ABI 2 cannot restrict truncation; Linux 6.2+ is required"
    );
}

/// One record of a directory listing.
fn record(name: &str) -> Vec<u8> {
    let len = (19 + name.len() + 1 + 7) / 8 * 8;
    let mut bytes = vec![0u8; len];
    bytes[16..18].copy_from_slice(&(len as u16).to_le_bytes());
    bytes[19..19 + name.len()].copy_from_slice(name.as_bytes());
    bytes
}

#[test]
fn listings_tell_the_open_descriptors() {
    let listing: Vec<u8> =
        [".", "..", "0", "2", "3", "7", "12x", "900", "99999999999"].iter().flat_map(|n| record(n)).collect();
    assert_eq!(descriptors(&listing, 3, 7), Some(vec![3, 900, i32::MAX]));
    assert_eq!(descriptors(&[], 3, 7), Some(vec![]));
    assert_eq!(descriptors(&listing[..listing.len() - 1], 3, 7), None);
    match next_descriptor(&listing, 0, 4, 7) {
        Listed::Descriptor { fd, next } => {
            assert_eq!(fd, 900);
            assert!(matches!(next_descriptor(&listing, next, i32::MAX, 7), Listed::Descriptor { .. }));
        }
        _ => panic!("nothing listed"),
    }
    assert!(matches!(next_descriptor(&listing, listing.len(), 0, 7), Listed::End));
    assert!(matches!(next_descriptor(&[0; 24], 0, 0, 7), Listed::Broken));
}

#[test]
fn closing_goes_on_until_nothing_is_found() {
    assert_eq!(close_pass(Ok(true)), Pass::Again);
    assert_eq!(close_pass(Ok(false)), Pass::Done);
    assert_eq!(close_pass(Err(2)), Pass::Fail(2));
    assert!(closed_meanwhile(sys::EBADF));
    assert!(!closed_meanwhile(sys::EINTR));
    assert!(above_stdio(3));
    assert!(!above_stdio(2));
}

#[test]
fn sixth_version_is_optional() {
    let mut stage = Stage::Socket4;
    for _ in 0..3 {
        stage = match next_stage(stage, true) {
            Next::To(next) => next,
            _ => panic!(),
        };
    }
    assert_eq!(stage, Stage::Socket6);
    assert_eq!(next_stage(stage, false), Next::To(Stage::Send { six: false }));
    for failed in [Stage::Only6, Stage::Bind6, Stage::Listen6] {
        assert_eq!(next_stage(failed, false), Next::CloseSix(Stage::Send { six: false }));
    }
    assert_eq!(next_stage(Stage::Listen6, true), Next::To(Stage::Send { six: true }));
    assert_eq!(next_stage(Stage::Bind4, false), Next::Fail);
    assert_eq!(next_stage(Stage::Send { six: true }, false), Next::Fail);
}

#[test]
fn loopback_addresses_are_in_network_order() {
    let four = loopback4_address(0x1234);
    assert_eq!(four[..8], [2, 0, 0x12, 0x34, 127, 0, 0, 1]);
    assert_eq!(four[8..], [0; 8]);
    let six = loopback6_address(0x1234);
    assert_eq!(six[..8], [10, 0, 0x12, 0x34, 0, 0, 0, 0]);
    assert_eq!(six[8..24], [0, 0, 0, 0, 0, 0, 0, 0, 0, 0, 0, 0, 0, 0, 0, 1]);
    assert_eq!(six[24..], [0; 4]);
}

#[test]
fn passed_listeners_come_out_as_they_went_in() {
    for fds in [vec![5], vec![5, 6], vec![0, i32::MAX]] {
        let message = rights_message(&fds);
        assert_eq!(message.len() % 8, 0);
        assert_eq!(received_rights(&message), fds);
        assert_eq!(receive_listeners(1, false, &message), Ok(fds));
        assert_eq!(receive_listeners(1, true, &message), Err(NoListener));
        assert_eq!(receive_listeners(0, false, &message), Err(NoListener));
    }
    assert_eq!(receive_listeners(1, false, &[]), Err(NoListener));
    let mut other = rights_message(&[5]);
    other[12] = 2;
    assert!(received_rights(&other).is_empty());
}

#[test]
fn ports_are_ephemeral() {
    let ports: Vec<u16> = (0..64).map(|_| random_port().unwrap()).collect();
    assert!(ports.iter().all(|p| (32768..=60999).contains(p)));
    assert!(ports.iter().any(|p| *p != ports[0]));
}

#[test]
fn view_restricts_before_it_opens() {
    let view = WritableView::new(b"/w", &paths(&["/t"])).unwrap_or_else(|_| panic!());
    assert_eq!(view.path(0).map(|p| &p[..]), Some(&b"/w"[..]));
    assert_eq!(view.path(1).map(|p| &p[..]), Some(&b"/t"[..]));
    assert!(view.path(2).is_none());
    let steps = view.steps();
    assert_eq!(
        steps[..5],
        [
            Step::NewNamespace,
            Step::MakePrivate,
            Step::RestrictAll { set: 5 },
            Step::Rebind { path: 0, clear: 1 },
            Step::Rebind { path: 1, clear: 1 }
        ]
    );
    assert_eq!(steps[5..steps.len() - 2], private_dev()[..]);
    assert_eq!(steps[steps.len() - 2..], [Step::ReopenNull, Step::ChangeDir]);
    assert_eq!(WritableView::new(b"/w\0", &[]).err(), Some(NulInPath));
    assert_eq!(WritableView::new(b"/w", &paths(&["/t\0"])).err(), Some(NulInPath));
}

#[test]
fn private_dev_holds_harmless_nodes() {
    let steps = private_dev();
    let dev = Tmpfs { flags: libc::MS_NOSUID | libc::MS_NOEXEC, mode: 0o755, size: 64 << 10 };
    let mount = steps.iter().position(|s| *s == Step::MountDev(dev)).unwrap();
    let nodes = [Node::Null, Node::Zero, Node::Full, Node::Random, Node::Urandom];
    assert_eq!(steps[..mount], nodes.map(Step::Detach));
    assert_eq!(steps[mount + 1..mount + 6], nodes.map(|node| Step::Place { node, clear: 4 }));
    let links = [Link::Fd, Link::Stdin, Link::Stdout, Link::Stderr];
    assert_eq!(steps[mount + 6..mount + 10], links.map(Step::MakeLink));
    let shm = Tmpfs { flags: libc::MS_NOSUID | libc::MS_NODEV, mode: 0o1777, size: 64 << 20 };
    let sealed = libc::MS_RDONLY | libc::MS_NOSUID | libc::MS_NOEXEC;
    let flags = libc::MS_REMOUNT | libc::MS_BIND | sealed;
    assert_eq!(steps[mount + 10..], [Step::MountShm(shm), Step::SealDev { flags }]);
}

#[test]
fn children_confine_themselves_in_order() {
    let with = network_steps(true);
    assert_eq!(with.len(), 12);
    assert_eq!(with[5], ChildStep::SendListeners);
    assert_eq!(with[11], ChildStep::PidNamespace);
    let without = network_steps(false);
    assert!(!without.contains(&ChildStep::SendListeners));
    assert_eq!(
        world_steps(),
        [ChildStep::JoinNamespaces, ChildStep::CloseDescriptors, ChildStep::PidNamespace]
    );
    assert_eq!(namespace_steps()[5], NamespaceStep::LoopbackUp);
    assert_eq!(join_namespaces(), [Namespace::User, Namespace::Network]);
}

#[test]
fn ids_map_onto_themselves() {
    let maps = IdMaps::own(1000, 0);
    assert_eq!(maps.uid.iter().collect::<String>(), "1000 1000 1\n");
    assert_eq!(maps.gid.iter().collect::<String>(), "0 0 1\n");
}

#[test]
fn ends_are_relayed() {
    assert_eq!(relay_exit(3 << 8), Relay::Exit(3));
    assert_eq!(relay_exit(0), Relay::Exit(0));
    assert_eq!(relay_exit(255 << 8), Relay::Exit(255));
    assert_eq!(relay_exit(9), Relay::Signal { signal: 9, code: 137 });
    assert_eq!(relay_exit(11 | 0x80), Relay::Signal { signal: 11, code: 139 });
    assert_eq!(wait_step(7, 7, 5 << 8, 0), WaitAction::Relay(Relay::Exit(5)));
    assert_eq!(wait_step(7, 8, 0, 0), WaitAction::Again);
    assert_eq!(wait_step(7, -1, 0, sys::EINTR), WaitAction::Again);
    assert_eq!(wait_step(7, -1, 0, 10), WaitAction::Lost);
}

#[test]
fn workload_runs_below_an_init() {
    assert_eq!(fork_role(Fork::Init, -1), Role::Fail);
    assert_eq!(fork_role(Fork::Init, 5), Role::WaitFor(5));
    assert_eq!(fork_role(Fork::Init, 0), Role::ForkAgain);
    assert_eq!(fork_role(Fork::Workload, -1), Role::Exit(125));
    assert_eq!(fork_role(Fork::Workload, 2), Role::WaitFor(2));
    assert_eq!(fork_role(Fork::Workload, 0), Role::Work);
    assert!(caught(0x1000));
    assert!(!caught(libc::SIG_DFL));
    assert!(!caught(libc::SIG_IGN));
    assert!(interrupted(libc::EINTR));
    assert!(!interrupted(libc::EIO));
}

#[test]
fn every_capability_is_dropped() {
    let (mut state, mut action) = drop_capabilities(CapabilityState::Locking, true);
    let mut dropped = Vec::new();
    while action != CapabilityAction::Done {
        let ok = match action {
            CapabilityAction::Read(cap) => cap < 41,
            CapabilityAction::Drop(cap) => {
                dropped.push(cap);
                true
            }
            _ => true,
        };
        (state, action) = drop_capabilities(state, ok);
    }
    assert_eq!(dropped, (0..41).collect::<Vec<u32>>());
    for state in [
        CapabilityState::Locking,
        CapabilityState::ClearingAmbient,
        CapabilityState::Dropping(3),
    ] {
        assert_eq!(drop_capabilities(state, false).1, CapabilityAction::Fail);
    }
}

#[test]
fn start_times_are_read_behind_the_name() {
    let fields: Vec<String> = (3..=30).map(|n| format!("{}", n * 100)).collect();
    let stat = format!("42 (a) b) {}\n", fields.join(" "));
    assert_eq!(parse_start_time(&stat), Some(2200));
    assert_eq!(parse_start_time("42 (a) 1 2 3"), None);
    assert_eq!(parse_start_time("no name"), None);
    let bad = stat.replace("2200", "22x0");
    assert_eq!(parse_start_time(&bad), None);
    let large = stat.replace("2200", "18446744073709551615");
    assert_eq!(parse_start_time(&large), Some(u64::MAX));
    let overflow = stat.replace("2200", "18446744073709551616");
    assert_eq!(parse_start_time(&overflow), None);
}

const HOLDER: Holder = Holder { pid: 7, start_time: 100, user_ns: 1, net_ns: 2 };

#[test]
fn holders_are_verified_by_identity() {
    let verify = |user, net, time| HOLDER.verify(|| user, || net, || time);
    let seen = Observed::Seen;
    assert_eq!(verify(seen(1), seen(2), seen(100)), Verified::Running);
    assert_eq!(verify(seen(9), seen(2), seen(100)), Verified::Gone);
    assert_eq!(verify(seen(1), seen(9), seen(100)), Verified::Gone);
    assert_eq!(verify(seen(1), seen(2), seen(9)), Verified::Gone);
    assert_eq!(verify(Observed::Gone, Observed::Failed, Observed::Failed), Verified::Gone);
    assert_eq!(verify(seen(1), Observed::Failed, seen(100)), Verified::Failed);
    assert_eq!(verify(seen(1), seen(2), Observed::Gone), Verified::Gone);
    let early = HOLDER.verify(|| Observed::Gone, || panic!("net"), || panic!("time"));
    assert_eq!(early, Verified::Gone);
    assert_eq!(observed_error(libc::ENOENT), Observed::Gone);
    assert_eq!(observed_error(libc::ESRCH), Observed::Gone);
    assert_eq!(observed_error(libc::EMFILE), Observed::Failed);
    assert!(HOLDER.may_reap(seen(100)));
    assert!(!HOLDER.may_reap(seen(101)));
    assert!(!HOLDER.may_reap(Observed::Gone));
}

fn start(events: &[StartEvent]) -> StartAction {
    let mut state = StartState::AwaitPid;
    let mut last = StartAction::ReadReport;
    for event in events {
        (state, last) = start_step(state, *event);
    }
    last
}

#[test]
fn holders_are_pinned_before_they_go_on() {
    let steps = [
        StartEvent::Reported(7),
        StartEvent::Pinned,
        StartEvent::Sent,
        StartEvent::Reported(0),
        StartEvent::Observed(HOLDER),
    ];
    assert_eq!(start(&steps[..1]), StartAction::Pin(7));
    assert_eq!(start(&steps[..2]), StartAction::SendPinned);
    assert_eq!(start(&steps[..3]), StartAction::ReadReport);
    assert_eq!(start(&steps[..4]), StartAction::Observe(7));
    assert_eq!(start(&steps), StartAction::Started { holder: HOLDER, pinned: true });
    let old = [steps[0], StartEvent::PinFailed(libc::ENOSYS)];
    assert_eq!(start(&old), StartAction::SendPinned);
    let fail = |error, reap| StartAction::Fail { error, reap };
    assert_eq!(
        start(&[steps[0], StartEvent::PinFailed(libc::EPERM)]),
        fail(StartError::Pin(libc::EPERM), false)
    );
    assert_eq!(start(&[StartEvent::Closed]), fail(StartError::NotStarted, false));
    assert_eq!(
        start(&[steps[0], steps[1], StartEvent::SendFailed(32)]),
        fail(StartError::Failed(32), true)
    );
    assert_eq!(
        start(&[old[0], old[1], steps[2], StartEvent::Reported(-1)]),
        fail(StartError::Failed(1), false)
    );
    assert_eq!(
        start(&[steps[0], steps[1], steps[2], StartEvent::Closed]),
        fail(StartError::NotStarted, true)
    );
    let unseen = [steps[0], steps[1], steps[2], steps[3], StartEvent::NotObserved];
    assert_eq!(start(&unseen), StartAction::Kill { pid: 7, pinned: true });
    let after = |event| start(&[unseen[0], unseen[1], unseen[2], unseen[3], unseen[4], event]);
    assert_eq!(after(StartEvent::Killed), fail(StartError::NotObserved, true));
    assert_eq!(after(StartEvent::KillFailed), fail(StartError::NotStopped(7), false));
    assert_eq!(start(&[StartEvent::Sent]), fail(StartError::Protocol, false));
}

fn hold(events: &[HoldEvent]) -> (HoldState, HoldAction) {
    let mut state = HoldState::Reporting;
    let mut last = HoldAction::Exit;
    for event in events {
        (state, last) = hold_step(state, *event);
    }
    (state, last)
}

#[test]
fn uncommitted_holder_leaves() {
    let steps = [
        HoldEvent::Sent,
        HoldEvent::Interrupted,
        HoldEvent::Byte,
        HoldEvent::Entered,
        HoldEvent::Sent,
        HoldEvent::Interrupted,
        HoldEvent::Byte,
    ];
    assert_eq!(hold(&steps[..3]).1, HoldAction::Enter);
    assert_eq!(hold(&steps[..4]).1, HoldAction::Report(0));
    assert_eq!(hold(&steps), (HoldState::Holding, HoldAction::Hold));
    for n in 0..steps.len() {
        let mut cut = steps[..n].to_vec();
        cut.push(HoldEvent::Eof);
        assert_eq!(hold(&cut), (HoldState::Gone, HoldAction::Exit));
    }
    let failed = |errno| hold(&[HoldEvent::Sent, HoldEvent::Byte, HoldEvent::EnterFailed(errno)]).1;
    assert_eq!(failed(Some(1)), HoldAction::ReportAndExit(-1));
    assert_eq!(failed(None), HoldAction::ReportAndExit(-libc::EIO));
}

fn stop(events: &[StopEvent]) -> StopAction {
    let mut state = StopState::Pinning;
    let mut last = StopAction::Verify;
    for event in events {
        (state, last) = stop_step(state, *event);
    }
    last
}

#[test]
fn only_verified_holders_are_killed() {
    let running = StopEvent::Verified(Verified::Running);
    let old = StopEvent::PinFailed(libc::ENOSYS);
    assert_eq!(stop(&[StopEvent::Pinned]), StopAction::Verify);
    assert_eq!(stop(&[StopEvent::Pinned, running]), StopAction::Kill { pinned: true });
    assert_eq!(
        stop(&[StopEvent::Pinned, running, StopEvent::Signalled]),
        StopAction::Stopped { reap: true }
    );
    assert_eq!(stop(&[old, running]), StopAction::Kill { pinned: false });
    assert_eq!(stop(&[old, running, StopEvent::Signalled]), StopAction::Stopped { reap: false });
    assert_eq!(
        stop(&[StopEvent::PinFailed(libc::EPERM)]),
        StopAction::Fail(StopError::Pin(libc::EPERM))
    );
    assert_eq!(
        stop(&[StopEvent::Pinned, StopEvent::Verified(Verified::Gone)]),
        StopAction::Fail(StopError::NotRunning)
    );
    assert_eq!(
        stop(&[StopEvent::Pinned, StopEvent::Verified(Verified::Failed)]),
        StopAction::Fail(StopError::Unknown)
    );
    assert_eq!(
        stop(&[StopEvent::Pinned, running, StopEvent::SignalFailed(1)]),
        StopAction::Fail(StopError::Signal(1))
    );
    assert_eq!(stop(&[running]), StopAction::Fail(StopError::Protocol));
}

#[test]
fn temp_directories_are_not_hidden() {
    assert_eq!(place(b"/w", b"/var/tmp"), Ok(b"/var/tmp".to_vec()));
    assert_eq!(place(b"/w", b"/dev/shm"), Ok(b"/tmp".to_vec()));
    assert_eq!(place(b"/dev/shm/w", b"/var/tmp"), Err(UnderDev));
    assert_eq!(
        UnderDev.message(),
        "workdir under /dev is not supported; use a regular filesystem"
    );
}

#[test]
fn launches_are_confined_before_they_start() {
    let policy = |n: usize| Policy {
        network_id: "n".to_string(),
        allow: (0..n).map(|_| Endpoint { host: "x".to_string(), port: 1 }).collect(),
    };
    let offline = launch_steps(&policy(0));
    assert_eq!(
        offline,
        [
            LaunchStep::Stdin,
            LaunchStep::Workdir,
            LaunchStep::Temp,
            LaunchStep::Ruleset,
            LaunchStep::Filter,
            LaunchStep::Clock,
            LaunchStep::Spawn,
            LaunchStep::Wait
        ]
    );
    let online = launch_steps(&policy(1));
    assert_eq!(online[5..7], [LaunchStep::Routes, LaunchStep::Channel]);
    assert_eq!(online[9..], [LaunchStep::Serve, LaunchStep::Wait, LaunchStep::Close]);
    assert_eq!(after_step(Outcome::Done), Launch::Continue);
    assert_eq!(after_step(Outcome::Late), Launch::Return(124));
    assert_eq!(after_step(Outcome::Failed), Launch::Fail);
}
