//! The processes around an execution: in what order they are confined, and how
//! they relay its end.
use vstd::prelude::*;
use crate::sys::{EINTR, SIG_DFL, SIG_IGN};
use crate::text::{decimal, joined, lemma_joined, lemma_numeral_without, parts, push_numeral};

verus! {

/// One step of confining the child before it becomes the workload.
#[derive(Clone, Copy, Debug, PartialEq, Eq, Structural)]
pub enum ChildStep {
    /// Keep the caller's signal handlers from running in the child.
    ResetHandlers,
    /// New user and network namespaces.
    NewNamespaces,
    /// Own System V IPC and POSIX message queues.
    NewIpc,
    /// The read-only view of the file system.
    ReadOnlyView,
    /// Grant writes beneath the private `/dev/shm`.
    AllowShm,
    /// Hand the proxy's listeners to the supervisor.
    SendListeners,
    /// No descriptor beyond stdio survives.
    CloseDescriptors,
    NoNewPrivileges,
    /// Enforce the Landlock ruleset.
    Landlock,
    /// No capabilities, even for a caller that is root.
    DropCapabilities,
    /// Install the system call filter.
    Filter,
    /// Join the namespaces that a World's holder keeps.
    JoinNamespaces,
    /// A process namespace of its own, under a minimal init.
    PidNamespace,
}

/// The steps of an execution with a private network namespace.
pub open spec fn network_steps_of(proxy: bool) -> Seq<ChildStep> {
    seq![
        ChildStep::ResetHandlers,
        ChildStep::NewNamespaces,
        ChildStep::NewIpc,
        ChildStep::ReadOnlyView,
        ChildStep::AllowShm,
    ] + (if proxy {
        seq![ChildStep::SendListeners]
    } else {
        Seq::empty()
    }) + seq![
        ChildStep::CloseDescriptors,
        ChildStep::NoNewPrivileges,
        ChildStep::Landlock,
        ChildStep::DropCapabilities,
        ChildStep::Filter,
        ChildStep::PidNamespace,
    ]
}

/// The steps of an execution with a private network namespace.
pub fn network_steps(proxy: bool) -> (r: Vec<ChildStep>)
    ensures
        r@ == network_steps_of(proxy),
{
    let mut steps: Vec<ChildStep> = Vec::new();
    steps.push(ChildStep::ResetHandlers);
    steps.push(ChildStep::NewNamespaces);
    steps.push(ChildStep::NewIpc);
    steps.push(ChildStep::ReadOnlyView);
    steps.push(ChildStep::AllowShm);
    if proxy {
        steps.push(ChildStep::SendListeners);
    }
    steps.push(ChildStep::CloseDescriptors);
    steps.push(ChildStep::NoNewPrivileges);
    steps.push(ChildStep::Landlock);
    steps.push(ChildStep::DropCapabilities);
    steps.push(ChildStep::Filter);
    steps.push(ChildStep::PidNamespace);
    proof {
        assert(steps@ =~= network_steps_of(proxy));
    }
    steps
}

/// The steps of an execution in a World's namespaces.
pub open spec fn world_steps_of() -> Seq<ChildStep> {
    seq![ChildStep::JoinNamespaces, ChildStep::CloseDescriptors, ChildStep::PidNamespace]
}

/// The steps of an execution in a World's namespaces.
pub fn world_steps() -> (r: Vec<ChildStep>)
    ensures
        r@ == world_steps_of(),
{
    let mut steps: Vec<ChildStep> = Vec::new();
    steps.push(ChildStep::JoinNamespaces);
    steps.push(ChildStep::CloseDescriptors);
    steps.push(ChildStep::PidNamespace);
    proof {
        assert(steps@ =~= world_steps_of());
    }
    steps
}

/// `a` comes before `b`.
pub open spec fn precedes(steps: Seq<ChildStep>, a: ChildStep, b: ChildStep) -> bool {
    exists|i: int, j: int|
        0 <= i < j < steps.len() && #[trigger] steps[i] == a && #[trigger] steps[j] == b
}

/// Every step stands once, so that what comes before another comes only before
/// it.
pub open spec fn once(steps: Seq<ChildStep>) -> bool {
    forall|i: int, j: int|
        0 <= i < j < steps.len() ==> #[trigger] steps[i] != #[trigger] steps[j]
}

/// The order that the kernel and the restrictions need: privileges are given up
/// before Landlock and the filter are enforced, what the filter would refuse is
/// done before it, the listeners are handed over while their channel is open,
/// `/dev/shm` is granted once it is there and before the ruleset is enforced,
/// and the workload's process namespace comes last.
pub proof fn law_network_order(proxy: bool)
    ensures
        ({
            let s = network_steps_of(proxy);
            &&& once(s)
            &&& s.last() == ChildStep::PidNamespace
            &&& precedes(s, ChildStep::ResetHandlers, ChildStep::NewNamespaces)
            &&& precedes(s, ChildStep::NewNamespaces, ChildStep::ReadOnlyView)
            &&& precedes(s, ChildStep::ReadOnlyView, ChildStep::AllowShm)
            &&& precedes(s, ChildStep::AllowShm, ChildStep::Landlock)
            &&& precedes(s, ChildStep::NoNewPrivileges, ChildStep::Landlock)
            &&& precedes(s, ChildStep::NoNewPrivileges, ChildStep::Filter)
            &&& precedes(s, ChildStep::DropCapabilities, ChildStep::Filter)
            &&& proxy ==> precedes(s, ChildStep::SendListeners, ChildStep::CloseDescriptors)
            &&& proxy ==> precedes(s, ChildStep::NewNamespaces, ChildStep::SendListeners)
            &&& !proxy ==> !s.contains(ChildStep::SendListeners)
        }),
{
    let s = network_steps_of(proxy);
    let k: int = if proxy {
        1
    } else {
        0
    };
    assert(s[0] == ChildStep::ResetHandlers);
    assert(s[1] == ChildStep::NewNamespaces);
    assert(s[3] == ChildStep::ReadOnlyView);
    assert(s[4] == ChildStep::AllowShm);
    assert(proxy ==> s[5] == ChildStep::SendListeners);
    assert(s[5 + k] == ChildStep::CloseDescriptors);
    assert(s[6 + k] == ChildStep::NoNewPrivileges);
    assert(s[7 + k] == ChildStep::Landlock);
    assert(s[8 + k] == ChildStep::DropCapabilities);
    assert(s[9 + k] == ChildStep::Filter);
    assert(s.len() == 11 + k);
}

/// One step of making the user and network namespaces.
#[derive(Clone, Copy, Debug, PartialEq, Eq, Structural)]
pub enum NamespaceStep {
    /// New user and network namespaces.
    Unshare,
    /// `setgroups`: `deny`. The kernel asks for it before the group map.
    DenySetgroups,
    /// `uid_map`.
    MapUser,
    /// `gid_map`.
    MapGroup,
    /// Allow ordinary ports below 1024.
    UnprivilegedPorts,
    /// Bring the loopback interface up.
    LoopbackUp,
}

/// The steps of making the user and network namespaces.
pub fn namespace_steps() -> (r: [NamespaceStep; 6])
    ensures
        r@ == seq![
            NamespaceStep::Unshare,
            NamespaceStep::DenySetgroups,
            NamespaceStep::MapUser,
            NamespaceStep::MapGroup,
            NamespaceStep::UnprivilegedPorts,
            NamespaceStep::LoopbackUp,
        ],
{
    let r = [
        NamespaceStep::Unshare,
        NamespaceStep::DenySetgroups,
        NamespaceStep::MapUser,
        NamespaceStep::MapGroup,
        NamespaceStep::UnprivilegedPorts,
        NamespaceStep::LoopbackUp,
    ];
    proof {
        assert(r@ =~= seq![
            NamespaceStep::Unshare,
            NamespaceStep::DenySetgroups,
            NamespaceStep::MapUser,
            NamespaceStep::MapGroup,
            NamespaceStep::UnprivilegedPorts,
            NamespaceStep::LoopbackUp,
        ]);
    }
    r
}

/// The maps of the caller's own ids into a new user namespace.
pub struct IdMaps {
    pub uid: Vec<char>,
    pub gid: Vec<char>,
}

/// The map of one id onto itself.
pub open spec fn id_map(id: nat) -> Seq<char> {
    decimal(id) + seq![' '] + decimal(id) + seq![' ', '1', '\n']
}

fn own_map(id: u32) -> (r: Vec<char>)
    ensures
        r@ == id_map(id as nat),
{
    let mut t: Vec<char> = Vec::new();
    push_numeral(&mut t, id as u64, 10);
    t.push(' ');
    push_numeral(&mut t, id as u64, 10);
    t.push(' ');
    t.push('1');
    t.push('\n');
    proof {
        assert(t@ =~= id_map(id as nat));
    }
    t
}

impl IdMaps {
    /// The maps of a user and a group onto themselves.
    pub fn own(uid: u32, gid: u32) -> (r: IdMaps)
        ensures
            r.uid@ == id_map(uid as nat),
            r.gid@ == id_map(gid as nat),
    {
        IdMaps { uid: own_map(uid), gid: own_map(gid) }
    }
}

/// `WIFSIGNALED` tells whether a process was ended by a signal: the low seven
/// bits of its status are neither zero nor all ones.
#[verifier::external_body]
fn ended_by_signal(status: i32) -> (r: bool)
    ensures
        r == (1 <= status & 0x7f <= 126),
{
    libc::WIFSIGNALED(status)
}

/// `WTERMSIG` is the low seven bits of a status.
#[verifier::external_body]
fn ending_signal(status: i32) -> (r: i32)
    ensures
        r == status & 0x7f,
{
    libc::WTERMSIG(status)
}

/// `WEXITSTATUS` is the next eight bits of a status.
#[verifier::external_body]
fn exit_code(status: i32) -> (r: i32)
    ensures
        r == (status >> 8) & 0xff,
{
    libc::WEXITSTATUS(status)
}

/// How to end like a child did.
#[derive(Clone, Copy, Debug, PartialEq, Eq, Structural)]
pub enum Relay {
    /// By the same signal; where a namespace's init cannot signal itself, with
    /// `code`.
    Signal { signal: i32, code: i32 },
    /// With its code.
    Exit(i32),
}

/// How to end like the child with this status did.
pub open spec fn relayed(status: i32) -> Relay {
    if 1 <= status & 0x7f <= 126 {
        Relay::Signal { signal: status & 0x7f, code: (128 + (status & 0x7f)) as i32 }
    } else {
        Relay::Exit((status >> 8) & 0xff)
    }
}

/// How to end like the child with this wait status did. A namespace's init
/// cannot signal itself, so it falls back to 128 and the signal.
pub fn relay_exit(status: i32) -> (r: Relay)
    ensures
        r == relayed(status),
{
    if ended_by_signal(status) {
        let signal = ending_signal(status);
        Relay::Signal { signal, code: 128 + signal }
    } else {
        Relay::Exit(exit_code(status))
    }
}

/// The code of a supervisor that lost its child.
pub const LOST: i32 = 125;

/// What a process that waits for `child` does next.
#[derive(Clone, Copy, Debug, PartialEq, Eq, Structural)]
pub enum WaitAction {
    /// End like the child did.
    Relay(Relay),
    /// Wait again: another process was reaped, or a signal came in between.
    Again,
    /// End with [`LOST`].
    Lost,
}

/// What follows a wait for any process: `pid` is what it returned, `status`
/// that process's status, and `errno` the error where `pid` is negative.
pub fn wait_step(child: i32, pid: i32, status: i32, errno: i32) -> (r: WaitAction)
    ensures
        r == if pid == child {
            WaitAction::Relay(relayed(status))
        } else if pid < 0 && errno != EINTR {
            WaitAction::Lost
        } else {
            WaitAction::Again
        },
        r == WaitAction::Lost <==> pid != child && pid < 0 && errno != 4,
{
    if pid == child {
        WaitAction::Relay(relay_exit(status))
    } else if pid < 0 && errno != EINTR {
        WaitAction::Lost
    } else {
        WaitAction::Again
    }
}

/// Whether a signal has a handler of the caller's. It must not run in a forked
/// child; what is ignored stays ignored.
pub fn caught(handler: usize) -> (r: bool)
    ensures
        r == (handler != SIG_DFL && handler != SIG_IGN),
        r <==> handler >= 2,
{
    handler != SIG_DFL && handler != SIG_IGN
}

/// Whether a call that a signal interrupted is to be made again.
pub fn interrupted(errno: i32) -> (r: bool)
    ensures
        r == (errno == EINTR),
        r <==> errno == 4,
{
    errno == EINTR
}

/// A namespace that is joined.
#[derive(Clone, Copy, Debug, PartialEq, Eq, Structural)]
pub enum Namespace {
    User,
    Network,
}

/// The namespaces in the order in which they are joined: the user namespace
/// grants the capability that the network namespace asks for.
pub fn join_namespaces() -> (r: [Namespace; 2])
    ensures
        r@ == seq![Namespace::User, Namespace::Network],
{
    let r = [Namespace::User, Namespace::Network];
    proof {
        assert(r@ =~= seq![Namespace::User, Namespace::Network]);
    }
    r
}

/// The two forks that put a workload below an init of its own.
#[derive(Clone, Copy, Debug, PartialEq, Eq, Structural)]
pub enum Fork {
    Init,
    Workload,
}

/// What a process does after a fork.
#[derive(Clone, Copy, Debug, PartialEq, Eq, Structural)]
pub enum Role {
    /// Report the failure.
    Fail,
    /// Exit with a code.
    Exit(i32),
    /// Wait for the child, and exit like it.
    WaitFor(i32),
    /// Fork once more.
    ForkAgain,
    /// Become the workload.
    Work,
}

/// What a process does after a fork that returned `pid` to it.
pub open spec fn forked(fork: Fork, pid: i32) -> Role {
    match fork {
        Fork::Init => if pid < 0 {
            Role::Fail
        } else if pid != 0 {
            Role::WaitFor(pid)
        } else {
            Role::ForkAgain
        },
        Fork::Workload => if pid < 0 {
            Role::Exit(LOST)
        } else if pid != 0 {
            Role::WaitFor(pid)
        } else {
            Role::Work
        },
    }
}

/// What a process does after a fork that returned `pid` to it.
pub fn fork_role(fork: Fork, pid: i32) -> (r: Role)
    ensures
        r == forked(fork, pid),
{
    match fork {
        Fork::Init => if pid < 0 {
            Role::Fail
        } else if pid != 0 {
            Role::WaitFor(pid)
        } else {
            Role::ForkAgain
        },
        Fork::Workload => if pid < 0 {
            Role::Exit(LOST)
        } else if pid != 0 {
            Role::WaitFor(pid)
        } else {
            Role::Work
        },
    }
}

/// Only the child of both forks becomes the workload: its parent is the init,
/// and every other process waits or exits.
pub proof fn law_workload_below_init(init: i32, workload: i32)
    ensures
        forked(Fork::Init, init) != Role::Work,
        forked(Fork::Init, init) == Role::ForkAgain <==> init == 0,
        forked(Fork::Workload, workload) == Role::Work <==> workload == 0,
{
}

/// Root gains no capabilities by exec, and cannot take that back.
pub const SECURE_BITS: u64 = 3;

/// How far capabilities were given up.
#[derive(Clone, Copy, Debug, PartialEq, Eq, Structural)]
pub enum CapabilityState {
    Locking,
    ClearingAmbient,
    /// Whether there is a capability with this number.
    Reading(u32),
    Dropping(u32),
    Done,
}

/// What is done next to give capabilities up.
#[derive(Clone, Copy, Debug, PartialEq, Eq, Structural)]
pub enum CapabilityAction {
    ClearAmbient,
    Read(u32),
    /// Take it from the bounding set.
    Drop(u32),
    Done,
    Fail,
}

/// What is done next to give capabilities up, after a step that succeeded or
/// not. The first number that cannot be read is past the last capability.
pub open spec fn given_up(state: CapabilityState, ok: bool) -> (CapabilityState, CapabilityAction) {
    match state {
        CapabilityState::Locking => if ok {
            (CapabilityState::ClearingAmbient, CapabilityAction::ClearAmbient)
        } else {
            (CapabilityState::Done, CapabilityAction::Fail)
        },
        CapabilityState::ClearingAmbient => if ok {
            (CapabilityState::Reading(0), CapabilityAction::Read(0))
        } else {
            (CapabilityState::Done, CapabilityAction::Fail)
        },
        CapabilityState::Reading(cap) => if ok {
            (CapabilityState::Dropping(cap), CapabilityAction::Drop(cap))
        } else {
            (CapabilityState::Done, CapabilityAction::Done)
        },
        CapabilityState::Dropping(cap) => if !ok {
            (CapabilityState::Done, CapabilityAction::Fail)
        } else if cap == u32::MAX {
            (CapabilityState::Done, CapabilityAction::Done)
        } else {
            (CapabilityState::Reading((cap + 1) as u32), CapabilityAction::Read((cap + 1) as u32))
        },
        CapabilityState::Done => (CapabilityState::Done, CapabilityAction::Done),
    }
}

/// What is done next to give capabilities up.
pub fn drop_capabilities(state: CapabilityState, ok: bool) -> (r: (
    CapabilityState,
    CapabilityAction,
))
    ensures
        r == given_up(state, ok),
{
    match state {
        CapabilityState::Locking => if ok {
            (CapabilityState::ClearingAmbient, CapabilityAction::ClearAmbient)
        } else {
            (CapabilityState::Done, CapabilityAction::Fail)
        },
        CapabilityState::ClearingAmbient => if ok {
            (CapabilityState::Reading(0), CapabilityAction::Read(0))
        } else {
            (CapabilityState::Done, CapabilityAction::Fail)
        },
        CapabilityState::Reading(cap) => if ok {
            (CapabilityState::Dropping(cap), CapabilityAction::Drop(cap))
        } else {
            (CapabilityState::Done, CapabilityAction::Done)
        },
        CapabilityState::Dropping(cap) => if !ok {
            (CapabilityState::Done, CapabilityAction::Fail)
        } else if cap == u32::MAX {
            (CapabilityState::Done, CapabilityAction::Done)
        } else {
            (CapabilityState::Reading(cap + 1), CapabilityAction::Read(cap + 1))
        },
        CapabilityState::Done => (CapabilityState::Done, CapabilityAction::Done),
    }
}

/// Where giving capabilities up has come after some steps.
pub open spec fn given_up_after(results: Seq<bool>) -> CapabilityState
    decreases results.len(),
{
    if results.len() == 0 {
        CapabilityState::Locking
    } else {
        given_up(given_up_after(results.drop_last()), results.last()).0
    }
}

/// What the last step led to.
pub open spec fn given_up_last(results: Seq<bool>) -> CapabilityAction
    recommends
        results.len() > 0,
{
    given_up(given_up_after(results.drop_last()), results.last()).1
}

/// By the time a number is asked for, every capability below it was dropped.
pub proof fn law_every_capability_dropped(results: Seq<bool>, cap: u32, below: u32)
    requires
        given_up_after(results) == CapabilityState::Reading(cap),
        below < cap,
    ensures
        exists|i: int|
            0 < i < results.len() && #[trigger] given_up_last(results.take(i))
                == CapabilityAction::Drop(below) && results[i],
    decreases results.len(),
{
    let before = results.drop_last();
    let state = given_up_after(before);
    match state {
        CapabilityState::ClearingAmbient => {
            assert(cap == 0);
        },
        CapabilityState::Dropping(last) => {
            assert(last + 1 == cap);
            let earlier = before.drop_last();
            assert(given_up_after(earlier) == CapabilityState::Reading(last));
            if below == last {
                let i = results.len() - 1;
                assert(results.take(i) =~= before);
                assert(given_up_last(results.take(i)) == CapabilityAction::Drop(below));
                assert(results[i]);
            } else {
                law_every_capability_dropped(earlier, last, below);
                let i = choose|i: int|
                    0 < i < earlier.len() && #[trigger] given_up_last(earlier.take(i))
                        == CapabilityAction::Drop(below) && earlier[i];
                assert(results.take(i) =~= earlier.take(i));
                assert(given_up_last(results.take(i)) == CapabilityAction::Drop(below));
                assert(results[i]);
            }
        },
        _ => {},
    }
}

/// What a process that has ended leaves is passed on: its own exit code, or the
/// signal that ended it and 128 more than its number.
pub proof fn law_status_is_relayed(code: i32, signal: i32, dumped: bool)
    requires
        0 <= code <= 255,
        1 <= signal <= 126,
    ensures
        relayed((code * 256) as i32) == Relay::Exit(code),
        relayed((signal + if dumped {
            128int
        } else {
            0
        }) as i32) == (Relay::Signal { signal, code: (128 + signal) as i32 }),
{
    assert((code * 256) as i32 & 0x7f == 0 && ((code * 256) as i32 >> 8) & 0xff == code)
        by (bit_vector)
        requires
            0 <= code <= 255,
    ;
    assert(signal & 0x7f == signal) by (bit_vector)
        requires
            1 <= signal <= 126,
    ;
    assert((signal + 128) as i32 & 0x7f == signal) by (bit_vector)
        requires
            1 <= signal <= 126,
    ;
}

/// One user is mapped to itself, and no other: the line says the identifier
/// twice, and how many it is for.
pub proof fn law_id_map_is_one_line(id: nat)
    ensures
        parts(id_map(id), ' ') == seq![decimal(id), decimal(id), seq!['1', '\n']],
{
    let ps = seq![decimal(id), decimal(id), seq!['1', '\n']];
    lemma_numeral_without(id, 10, ' ');
    assert(!ps[0].contains(' ') && !ps[1].contains(' ') && !ps[2].contains(' '));
    lemma_joined(ps, ' ');
    let two = ps.drop_first();
    assert(two =~= seq![decimal(id), seq!['1', '\n']]);
    let one = two.drop_first();
    assert(one =~= seq![seq!['1', '\n']]);
    reveal_with_fuel(joined, 4);
    assert(joined(ps, ' ') =~= id_map(id));
}

/// Whoever forks waits for its child, and no child waits for itself; the first
/// child forks again, and the second does the work. A first fork that fails is an
/// error; a second ends in 125.
pub proof fn law_forks_wait_for_children(pid: i32)
    ensures
        pid > 0 ==> forked(Fork::Init, pid) == Role::WaitFor(pid) && forked(Fork::Workload, pid)
            == Role::WaitFor(pid),
        pid == 0 ==> forked(Fork::Init, pid) == Role::ForkAgain && forked(Fork::Workload, pid)
            == Role::Work,
        pid < 0 ==> forked(Fork::Init, pid) == Role::Fail && forked(Fork::Workload, pid)
            == Role::Exit(125),
{
}

/// A child in a World joins its namespaces before anything else, and enters a
/// process namespace last.
pub proof fn law_world_steps_join_first()
    ensures
        world_steps_of().len() == 3,
        world_steps_of()[0] == ChildStep::JoinNamespaces,
        world_steps_of()[1] == ChildStep::CloseDescriptors,
        world_steps_of()[2] == ChildStep::PidNamespace,
{
}

/// Privileges are given up one by one as long as the kernel knows a further one,
/// and all are given up where nothing fails.
pub proof fn law_giving_up_succeeds(n: nat)
    requires
        n <= u32::MAX,
    ensures
        given_up_after(Seq::new(2 + 2 * n, |i: int| true)) == CapabilityState::Reading(n as u32),
        given_up_last(Seq::new(2 + 2 * n, |i: int| true).push(false)) == CapabilityAction::Done,
        n > 0 ==> given_up_last(Seq::new((1 + 2 * n) as nat, |i: int| true))
            == CapabilityAction::Drop((n - 1) as u32),
    decreases n,
{
    let all = Seq::new(2 + 2 * n, |i: int| true);
    if n == 0 {
        reveal_with_fuel(given_up_after, 3);
        assert(all.drop_last().drop_last() =~= Seq::empty());
    } else {
        law_giving_up_succeeds((n - 1) as nat);
        let less = Seq::new((2 * n) as nat, |i: int| true);
        assert(Seq::new(2 + 2 * ((n - 1) as nat), |i: int| true) =~= less);
        let odd = Seq::new((1 + 2 * n) as nat, |i: int| true);
        assert(odd.drop_last() =~= less);
        assert(odd.last());
        assert(all.drop_last() =~= odd);
        assert(all.last());
        assert(given_up_after(odd) == CapabilityState::Dropping((n - 1) as u32));
    }
    assert(all.push(false).drop_last() =~= all);
}

/// A child with a network of its own takes every step but that of joining a
/// World, and hands listeners over where there is a proxy; what separates it from
/// the host comes before what restricts it, and no descriptor is left for the
/// workload.
pub proof fn law_network_steps_are_complete(proxy: bool, step: ChildStep)
    ensures
        ({
            let s = network_steps_of(proxy);
            &&& s.contains(step) <==> step != ChildStep::JoinNamespaces && (step
                == ChildStep::SendListeners ==> proxy)
            &&& precedes(s, ChildStep::NewNamespaces, ChildStep::NewIpc)
            &&& precedes(s, ChildStep::NewIpc, ChildStep::ReadOnlyView)
            &&& precedes(s, ChildStep::AllowShm, ChildStep::CloseDescriptors)
            &&& precedes(s, ChildStep::CloseDescriptors, ChildStep::Landlock)
            &&& precedes(s, ChildStep::Landlock, ChildStep::DropCapabilities)
            &&& precedes(s, ChildStep::Filter, ChildStep::PidNamespace)
        }),
{
    let s = network_steps_of(proxy);
    let k: int = if proxy {
        1
    } else {
        0
    };
    assert(s[0] == ChildStep::ResetHandlers);
    assert(s[1] == ChildStep::NewNamespaces);
    assert(s[2] == ChildStep::NewIpc);
    assert(s[3] == ChildStep::ReadOnlyView);
    assert(s[4] == ChildStep::AllowShm);
    assert(proxy ==> s[5] == ChildStep::SendListeners);
    assert(s[5 + k] == ChildStep::CloseDescriptors);
    assert(s[6 + k] == ChildStep::NoNewPrivileges);
    assert(s[7 + k] == ChildStep::Landlock);
    assert(s[8 + k] == ChildStep::DropCapabilities);
    assert(s[9 + k] == ChildStep::Filter);
    assert(s[10 + k] == ChildStep::PidNamespace);
    assert(s.len() == 11 + k);
}

} // verus!
