//! How an execution with a network namespace of its own is launched.
use vstd::prelude::*;
use vstd::utf8::encode_utf8;
use crate::bytes::copied;
use crate::path::{are_entry_names, is_within, law_within_by_names, within};
use crate::policy::Policy;
use crate::run::supervise::TIMED_OUT;
use crate::tmp_path::host::{rendered, slashed};

verus! {

/// The directory lies under `/dev`, which a private one hides.
#[derive(Clone, Copy, Debug, PartialEq, Eq, Structural)]
pub struct UnderDev;

impl UnderDev {
    /// The error in words.
    pub fn message(self) -> (r: &'static str)
        ensures
            r@ == "workdir under /dev is not supported; use a regular filesystem"@,
    {
        "workdir under /dev is not supported; use a regular filesystem"
    }
}

/// Where the private temp directory is made: where temporary files go, unless
/// that is hidden.
pub open spec fn temp_parent(usual: Seq<u8>) -> Seq<u8> {
    if is_within(usual, encode_utf8("/dev"@)) {
        encode_utf8("/tmp"@)
    } else {
        usual
    }
}

/// Where the private temp directory of an execution in `dir` is made, given the
/// canonical name of where temporary files go.
pub fn place(dir: &[u8], usual: &[u8]) -> (r: Result<Vec<u8>, UnderDev>)
    ensures
        if is_within(dir@, encode_utf8("/dev"@)) {
            r is Err
        } else {
            r is Ok && r->Ok_0@ == temp_parent(usual@)
        },
{
    let dev = "/dev".as_bytes();
    if within(dir, dev) {
        return Err(UnderDev);
    }
    if within(usual, dev) {
        Ok(copied("/tmp".as_bytes()))
    } else {
        Ok(copied(usual))
    }
}

/// One step of launching an execution.
#[derive(Clone, Copy, Debug, PartialEq, Eq, Structural)]
pub enum LaunchStep {
    /// Take hold of standard input, before anything else is opened.
    Stdin,
    Workdir,
    /// Make the private temp directory.
    Temp,
    /// Build the Landlock ruleset.
    Ruleset,
    /// Build the system call filter.
    Filter,
    /// Pin the destinations of the policy.
    Routes,
    /// Make the channel that the proxy's listeners come through.
    Channel,
    /// Look whether there is time left.
    Clock,
    /// Start the workload, which confines itself.
    Spawn,
    /// Take the proxy's listeners, and serve them.
    Serve,
    /// Wait for the workload's end.
    Wait,
    /// Close the proxy.
    Close,
}

/// The steps of an execution that may reach something, or nothing.
pub open spec fn launch_steps_of(proxy: bool) -> Seq<LaunchStep> {
    seq![
        LaunchStep::Stdin,
        LaunchStep::Workdir,
        LaunchStep::Temp,
        LaunchStep::Ruleset,
        LaunchStep::Filter,
    ] + (if proxy {
        seq![
            LaunchStep::Routes,
            LaunchStep::Channel,
            LaunchStep::Clock,
            LaunchStep::Spawn,
            LaunchStep::Serve,
            LaunchStep::Wait,
            LaunchStep::Close,
        ]
    } else {
        seq![LaunchStep::Clock, LaunchStep::Spawn, LaunchStep::Wait]
    })
}

/// The steps of an execution under a policy: a proxy serves it only where the
/// policy allows anything.
pub fn launch_steps(policy: &Policy) -> (r: Vec<LaunchStep>)
    ensures
        r@ == launch_steps_of(policy.allow@.len() > 0),
{
    let proxy = policy.allow.len() > 0;
    let mut steps: Vec<LaunchStep> = Vec::new();
    steps.push(LaunchStep::Stdin);
    steps.push(LaunchStep::Workdir);
    steps.push(LaunchStep::Temp);
    steps.push(LaunchStep::Ruleset);
    steps.push(LaunchStep::Filter);
    if proxy {
        steps.push(LaunchStep::Routes);
        steps.push(LaunchStep::Channel);
    }
    steps.push(LaunchStep::Clock);
    steps.push(LaunchStep::Spawn);
    if proxy {
        steps.push(LaunchStep::Serve);
    }
    steps.push(LaunchStep::Wait);
    if proxy {
        steps.push(LaunchStep::Close);
    }
    proof {
        assert(steps@ =~= launch_steps_of(proxy));
    }
    steps
}

/// How a step ended.
#[derive(Clone, Copy, Debug, PartialEq, Eq, Structural)]
pub enum Outcome {
    Done,
    /// The execution was cancelled or ran out of time.
    Late,
    Failed,
}

/// What follows a step.
#[derive(Clone, Copy, Debug, PartialEq, Eq, Structural)]
pub enum Launch {
    /// Take the next step.
    Continue,
    Return(i32),
    /// Report the step's error.
    Fail,
}

/// What follows a step.
pub open spec fn launched(outcome: Outcome) -> Launch {
    match outcome {
        Outcome::Done => Launch::Continue,
        Outcome::Late => Launch::Return(TIMED_OUT),
        Outcome::Failed => Launch::Fail,
    }
}

/// What follows a step.
pub fn after_step(outcome: Outcome) -> (r: Launch)
    ensures
        r == launched(outcome),
{
    match outcome {
        Outcome::Done => Launch::Continue,
        Outcome::Late => Launch::Return(TIMED_OUT),
        Outcome::Failed => Launch::Fail,
    }
}

/// How many steps are taken before one does not succeed.
pub open spec fn steps_taken(outcomes: Seq<Outcome>) -> nat
    decreases outcomes.len(),
{
    if outcomes.len() == 0 || launched(outcomes[0]) != Launch::Continue {
        0
    } else {
        1 + steps_taken(outcomes.skip(1))
    }
}

proof fn lemma_steps_taken(outcomes: Seq<Outcome>, i: int)
    requires
        0 <= i < outcomes.len(),
        i < steps_taken(outcomes),
    ensures
        outcomes[i] == Outcome::Done,
    decreases outcomes.len(),
{
    if i > 0 {
        lemma_steps_taken(outcomes.skip(1), i - 1);
        assert(outcomes.skip(1)[i - 1] == outcomes[i]);
    }
}

/// Nothing runs unless everything that confines it is ready: the workload is
/// started only after standard input was checked, the directory and the temp
/// directory were found, the ruleset and the filter were built, and there was
/// time left; and it is never started twice.
pub proof fn law_never_unsandboxed(proxy: bool, outcomes: Seq<Outcome>, i: int)
    requires
        outcomes.len() == launch_steps_of(proxy).len(),
        0 <= i < outcomes.len(),
        launch_steps_of(proxy)[i] == LaunchStep::Spawn,
        i <= steps_taken(outcomes),
    ensures
        outcomes[0] == Outcome::Done,
        outcomes[1] == Outcome::Done,
        outcomes[2] == Outcome::Done,
        outcomes[3] == Outcome::Done,
        outcomes[4] == Outcome::Done,
        launch_steps_of(proxy)[i - 1] == LaunchStep::Clock,
        outcomes[i - 1] == Outcome::Done,
        forall|j: int|
            0 <= j < outcomes.len() && #[trigger] launch_steps_of(proxy)[j] == LaunchStep::Spawn
                ==> j == i,
{
    let s = launch_steps_of(proxy);
    let k: int = if proxy {
        2
    } else {
        0
    };
    assert(s[6 + k] == LaunchStep::Spawn);
    assert(s[5 + k] == LaunchStep::Clock);
    assert(i == 6 + k);
    lemma_steps_taken(outcomes, 0);
    lemma_steps_taken(outcomes, 1);
    lemma_steps_taken(outcomes, 2);
    lemma_steps_taken(outcomes, 3);
    lemma_steps_taken(outcomes, 4);
    lemma_steps_taken(outcomes, i - 1);
}

/// Temporary directories are made where they usually are, unless that is in
/// `/dev`, which an execution has its own of: then in `/tmp`.
pub proof fn law_temp_is_not_in_dev(names: Seq<Seq<u8>>)
    requires
        are_entry_names(names),
    ensures
        temp_parent(rendered(names)) == if names.len() >= 1 && names[0] == seq![100u8, 101, 118] {
            seq![47u8, 116, 109, 112]
        } else {
            rendered(names)
        },
{
    reveal_strlit("/dev");
    reveal_strlit("/tmp");
    vstd::utf8::is_ascii_chars_encode_utf8("/dev"@);
    vstd::utf8::is_ascii_chars_encode_utf8("/tmp"@);
    let dev = seq![100u8, 101, 118];
    let dir = seq![dev];
    assert(encode_utf8("/tmp"@) =~= seq![47u8, 116, 109, 112]);
    assert(encode_utf8("/dev"@) =~= seq![47u8, 100, 101, 118]);
    reveal_with_fuel(slashed, 2);
    assert(dir.drop_last() =~= Seq::<Seq<u8>>::empty());
    assert(rendered(dir) =~= seq![47u8, 100, 101, 118]);
    law_within_by_names(names, dir);
    if names.len() >= 1 && names[0] == dev {
        assert forall|i: int| 0 <= i < dir.len() implies #[trigger] dir[i] == names[i] by {}
    } else if is_within(rendered(names), rendered(dir)) {
        assert(dir[0] == names[0]);
    }
}

/// A launch goes on after a step that was done, fails with one that failed, and
/// returns 124 once time is up; with or without a proxy, the clock runs before
/// anything is spawned.
pub proof fn law_launch_follows_outcome(outcome: Outcome, proxy: bool)
    ensures
        launched(outcome) == Launch::Continue <==> outcome == Outcome::Done,
        launched(outcome) == Launch::Return(124) <==> outcome == Outcome::Late,
        launched(outcome) == Launch::Fail <==> outcome == Outcome::Failed,
        ({
            let steps = launch_steps_of(proxy);
            let clock = if proxy { 7 } else { 5int };
            &&& steps.len() == if proxy { 12 } else { 8int }
            &&& steps[clock] == LaunchStep::Clock
            &&& steps[clock + 1] == LaunchStep::Spawn
            &&& forall|i: int|
                0 <= i < steps.len() && #[trigger] steps[i] == LaunchStep::Spawn ==> i == clock + 1
            &&& proxy ==> steps[10] == LaunchStep::Wait && steps[11] == LaunchStep::Close
            &&& !proxy ==> steps[7] == LaunchStep::Wait
        }),
{
}

/// A launch takes hold of standard input first, then finds its directories and
/// builds what restricts the workload; with a proxy it also has its routes and a
/// channel for the listeners before anything is spawned, serves while the workload
/// runs, and closes the proxy at the end.
pub proof fn law_launch_is_complete(proxy: bool, step: LaunchStep)
    ensures
        ({
            let s = launch_steps_of(proxy);
            &&& s[0] == LaunchStep::Stdin
            &&& s[1] == LaunchStep::Workdir
            &&& s[2] == LaunchStep::Temp
            &&& s[3] == LaunchStep::Ruleset
            &&& s[4] == LaunchStep::Filter
            &&& proxy ==> s[5] == LaunchStep::Routes && s[6] == LaunchStep::Channel && s[9]
                == LaunchStep::Serve && s[11] == LaunchStep::Close
            &&& s.contains(step) <==> (proxy || (step != LaunchStep::Routes && step
                != LaunchStep::Channel && step != LaunchStep::Serve && step != LaunchStep::Close))
        }),
{
    let s = launch_steps_of(proxy);
    let k: int = if proxy {
        2
    } else {
        0
    };
    assert(s[5 + k] == LaunchStep::Clock);
    assert(s[6 + k] == LaunchStep::Spawn);
    assert(s[0] == LaunchStep::Stdin && s[1] == LaunchStep::Workdir && s[2] == LaunchStep::Temp);
    assert(s[3] == LaunchStep::Ruleset && s[4] == LaunchStep::Filter);
    if proxy {
        assert(s[5] == LaunchStep::Routes && s[6] == LaunchStep::Channel);
        assert(s[9] == LaunchStep::Serve && s[10] == LaunchStep::Wait && s[11]
            == LaunchStep::Close);
    } else {
        assert(s[7] == LaunchStep::Wait);
    }
}

} // verus!
