//! How a workload is waited for, and what its end is reported as.
use vstd::prelude::*;
use crate::bytes::equal;

verus! {

/// What an execution that was cancelled or ran out of time returns.
pub const TIMED_OUT: i32 = 124;

/// What is added to a signal that ended a workload.
pub const BY_SIGNAL: i32 = 128;

/// How a workload ended: with a code, or by a signal.
#[derive(Clone, Copy, Debug, PartialEq, Eq, Structural)]
pub struct Status {
    pub code: Option<i32>,
    pub signal: Option<u8>,
}

/// What an execution returns.
pub open spec fn returned(status: Option<Status>) -> i32 {
    match status {
        None => TIMED_OUT,
        Some(s) => match s.code {
            Some(code) => code,
            None => match s.signal {
                Some(signal) => (BY_SIGNAL + signal) as i32,
                None => BY_SIGNAL,
            },
        },
    }
}

/// What an execution returns.
pub fn return_code(status: Option<Status>) -> (r: i32)
    ensures
        r == returned(status),
{
    match status {
        None => TIMED_OUT,
        Some(s) => match s.code {
            Some(code) => code,
            None => match s.signal {
                Some(signal) => BY_SIGNAL + signal as i32,
                None => BY_SIGNAL,
            },
        },
    }
}

/// Whether a workload may still be started, or what is returned instead.
pub fn before_start(cancelled: bool, expired: bool) -> (r: Option<i32>)
    ensures
        r == if cancelled || expired {
            Some(TIMED_OUT)
        } else {
            None
        },
{
    if cancelled || expired {
        Some(TIMED_OUT)
    } else {
        None
    }
}

/// What an injected library confirms itself with: `world-silo-v1`.
pub const CONFIRMATION: [u8; 13] = [119, 111, 114, 108, 100, 45, 115, 105, 108, 111, 45, 118, 49];

/// Whether a library confirmed that it was injected.
pub fn is_confirmation(content: &[u8]) -> (r: bool)
    ensures
        r == (content@ == CONFIRMATION@),
{
    equal(content, &CONFIRMATION)
}

/// How the wait for a workload ended.
#[derive(Clone, Copy, Debug, PartialEq, Eq, Structural)]
pub enum End {
    /// It was cancelled, ran out of time, or a library was not injected.
    Stopped,
    Exited(Status),
    /// Its status cannot be had.
    Lost,
}

/// What ends the wait for a workload: what stops it goes first.
pub open spec fn end_of(
    injection_failed: bool,
    cancelled: bool,
    expired: bool,
    exited: Option<Result<Status, i32>>,
) -> Option<End> {
    if injection_failed || cancelled || expired {
        Some(End::Stopped)
    } else {
        match exited {
            Some(Ok(status)) => Some(End::Exited(status)),
            Some(Err(_)) => Some(End::Lost),
            None => None,
        }
    }
}

/// What ends the wait for a workload, if anything does yet.
pub fn first_end(
    injection_failed: bool,
    cancelled: bool,
    expired: bool,
    exited: Option<Result<Status, i32>>,
) -> (r: Option<End>)
    ensures
        r == end_of(injection_failed, cancelled, expired, exited),
{
    if injection_failed || cancelled || expired {
        Some(End::Stopped)
    } else {
        match exited {
            Some(Ok(status)) => Some(End::Exited(status)),
            Some(Err(_)) => Some(End::Lost),
            None => None,
        }
    }
}

/// How the forwarding of one output ended.
#[derive(Clone, Copy, Debug, PartialEq, Eq, Structural)]
pub enum Drained {
    Stopped,
    /// Every byte was forwarded.
    Forwarded,
    TaskLost,
    ForwardFailed,
}

/// What ends the forwarding of one output, if anything does yet. A slow reader
/// is waited for, but no longer than the execution itself.
pub fn first_drained(cancelled: bool, expired: bool, done: Option<Drained>) -> (r: Option<Drained>)
    ensures
        r == if cancelled || expired {
            Some(Drained::Stopped)
        } else {
            done
        },
{
    if cancelled || expired {
        Some(Drained::Stopped)
    } else {
        done
    }
}

/// An output of a workload.
#[derive(Clone, Copy, Debug, PartialEq, Eq, Structural)]
pub enum Output {
    Stdout,
    Stderr,
}

/// How far the end of a workload has come.
#[derive(Clone, Copy, Debug, PartialEq, Eq, Structural)]
pub enum WaitState {
    Running,
    /// What it used is taken away.
    Closing(Option<Status>),
    /// It ended by itself, and its output is forwarded.
    Draining { output: Output, status: Status },
    /// It was stopped; its output is given a moment.
    Grace(Output),
    Aborting(Output),
    /// A library may have to confirm that it was injected.
    Confirming(Option<Status>),
    Done,
}

/// What happens while a workload is waited for.
#[derive(Clone, Copy, Debug, PartialEq, Eq, Structural)]
pub enum WaitEvent {
    Ended(End),
    Closed,
    Drained(Drained),
    /// The moment is over, or the output was forwarded in it.
    GraceOver { forwarded: bool },
    Aborted,
    /// Whether a library confirmed itself; `None` where none was injected.
    Confirmed(Option<bool>),
}

/// Why there is nothing to return.
#[derive(Clone, Copy, Debug, PartialEq, Eq, Structural)]
pub enum WaitError {
    StatusLost,
    TaskLost,
    ForwardFailed,
    NotConfirmed,
    /// What happened does not belong there.
    Protocol,
}

impl WaitError {
    /// The error in words.
    pub fn message(self) -> (r: &'static str)
        ensures
            r@ == (match self {
                WaitError::StatusLost => "workload exit status was lost"@,
                WaitError::TaskLost => "output forwarding task"@,
                WaitError::ForwardFailed => "forward workload output"@,
                WaitError::NotConfirmed =>
                    "silo injection was not confirmed; this executable is unsupported"@,
                WaitError::Protocol => "workload ended out of order"@,
            }),
    {
        match self {
            WaitError::StatusLost => "workload exit status was lost",
            WaitError::TaskLost => "output forwarding task",
            WaitError::ForwardFailed => "forward workload output",
            WaitError::NotConfirmed =>
                "silo injection was not confirmed; this executable is unsupported",
            WaitError::Protocol => "workload ended out of order",
        }
    }
}

/// What is done next about a workload.
#[derive(Clone, Copy, Debug, PartialEq, Eq, Structural)]
pub enum Supervision {
    /// Close its proxy, kill its process group and stop its relay; where `kill`
    /// says so, kill and reap it too.
    Close { kill: bool },
    Drain(Output),
    /// Give an output one more second.
    Grace(Output),
    Abort(Output),
    /// Look for a library's confirmation, where one was injected.
    Confirm,
    Return(i32),
    Fail(WaitError),
}

/// What follows once an output had its moment.
pub open spec fn after_grace(output: Output) -> (WaitState, Supervision) {
    match output {
        Output::Stdout => (WaitState::Grace(Output::Stderr), Supervision::Grace(Output::Stderr)),
        Output::Stderr => (WaitState::Confirming(None), Supervision::Confirm),
    }
}

/// What is done next about a workload.
pub open spec fn supervised(state: WaitState, event: WaitEvent) -> (WaitState, Supervision) {
    match (state, event) {
        (WaitState::Running, WaitEvent::Ended(end)) => match end {
            End::Stopped => (WaitState::Closing(None), Supervision::Close { kill: true }),
            End::Exited(status) => (
                WaitState::Closing(Some(status)),
                Supervision::Close { kill: false },
            ),
            End::Lost => (WaitState::Done, Supervision::Fail(WaitError::StatusLost)),
        },
        (WaitState::Closing(status), WaitEvent::Closed) => match status {
            Some(status) => (
                WaitState::Draining { output: Output::Stdout, status },
                Supervision::Drain(Output::Stdout),
            ),
            None => (WaitState::Grace(Output::Stdout), Supervision::Grace(Output::Stdout)),
        },
        (WaitState::Draining { output, status }, WaitEvent::Drained(drained)) => match drained {
            Drained::Forwarded => match output {
                Output::Stdout => (
                    WaitState::Draining { output: Output::Stderr, status },
                    Supervision::Drain(Output::Stderr),
                ),
                Output::Stderr => (WaitState::Confirming(Some(status)), Supervision::Confirm),
            },
            Drained::Stopped => (WaitState::Grace(output), Supervision::Grace(output)),
            Drained::TaskLost => (WaitState::Done, Supervision::Fail(WaitError::TaskLost)),
            Drained::ForwardFailed => (
                WaitState::Done,
                Supervision::Fail(WaitError::ForwardFailed),
            ),
        },
        (WaitState::Grace(output), WaitEvent::GraceOver { forwarded }) => if forwarded {
            after_grace(output)
        } else {
            (WaitState::Aborting(output), Supervision::Abort(output))
        },
        (WaitState::Aborting(output), WaitEvent::Aborted) => after_grace(output),
        (WaitState::Confirming(status), WaitEvent::Confirmed(confirmed)) => if confirmed == Some(
            false,
        ) {
            (WaitState::Done, Supervision::Fail(WaitError::NotConfirmed))
        } else {
            (WaitState::Done, Supervision::Return(returned(status)))
        },
        _ => (WaitState::Done, Supervision::Fail(WaitError::Protocol)),
    }
}

fn past_grace(output: Output) -> (r: (WaitState, Supervision))
    ensures
        r == after_grace(output),
{
    match output {
        Output::Stdout => (WaitState::Grace(Output::Stderr), Supervision::Grace(Output::Stderr)),
        Output::Stderr => (WaitState::Confirming(None), Supervision::Confirm),
    }
}

/// What is done next about a workload.
pub fn wait(state: WaitState, event: WaitEvent) -> (r: (WaitState, Supervision))
    ensures
        r == supervised(state, event),
{
    match (state, event) {
        (WaitState::Running, WaitEvent::Ended(end)) => match end {
            End::Stopped => (WaitState::Closing(None), Supervision::Close { kill: true }),
            End::Exited(status) => (
                WaitState::Closing(Some(status)),
                Supervision::Close { kill: false },
            ),
            End::Lost => (WaitState::Done, Supervision::Fail(WaitError::StatusLost)),
        },
        (WaitState::Closing(status), WaitEvent::Closed) => match status {
            Some(status) => (
                WaitState::Draining { output: Output::Stdout, status },
                Supervision::Drain(Output::Stdout),
            ),
            None => (WaitState::Grace(Output::Stdout), Supervision::Grace(Output::Stdout)),
        },
        (WaitState::Draining { output, status }, WaitEvent::Drained(drained)) => match drained {
            Drained::Forwarded => match output {
                Output::Stdout => (
                    WaitState::Draining { output: Output::Stderr, status },
                    Supervision::Drain(Output::Stderr),
                ),
                Output::Stderr => (WaitState::Confirming(Some(status)), Supervision::Confirm),
            },
            Drained::Stopped => (WaitState::Grace(output), Supervision::Grace(output)),
            Drained::TaskLost => (WaitState::Done, Supervision::Fail(WaitError::TaskLost)),
            Drained::ForwardFailed => (
                WaitState::Done,
                Supervision::Fail(WaitError::ForwardFailed),
            ),
        },
        (WaitState::Grace(output), WaitEvent::GraceOver { forwarded }) => if forwarded {
            past_grace(output)
        } else {
            (WaitState::Aborting(output), Supervision::Abort(output))
        },
        (WaitState::Aborting(output), WaitEvent::Aborted) => past_grace(output),
        (WaitState::Confirming(status), WaitEvent::Confirmed(confirmed)) => match confirmed {
            Some(false) => (WaitState::Done, Supervision::Fail(WaitError::NotConfirmed)),
            _ => (WaitState::Done, Supervision::Return(return_code(status))),
        },
        _ => (WaitState::Done, Supervision::Fail(WaitError::Protocol)),
    }
}

/// Where the wait for a workload is after some events.
pub open spec fn supervised_after(events: Seq<WaitEvent>) -> WaitState
    decreases events.len(),
{
    if events.len() == 0 {
        WaitState::Running
    } else {
        supervised(supervised_after(events.drop_last()), events.last()).0
    }
}

/// How many outputs were forwarded to the last byte.
pub open spec fn forwarded(events: Seq<WaitEvent>) -> nat
    decreases events.len(),
{
    if events.len() == 0 {
        0
    } else {
        forwarded(events.drop_last()) + if events.last() == WaitEvent::Drained(
            Drained::Forwarded,
        ) {
            1nat
        } else {
            0nat
        }
    }
}

/// Whether something stopped a workload or the forwarding of its output.
pub open spec fn was_stopped(events: Seq<WaitEvent>) -> bool {
    events.contains(WaitEvent::Ended(End::Stopped)) || events.contains(
        WaitEvent::Drained(Drained::Stopped),
    )
}

/// A status is returned only of a workload that ended by itself, and whose two
/// outputs were forwarded to the last byte; what was stopped at any point
/// returns [`TIMED_OUT`].
pub proof fn law_status_only_when_complete(events: Seq<WaitEvent>, confirmed: Option<bool>)
    requires
        supervised_after(events) is Confirming,
        confirmed != Some(false),
    ensures
        ({
            let (_, action) = supervised(
                supervised_after(events),
                WaitEvent::Confirmed(confirmed),
            );
            if was_stopped(events) {
                action == Supervision::Return(TIMED_OUT)
            } else {
                &&& forwarded(events) == 2
                &&& exists|status: Status|
                    #![trigger returned(Some(status))]
                    events.contains(WaitEvent::Ended(End::Exited(status))) && action
                        == Supervision::Return(returned(Some(status)))
            }
        }),
{
    lemma_progress(events);
    let state = supervised_after(events);
    if let WaitState::Confirming(Some(status)) = state {
        assert(returned(Some(status)) == returned(Some(status)));
    }
}

/// What is done last about a workload that ended by itself, with everything
/// after that as it should be.
pub open spec fn last_action(status: Status, confirmed: Option<bool>) -> Supervision {
    let events = seq![
        WaitEvent::Ended(End::Exited(status)),
        WaitEvent::Closed,
        WaitEvent::Drained(Drained::Forwarded),
        WaitEvent::Drained(Drained::Forwarded),
    ];
    supervised(supervised_after(events), WaitEvent::Confirmed(confirmed)).1
}

/// A workload that ended by itself, and whose output was forwarded, has its own
/// code returned, or 128 and the signal that ended it.
pub proof fn law_own_code_is_returned(
    status: Status,
    code: i32,
    signal: u8,
    confirmed: Option<bool>,
)
    requires
        confirmed != Some(false),
    ensures
        status.code == Some(code) ==> returned(Some(status)) == code && last_action(
            status,
            confirmed,
        ) == Supervision::Return(code),
        status.code is None && status.signal == Some(signal) ==> returned(Some(status)) == 128
            + signal && last_action(status, confirmed) == Supervision::Return(
            (128 + signal) as i32,
        ),
{
    let events = seq![
        WaitEvent::Ended(End::Exited(status)),
        WaitEvent::Closed,
        WaitEvent::Drained(Drained::Forwarded),
        WaitEvent::Drained(Drained::Forwarded),
    ];
    let three = events.drop_last();
    let two = three.drop_last();
    let one = two.drop_last();
    assert(one.drop_last() =~= Seq::<WaitEvent>::empty());
    reveal_with_fuel(supervised_after, 5);
    assert(one.last() == WaitEvent::Ended(End::Exited(status)));
    assert(two.last() == WaitEvent::Closed);
    assert(three.last() == WaitEvent::Drained(Drained::Forwarded));
}

/// What the states know of the events before them.
proof fn lemma_progress(events: Seq<WaitEvent>)
    ensures
        match supervised_after(events) {
            WaitState::Running => !was_stopped(events) && forwarded(events) == 0,
            WaitState::Closing(None) => was_stopped(events),
            WaitState::Closing(Some(status)) => !was_stopped(events) && forwarded(events) == 0
                && events.contains(WaitEvent::Ended(End::Exited(status))),
            WaitState::Draining { output, status } => !was_stopped(events) && forwarded(events)
                == (if output == Output::Stdout {
                0nat
            } else {
                1nat
            }) && events.contains(WaitEvent::Ended(End::Exited(status))),
            WaitState::Grace(_) | WaitState::Aborting(_) | WaitState::Confirming(None) =>
                was_stopped(events),
            WaitState::Confirming(Some(status)) => !was_stopped(events) && forwarded(events) == 2
                && events.contains(WaitEvent::Ended(End::Exited(status))),
            WaitState::Done => true,
        },
    decreases events.len(),
{
    if events.len() > 0 {
        let before = events.drop_last();
        lemma_progress(before);
        assert(events =~= before.push(events.last()));
        assert forall|e: WaitEvent| #[trigger] events.contains(e) <==> before.contains(e) || e
            == events.last() by {
            if events.contains(e) {
                let i = choose|i: int| 0 <= i < events.len() && events[i] == e;
                if i < before.len() {
                    assert(before[i] == e);
                }
            }
            if before.contains(e) {
                let i = choose|i: int| 0 <= i < before.len() && before[i] == e;
                assert(events[i] == e);
            }
            assert(events[events.len() - 1] == events.last());
        }
    }
}

/// An execution that is stopped, whatever stopped it and whatever its output was
/// still good for, is killed and returns 124, unless a library that had to confirm
/// itself did not.
pub proof fn law_stopped_returns_124(
    injection_failed: bool,
    cancelled: bool,
    expired: bool,
    exited: Option<Result<Status, i32>>,
    out: bool,
    err: bool,
    confirmed: Option<bool>,
)
    ensures
        end_of(injection_failed, cancelled, expired, exited) == Some(End::Stopped)
            <==> injection_failed || cancelled || expired,
        !injection_failed && !cancelled && !expired ==> match exited {
            None => end_of(injection_failed, cancelled, expired, exited) is None,
            Some(Ok(status)) => end_of(injection_failed, cancelled, expired, exited) == Some(
                End::Exited(status),
            ),
            Some(Err(_)) => end_of(injection_failed, cancelled, expired, exited) == Some(
                End::Lost,
            ),
        },
        ({
            let killed = supervised(WaitState::Running, WaitEvent::Ended(End::Stopped));
            let closed = supervised(killed.0, WaitEvent::Closed);
            let second = after_output(closed.0, out);
            let last = after_output(second, err);
            &&& killed.1 == (Supervision::Close { kill: true })
            &&& closed.1 == Supervision::Grace(Output::Stdout)
            &&& supervised(last, WaitEvent::Confirmed(confirmed)).1 == if confirmed == Some(false) {
                Supervision::Fail(WaitError::NotConfirmed)
            } else {
                Supervision::Return(124)
            }
        }),
{
}

/// How far the end of a stopped workload has come once the moment for one output
/// is over: an output that was not forwarded in it is aborted.
pub open spec fn after_output(state: WaitState, forwarded: bool) -> WaitState {
    let over = supervised(state, WaitEvent::GraceOver { forwarded });
    if forwarded {
        over.0
    } else {
        supervised(over.0, WaitEvent::Aborted).0
    }
}

/// An output that time ran out for while it was forwarded makes the execution
/// return 124, however the workload ended; one that was lost makes it fail.
pub proof fn law_output_in_time(status: Status, first: bool, out: bool, err: bool)
    ensures
        ({
            let output = if first {
                Output::Stdout
            } else {
                Output::Stderr
            };
            let draining = WaitState::Draining { output, status };
            let late = supervised(draining, WaitEvent::Drained(Drained::Stopped));
            let second = if first {
                after_output(late.0, out)
            } else {
                late.0
            };
            let last = after_output(second, err);
            &&& late.1 == Supervision::Grace(output)
            &&& supervised(last, WaitEvent::Confirmed(None)).1 == Supervision::Return(124)
            &&& supervised(draining, WaitEvent::Drained(Drained::TaskLost)).1
                == Supervision::Fail(WaitError::TaskLost)
            &&& supervised(draining, WaitEvent::Drained(Drained::ForwardFailed)).1
                == Supervision::Fail(WaitError::ForwardFailed)
            &&& supervised(WaitState::Running, WaitEvent::Ended(End::Lost)).1
                == Supervision::Fail(WaitError::StatusLost)
        }),
{
}

} // verus!
