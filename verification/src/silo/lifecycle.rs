//! How a World's localhost is set up and taken down.
use vstd::prelude::*;
use crate::ip::{text_of, Ip};
use crate::linux::holder::{Holder, Verified};
use crate::text::string_of;

verus! {

/// How far a setup has come.
#[derive(Clone, Copy, Debug, PartialEq, Eq, Structural)]
pub enum SetupState {
    /// The record is read.
    Reading,
    /// The recorded holder is looked at.
    Verifying(Holder),
    /// The recorded holder is gone, and reaped.
    Reaping,
    /// A new holder is started.
    Starting,
    /// The new holder is recorded.
    Recording(Holder),
    /// The new holder could not be recorded, and is stopped.
    Stopping(Holder),
    /// The new holder is told that it was recorded.
    Committing,
    Done,
}

/// What happens during a setup.
#[derive(Clone, Copy, Debug, PartialEq, Eq, Structural)]
pub enum SetupEvent {
    Found(Option<Holder>),
    Verified(Verified),
    Reaped,
    Started(Holder),
    StartFailed,
    Recorded,
    RecordFailed,
    Stopped,
    StopFailed,
    Committed,
    CommitFailed,
}

/// Why a setup failed.
#[derive(Clone, Copy, Debug, PartialEq, Eq, Structural)]
pub enum SetupError {
    /// It could not be told whether the recorded holder runs.
    Unverified,
    NotStarted,
    NotRecorded,
    /// The new holder could neither be recorded nor stopped.
    NotStopped(u32),
    NotCommitted,
    /// What happened does not belong there.
    Protocol,
}

/// What a setup does next.
#[derive(Clone, Copy, Debug, PartialEq, Eq, Structural)]
pub enum SetupAction {
    Verify(Holder),
    Reap(Holder),
    Start,
    Record(Holder),
    StopUnrecorded(Holder),
    Commit,
    Succeed,
    Fail(SetupError),
}

/// What a setup does next. A holder that runs is kept, one that cannot be looked
/// at is not replaced, and a new one is committed once it is recorded.
pub open spec fn set_up(state: SetupState, event: SetupEvent) -> (SetupState, SetupAction) {
    match (state, event) {
        (SetupState::Reading, SetupEvent::Found(found)) => match found {
            Some(holder) => (SetupState::Verifying(holder), SetupAction::Verify(holder)),
            None => (SetupState::Starting, SetupAction::Start),
        },
        (SetupState::Verifying(holder), SetupEvent::Verified(verified)) => match verified {
            Verified::Running => (SetupState::Done, SetupAction::Succeed),
            Verified::Gone => (SetupState::Reaping, SetupAction::Reap(holder)),
            Verified::Failed => (SetupState::Done, SetupAction::Fail(SetupError::Unverified)),
        },
        (SetupState::Reaping, SetupEvent::Reaped) => (SetupState::Starting, SetupAction::Start),
        (SetupState::Starting, SetupEvent::Started(holder)) => (
            SetupState::Recording(holder),
            SetupAction::Record(holder),
        ),
        (SetupState::Starting, SetupEvent::StartFailed) => (
            SetupState::Done,
            SetupAction::Fail(SetupError::NotStarted),
        ),
        (SetupState::Recording(_), SetupEvent::Recorded) => (
            SetupState::Committing,
            SetupAction::Commit,
        ),
        (SetupState::Recording(holder), SetupEvent::RecordFailed) => (
            SetupState::Stopping(holder),
            SetupAction::StopUnrecorded(holder),
        ),
        (SetupState::Stopping(_), SetupEvent::Stopped) => (
            SetupState::Done,
            SetupAction::Fail(SetupError::NotRecorded),
        ),
        (SetupState::Stopping(holder), SetupEvent::StopFailed) => (
            SetupState::Done,
            SetupAction::Fail(SetupError::NotStopped(holder.pid)),
        ),
        (SetupState::Committing, SetupEvent::Committed) => (
            SetupState::Done,
            SetupAction::Succeed,
        ),
        (SetupState::Committing, SetupEvent::CommitFailed) => (
            SetupState::Done,
            SetupAction::Fail(SetupError::NotCommitted),
        ),
        _ => (SetupState::Done, SetupAction::Fail(SetupError::Protocol)),
    }
}

/// What a setup does next.
pub fn setup(state: SetupState, event: SetupEvent) -> (r: (SetupState, SetupAction))
    ensures
        r == set_up(state, event),
{
    match (state, event) {
        (SetupState::Reading, SetupEvent::Found(found)) => match found {
            Some(holder) => (SetupState::Verifying(holder), SetupAction::Verify(holder)),
            None => (SetupState::Starting, SetupAction::Start),
        },
        (SetupState::Verifying(holder), SetupEvent::Verified(verified)) => match verified {
            Verified::Running => (SetupState::Done, SetupAction::Succeed),
            Verified::Gone => (SetupState::Reaping, SetupAction::Reap(holder)),
            Verified::Failed => (SetupState::Done, SetupAction::Fail(SetupError::Unverified)),
        },
        (SetupState::Reaping, SetupEvent::Reaped) => (SetupState::Starting, SetupAction::Start),
        (SetupState::Starting, SetupEvent::Started(holder)) => (
            SetupState::Recording(holder),
            SetupAction::Record(holder),
        ),
        (SetupState::Starting, SetupEvent::StartFailed) => (
            SetupState::Done,
            SetupAction::Fail(SetupError::NotStarted),
        ),
        (SetupState::Recording(_), SetupEvent::Recorded) => (
            SetupState::Committing,
            SetupAction::Commit,
        ),
        (SetupState::Recording(holder), SetupEvent::RecordFailed) => (
            SetupState::Stopping(holder),
            SetupAction::StopUnrecorded(holder),
        ),
        (SetupState::Stopping(_), SetupEvent::Stopped) => (
            SetupState::Done,
            SetupAction::Fail(SetupError::NotRecorded),
        ),
        (SetupState::Stopping(holder), SetupEvent::StopFailed) => (
            SetupState::Done,
            SetupAction::Fail(SetupError::NotStopped(holder.pid)),
        ),
        (SetupState::Committing, SetupEvent::Committed) => (
            SetupState::Done,
            SetupAction::Succeed,
        ),
        (SetupState::Committing, SetupEvent::CommitFailed) => (
            SetupState::Done,
            SetupAction::Fail(SetupError::NotCommitted),
        ),
        _ => (SetupState::Done, SetupAction::Fail(SetupError::Protocol)),
    }
}

/// Where a setup is after some events.
pub open spec fn set_up_after(events: Seq<SetupEvent>) -> SetupState
    decreases events.len(),
{
    if events.len() == 0 {
        SetupState::Reading
    } else {
        set_up(set_up_after(events.drop_last()), events.last()).0
    }
}

/// What the last event of a setup led to.
pub open spec fn last_action(events: Seq<SetupEvent>) -> SetupAction
    recommends
        events.len() > 0,
{
    set_up(set_up_after(events.drop_last()), events.last()).1
}

/// A holder is committed only right after it was recorded, so that none keeps
/// running that no record leads to.
pub proof fn law_committed_is_recorded(events: Seq<SetupEvent>)
    requires
        events.len() > 0,
        last_action(events) is Commit,
    ensures
        events.last() == SetupEvent::Recorded,
        set_up_after(events.drop_last()) is Recording,
{
}

/// Setting up a World that is set up changes nothing: no holder is started, and
/// nothing is recorded.
pub proof fn law_setup_is_idempotent(holder: Holder)
    ensures
        set_up_after(
            seq![SetupEvent::Found(Some(holder)), SetupEvent::Verified(Verified::Running)],
        ) is Done,
        last_action(
            seq![SetupEvent::Found(Some(holder)), SetupEvent::Verified(Verified::Running)],
        ) is Succeed,
        last_action(seq![SetupEvent::Found(Some(holder))]) == SetupAction::Verify(holder),
{
    let found = seq![SetupEvent::Found(Some(holder))];
    let both = seq![SetupEvent::Found(Some(holder)), SetupEvent::Verified(Verified::Running)];
    assert(found.drop_last() =~= Seq::<SetupEvent>::empty());
    assert(both.drop_last() =~= found);
    assert(set_up_after(Seq::<SetupEvent>::empty()) == SetupState::Reading);
    assert(set_up_after(found) == SetupState::Verifying(holder));
}

/// A new holder is started only where none was recorded, or where the recorded
/// one is gone for certain: no live holder is forgotten.
pub proof fn law_no_live_holder_replaced(events: Seq<SetupEvent>)
    requires
        events.len() > 0,
        last_action(events) is Start,
    ensures
        events[0] is Found,
        events[0]->Found_0 is None || (events.len() == 3 && events[1] == SetupEvent::Verified(
            Verified::Gone,
        )),
{
    lemma_setup_start(events.drop_last());
    assert(events.drop_last() + seq![events.last()] =~= events);
}

proof fn lemma_setup_start(events: Seq<SetupEvent>)
    ensures
        match set_up_after(events) {
            SetupState::Reading => events.len() == 0,
            SetupState::Verifying(holder) => events.len() == 1 && events[0] == SetupEvent::Found(
                Some(holder),
            ),
            SetupState::Reaping => events.len() == 2 && events[0] is Found && events[1]
                == SetupEvent::Verified(Verified::Gone),
            _ => true,
        },
    decreases events.len(),
{
    if events.len() > 0 {
        lemma_setup_start(events.drop_last());
        assert(events.drop_last().push(events.last()) =~= events);
    }
}

/// How far a teardown has come.
#[derive(Clone, Copy, Debug, PartialEq, Eq, Structural)]
pub enum TeardownState {
    Reading,
    Verifying(Holder),
    Stopping,
    Reaping,
    /// The record is taken away.
    Forgetting,
    Done,
}

/// What happens during a teardown.
#[derive(Clone, Copy, Debug, PartialEq, Eq, Structural)]
pub enum TeardownEvent {
    Found(Option<Holder>),
    Verified(Verified),
    Stopped,
    StopFailed,
    Reaped,
    Forgotten,
    ForgetFailed,
}

/// Why a teardown failed.
#[derive(Clone, Copy, Debug, PartialEq, Eq, Structural)]
pub enum TeardownError {
    Unverified,
    NotStopped,
    NotForgotten,
    Protocol,
}

/// What a teardown does next.
#[derive(Clone, Copy, Debug, PartialEq, Eq, Structural)]
pub enum TeardownAction {
    Verify(Holder),
    Stop(Holder),
    Reap(Holder),
    Forget,
    Succeed,
    Fail(TeardownError),
}

/// What a teardown does next. The record is forgotten once the holder is stopped
/// or gone; until then it is kept for another try.
pub open spec fn torn_down(state: TeardownState, event: TeardownEvent) -> (
    TeardownState,
    TeardownAction,
) {
    match (state, event) {
        (TeardownState::Reading, TeardownEvent::Found(found)) => match found {
            Some(holder) => (TeardownState::Verifying(holder), TeardownAction::Verify(holder)),
            None => (TeardownState::Done, TeardownAction::Succeed),
        },
        (TeardownState::Verifying(holder), TeardownEvent::Verified(verified)) => match verified {
            Verified::Running => (TeardownState::Stopping, TeardownAction::Stop(holder)),
            Verified::Gone => (TeardownState::Reaping, TeardownAction::Reap(holder)),
            Verified::Failed => (
                TeardownState::Done,
                TeardownAction::Fail(TeardownError::Unverified),
            ),
        },
        (TeardownState::Stopping, TeardownEvent::Stopped) => (
            TeardownState::Forgetting,
            TeardownAction::Forget,
        ),
        (TeardownState::Stopping, TeardownEvent::StopFailed) => (
            TeardownState::Done,
            TeardownAction::Fail(TeardownError::NotStopped),
        ),
        (TeardownState::Reaping, TeardownEvent::Reaped) => (
            TeardownState::Forgetting,
            TeardownAction::Forget,
        ),
        (TeardownState::Forgetting, TeardownEvent::Forgotten) => (
            TeardownState::Done,
            TeardownAction::Succeed,
        ),
        (TeardownState::Forgetting, TeardownEvent::ForgetFailed) => (
            TeardownState::Done,
            TeardownAction::Fail(TeardownError::NotForgotten),
        ),
        _ => (TeardownState::Done, TeardownAction::Fail(TeardownError::Protocol)),
    }
}

/// What a teardown does next.
pub fn teardown(state: TeardownState, event: TeardownEvent) -> (r: (TeardownState, TeardownAction))
    ensures
        r == torn_down(state, event),
{
    match (state, event) {
        (TeardownState::Reading, TeardownEvent::Found(found)) => match found {
            Some(holder) => (TeardownState::Verifying(holder), TeardownAction::Verify(holder)),
            None => (TeardownState::Done, TeardownAction::Succeed),
        },
        (TeardownState::Verifying(holder), TeardownEvent::Verified(verified)) => match verified {
            Verified::Running => (TeardownState::Stopping, TeardownAction::Stop(holder)),
            Verified::Gone => (TeardownState::Reaping, TeardownAction::Reap(holder)),
            Verified::Failed => (
                TeardownState::Done,
                TeardownAction::Fail(TeardownError::Unverified),
            ),
        },
        (TeardownState::Stopping, TeardownEvent::Stopped) => (
            TeardownState::Forgetting,
            TeardownAction::Forget,
        ),
        (TeardownState::Stopping, TeardownEvent::StopFailed) => (
            TeardownState::Done,
            TeardownAction::Fail(TeardownError::NotStopped),
        ),
        (TeardownState::Reaping, TeardownEvent::Reaped) => (
            TeardownState::Forgetting,
            TeardownAction::Forget,
        ),
        (TeardownState::Forgetting, TeardownEvent::Forgotten) => (
            TeardownState::Done,
            TeardownAction::Succeed,
        ),
        (TeardownState::Forgetting, TeardownEvent::ForgetFailed) => (
            TeardownState::Done,
            TeardownAction::Fail(TeardownError::NotForgotten),
        ),
        _ => (TeardownState::Done, TeardownAction::Fail(TeardownError::Protocol)),
    }
}

/// Where a teardown is after some events.
pub open spec fn torn_down_after(events: Seq<TeardownEvent>) -> TeardownState
    decreases events.len(),
{
    if events.len() == 0 {
        TeardownState::Reading
    } else {
        torn_down(torn_down_after(events.drop_last()), events.last()).0
    }
}

/// A record is forgotten only once its holder was stopped, or was gone for
/// certain.
pub proof fn law_forgotten_is_stopped(events: Seq<TeardownEvent>)
    requires
        torn_down_after(events) is Forgetting,
    ensures
        events.len() == 3,
        events[1] == TeardownEvent::Verified(Verified::Running) && events[2]
            == TeardownEvent::Stopped || events[1] == TeardownEvent::Verified(Verified::Gone)
            && events[2] == TeardownEvent::Reaped,
{
    lemma_teardown(events);
}

proof fn lemma_teardown(events: Seq<TeardownEvent>)
    ensures
        match torn_down_after(events) {
            TeardownState::Reading => events.len() == 0,
            TeardownState::Verifying(_) => events.len() == 1,
            TeardownState::Stopping => events.len() == 2 && events[1] == TeardownEvent::Verified(
                Verified::Running,
            ),
            TeardownState::Reaping => events.len() == 2 && events[1] == TeardownEvent::Verified(
                Verified::Gone,
            ),
            TeardownState::Forgetting => events.len() == 3 && (events[1]
                == TeardownEvent::Verified(Verified::Running) && events[2]
                == TeardownEvent::Stopped || events[1] == TeardownEvent::Verified(Verified::Gone)
                && events[2] == TeardownEvent::Reaped),
            TeardownState::Done => true,
        },
    decreases events.len(),
{
    if events.len() > 0 {
        lemma_teardown(events.drop_last());
        assert(events.drop_last().push(events.last()) =~= events);
    }
}

/// What to do for a World whose address must be an alias of the loopback
/// interface.
#[derive(Clone, Copy, Debug, PartialEq, Eq, Structural)]
pub enum AliasStep {
    /// The address can be bound.
    Ready,
    /// It must be added.
    Add,
    Failed,
}

/// What to do for an address, given whether it can be bound, and whether it was
/// added with success, if that was tried.
pub fn alias_step(ready: bool, added: Option<bool>) -> (r: AliasStep)
    ensures
        r == match added {
            None => if ready {
                AliasStep::Ready
            } else {
                AliasStep::Add
            },
            Some(success) => if success && ready {
                AliasStep::Ready
            } else {
                AliasStep::Failed
            },
        },
{
    match added {
        None => if ready {
            AliasStep::Ready
        } else {
            AliasStep::Add
        },
        Some(success) => if success && ready {
            AliasStep::Ready
        } else {
            AliasStep::Failed
        },
    }
}

/// What some texts hold.
pub open spec fn texts(r: Seq<String>) -> Seq<Seq<char>> {
    Seq::new(r.len(), |i: int| r[i]@)
}

/// The arguments that add an address to the loopback interface.
pub fn alias_arguments(ip: [u8; 4]) -> (r: Vec<String>)
    ensures
        texts(r@) == seq![
            "/sbin/ifconfig"@,
            "lo0"@,
            "alias"@,
            text_of(Ip::V4(ip)@),
            "netmask"@,
            "255.0.0.0"@,
        ],
{
    let mut r: Vec<String> = Vec::new();
    r.push(String::from_str("/sbin/ifconfig"));
    r.push(String::from_str("lo0"));
    r.push(String::from_str("alias"));
    r.push(string_of(&Ip::V4(ip).text()));
    r.push(String::from_str("netmask"));
    r.push(String::from_str("255.0.0.0"));
    proof {
        assert(texts(r@) =~= seq![
            "/sbin/ifconfig"@,
            "lo0"@,
            "alias"@,
            text_of(Ip::V4(ip)@),
            "netmask"@,
            "255.0.0.0"@,
        ]);
    }
    r
}

/// A World without a holder gets one: it is started, recorded, and told to stay.
/// Where a recorded one is gone, that is reaped first.
pub proof fn law_setup_succeeds(gone: Holder, holder: Holder)
    ensures
        ({
            let fresh = seq![
                SetupEvent::Found(None),
                SetupEvent::Started(holder),
                SetupEvent::Recorded,
                SetupEvent::Committed,
            ];
            let again = seq![
                SetupEvent::Found(Some(gone)),
                SetupEvent::Verified(Verified::Gone),
                SetupEvent::Reaped,
                SetupEvent::Started(holder),
                SetupEvent::Recorded,
                SetupEvent::Committed,
            ];
            &&& last_action(fresh.take(1)) == SetupAction::Start
            &&& last_action(fresh.take(2)) == SetupAction::Record(holder)
            &&& last_action(fresh.take(3)) == SetupAction::Commit
            &&& last_action(fresh) == SetupAction::Succeed
            &&& last_action(again.take(1)) == SetupAction::Verify(gone)
            &&& last_action(again.take(2)) == SetupAction::Reap(gone)
            &&& last_action(again.take(3)) == SetupAction::Start
            &&& last_action(again.take(4)) == SetupAction::Record(holder)
            &&& last_action(again.take(5)) == SetupAction::Commit
            &&& last_action(again) == SetupAction::Succeed
        }),
{
    let fresh = seq![
        SetupEvent::Found(None),
        SetupEvent::Started(holder),
        SetupEvent::Recorded,
        SetupEvent::Committed,
    ];
    let again = seq![
        SetupEvent::Found(Some(gone)),
        SetupEvent::Verified(Verified::Gone),
        SetupEvent::Reaped,
        SetupEvent::Started(holder),
        SetupEvent::Recorded,
        SetupEvent::Committed,
    ];
    lemma_set_up_take(fresh, 0);
    lemma_set_up_take(fresh, 1);
    lemma_set_up_take(fresh, 2);
    lemma_set_up_take(fresh, 3);
    lemma_set_up_take(again, 0);
    lemma_set_up_take(again, 1);
    lemma_set_up_take(again, 2);
    lemma_set_up_take(again, 3);
    lemma_set_up_take(again, 4);
    lemma_set_up_take(again, 5);
    assert(fresh.take(0) =~= Seq::empty() && again.take(0) =~= Seq::empty());
    assert(fresh.take(4) =~= fresh && again.take(6) =~= again);
}

proof fn lemma_set_up_take(events: Seq<SetupEvent>, i: int)
    requires
        0 <= i < events.len(),
    ensures
        last_action(events.take(i + 1)) == set_up(set_up_after(events.take(i)), events[i]).1,
        set_up_after(events.take(i + 1)) == set_up(set_up_after(events.take(i)), events[i]).0,
{
    assert(events.take(i + 1).drop_last() =~= events.take(i));
}

/// A holder that could not be recorded is stopped, and setting up fails, saying
/// which process still runs where even that failed. A holder that cannot be
/// looked at is neither replaced nor taken for a running one.
pub proof fn law_setup_fails_cleanly(holder: Holder, stopped: bool)
    ensures
        set_up(SetupState::Recording(holder), SetupEvent::RecordFailed) == (
            SetupState::Stopping(holder),
            SetupAction::StopUnrecorded(holder),
        ),
        set_up(
            SetupState::Stopping(holder),
            if stopped {
                SetupEvent::Stopped
            } else {
                SetupEvent::StopFailed
            },
        ).1 == SetupAction::Fail(
            if stopped {
                SetupError::NotRecorded
            } else {
                SetupError::NotStopped(holder.pid)
            },
        ),
        set_up(SetupState::Verifying(holder), SetupEvent::Verified(Verified::Failed)).1
            == SetupAction::Fail(SetupError::Unverified),
        set_up(SetupState::Starting, SetupEvent::StartFailed).1 == SetupAction::Fail(
            SetupError::NotStarted,
        ),
        set_up(SetupState::Committing, SetupEvent::CommitFailed).1 == SetupAction::Fail(
            SetupError::NotCommitted,
        ),
{
}

/// A World is torn down whatever became of its holder: one that runs is stopped,
/// one that is gone is reaped, and then it is forgotten; where there is none,
/// nothing is done.
pub proof fn law_teardown_succeeds(holder: Holder, running: bool)
    ensures
        ({
            let verified = if running {
                Verified::Running
            } else {
                Verified::Gone
            };
            let done = if running {
                TeardownEvent::Stopped
            } else {
                TeardownEvent::Reaped
            };
            let first = torn_down(TeardownState::Reading, TeardownEvent::Found(Some(holder)));
            let second = torn_down(first.0, TeardownEvent::Verified(verified));
            let third = torn_down(second.0, done);
            let last = torn_down(third.0, TeardownEvent::Forgotten);
            &&& first.1 == TeardownAction::Verify(holder)
            &&& second.1 == if running {
                TeardownAction::Stop(holder)
            } else {
                TeardownAction::Reap(holder)
            }
            &&& third.1 == TeardownAction::Forget
            &&& last.1 == TeardownAction::Succeed
            &&& torn_down(TeardownState::Reading, TeardownEvent::Found(None)).1
                == TeardownAction::Succeed
            &&& torn_down(first.0, TeardownEvent::Verified(Verified::Failed)).1
                == TeardownAction::Fail(TeardownError::Unverified)
            &&& torn_down(TeardownState::Stopping, TeardownEvent::StopFailed).1
                == TeardownAction::Fail(TeardownError::NotStopped)
            &&& torn_down(third.0, TeardownEvent::ForgetFailed).1 == TeardownAction::Fail(
                TeardownError::NotForgotten,
            )
        }),
{
}

} // verus!
