//! The process that keeps a World's namespaces alive.
use vstd::prelude::*;
use crate::sys::{EIO, ENOENT, ENOSYS, ESRCH};
use crate::text::{all_digits, chars_of, decimal, digit_of, digit_value, lemma_numeral, lemma_numeral_without, value};

verus! {

/// Identity of a process holding a World's namespaces. Start time and namespace
/// inodes guard against a process id that was used again.
#[derive(Clone, Copy, Debug, PartialEq, Eq, Structural)]
pub struct Holder {
    pub pid: u32,
    pub start_time: u64,
    pub user_ns: u64,
    pub net_ns: u64,
}

/// A character that separates words.
pub open spec fn is_space(c: char) -> bool {
    let n = c as u32;
    9 <= n <= 13 || n == 32 || n == 0x85 || n == 0xa0 || n == 0x1680 || 0x2000 <= n <= 0x200a || n
        == 0x2028 || n == 0x2029 || n == 0x202f || n == 0x205f || n == 0x3000
}

/// Where the last `)` of `t` is, or -1.
pub open spec fn last_close(t: Seq<char>) -> int
    decreases t.len(),
{
    if t.len() == 0 {
        -1
    } else if t.last() == ')' {
        t.len() - 1
    } else {
        last_close(t.drop_last())
    }
}

/// Where the first word of `t` at or after `pos` starts, or the end.
pub open spec fn word_start(t: Seq<char>, pos: int) -> int
    decreases t.len() - pos,
{
    if pos >= t.len() || !is_space(t[pos]) {
        pos
    } else {
        word_start(t, pos + 1)
    }
}

/// Where the word that starts at `pos` ends.
pub open spec fn word_end(t: Seq<char>, pos: int) -> int
    decreases t.len() - pos,
{
    if pos >= t.len() || is_space(t[pos]) {
        pos
    } else {
        word_end(t, pos + 1)
    }
}

/// The `n`th word of `t` from `pos` on, counted from zero.
pub open spec fn nth_word(t: Seq<char>, pos: int, n: nat) -> Option<Seq<char>>
    decreases n,
{
    let start = word_start(t, pos);
    if start >= t.len() {
        None
    } else if n == 0 {
        Some(t.subrange(start, word_end(t, start)))
    } else {
        nth_word(t, word_end(t, start), (n - 1) as nat)
    }
}

/// The number that a word stands for: digits, which a plus may precede.
pub open spec fn number_of(w: Seq<char>) -> Option<u64> {
    let digits = if w.len() > 0 && w[0] == '+' {
        w.skip(1)
    } else {
        w
    };
    if digits.len() > 0 && all_digits(digits, 10) && value(digits, 10) <= u64::MAX {
        Some(value(digits, 10) as u64)
    } else {
        None
    }
}

/// The place of the start time after the command name.
pub const START_TIME_FIELD: usize = 19;

/// The start time in what the kernel tells of a process. The command name in
/// parentheses may hold anything, so that the fields are counted from the last
/// closing one.
pub open spec fn start_time_of(stat: Seq<char>) -> Option<u64> {
    let close = last_close(stat);
    if close < 0 {
        None
    } else {
        match nth_word(stat, close + 1, START_TIME_FIELD as nat) {
            Some(w) => number_of(w),
            None => None,
        }
    }
}

fn space(c: char) -> (r: bool)
    ensures
        r == is_space(c),
{
    let n = c as u32;
    9 <= n && n <= 13 || n == 32 || n == 0x85 || n == 0xa0 || n == 0x1680 || 0x2000 <= n && n
        <= 0x200a || n == 0x2028 || n == 0x2029 || n == 0x202f || n == 0x205f || n == 0x3000
}

/// Values of longer digits are no smaller.
proof fn lemma_value_grows(t: Seq<char>, i: int)
    requires
        0 <= i <= t.len(),
        all_digits(t, 10),
    ensures
        value(t.take(i), 10) <= value(t, 10),
    decreases t.len() - i,
{
    if i < t.len() {
        let less = t.drop_last();
        assert(all_digits(less, 10)) by {
            assert forall|j: int| 0 <= j < less.len() implies digit_value(#[trigger] less[j])
                < 10 by {
                assert(digit_value(t[j]) < 10);
            }
        }
        assert(digit_value(t[t.len() - 1]) < 10);
        lemma_value_grows(less, i);
        assert(less.take(i) =~= t.take(i));
    } else {
        assert(t.take(i) =~= t);
    }
}

/// The number that a word stands for.
fn read_number(w: &[char]) -> (r: Option<u64>)
    ensures
        r == number_of(w@),
{
    let from: usize = if w.len() > 0 && w[0] == '+' {
        1
    } else {
        0
    };
    if w.len() == from {
        return None;
    }
    let ghost digits = w@.skip(from as int);
    proof {
        if from == 0 {
            assert(digits =~= w@);
        }
    }
    let mut n: u64 = 0;
    let mut i: usize = from;
    while i < w.len()
        invariant
            from <= i <= w@.len(),
            digits == w@.skip(from as int),
            digits == if w@.len() > 0 && w@[0] == '+' {
                w@.skip(1)
            } else {
                w@
            },
            all_digits(digits.take(i - from), 10),
            n == value(digits.take(i - from), 10),
        decreases w@.len() - i,
    {
        let ghost so_far = digits.take(i - from);
        let ghost more = digits.take(i - from + 1);
        let d = digit_of(w[i]) as u64;
        proof {
            assert(digits[i - from] == w@[i as int]);
            assert(more.drop_last() =~= so_far);
            assert(more.last() == w@[i as int]);
        }
        if d >= 10 {
            proof {
                assert(digit_value(digits[i - from]) >= 10);
            }
            return None;
        }
        proof {
            assert(all_digits(more, 10)) by {
                assert forall|j: int| 0 <= j < more.len() implies digit_value(#[trigger] more[j])
                    < 10 by {
                    if j < so_far.len() {
                        assert(digit_value(so_far[j]) < 10);
                    }
                }
            }
            assert(value(more, 10) == value(so_far, 10) * 10 + d);
        }
        if n > (u64::MAX - d) / 10 {
            proof {
                if all_digits(digits, 10) {
                    lemma_value_grows(digits, i - from + 1);
                }
            }
            return None;
        }
        n = n * 10 + d;
        i = i + 1;
    }
    proof {
        assert(digits.take(i - from) =~= digits);
    }
    Some(n)
}

/// The start time in what the kernel tells of a process.
pub fn parse_start_time(stat: &str) -> (r: Option<u64>)
    ensures
        r == start_time_of(stat@),
{
    let t = chars_of(stat);
    let mut close: usize = t.len();
    proof {
        assert(t@.take(close as int) =~= t@);
    }
    while close > 0 && t[close - 1] != ')'
        invariant
            close <= t@.len(),
            last_close(t@.take(close as int)) == last_close(t@),
        decreases close,
    {
        proof {
            assert(t@.take(close as int).drop_last() =~= t@.take(close - 1));
        }
        close = close - 1;
    }
    if close == 0 {
        return None;
    }
    let mut pos: usize = close;
    let mut n: usize = START_TIME_FIELD;
    loop
        invariant
            t@ == stat@,
            pos <= t@.len(),
            0 < close,
            last_close(t@) == close - 1,
            nth_word(t@, pos as int, n as nat) == nth_word(
                t@,
                close as int,
                START_TIME_FIELD as nat,
            ),
        decreases n,
    {
        let ghost from = pos as int;
        while pos < t.len() && space(t[pos])
            invariant
                pos <= t@.len(),
                word_start(t@, pos as int) == word_start(t@, from),
            decreases t@.len() - pos,
        {
            pos = pos + 1;
        }
        if pos >= t.len() {
            return None;
        }
        let start = pos;
        proof {
            assert(word_start(t@, from) == start);
        }
        while pos < t.len() && !space(t[pos])
            invariant
                start <= pos <= t@.len(),
                word_end(t@, pos as int) == word_end(t@, start as int),
            decreases t@.len() - pos,
        {
            pos = pos + 1;
        }
        if n == 0 {
            return read_number(&t[start..pos]);
        }
        n = n - 1;
    }
}

/// What was found where a holder's namespace or start time should be.
#[derive(Clone, Copy, Debug, PartialEq, Eq, Structural)]
pub enum Observed {
    /// No such process is left.
    Gone,
    /// An inode number or a start time.
    Seen(u64),
    /// It could not be told, for want of descriptors for example.
    Failed,
}

/// What an error says of a process.
pub fn observed_error(errno: i32) -> (r: Observed)
    ensures
        r == if errno == ENOENT || errno == ESRCH {
            Observed::Gone
        } else {
            Observed::Failed
        },
        r == Observed::Gone <==> errno == 2 || errno == 3,
{
    if errno == ENOENT || errno == ESRCH {
        Observed::Gone
    } else {
        Observed::Failed
    }
}

/// Whether a recorded holder still runs.
#[derive(Clone, Copy, Debug, PartialEq, Eq, Structural)]
pub enum Verified {
    Running,
    /// It is definitely gone.
    Gone,
    /// It could not be told. The record is kept, so that no live holder is
    /// forgotten.
    Failed,
}

impl Holder {
    /// What the observations say, in the order in which they are made: the
    /// namespaces first, since open descriptors keep them alive.
    pub open spec fn verdict(self, user: Observed, net: Observed, time: Observed) -> Verified {
        match user {
            Observed::Failed => Verified::Failed,
            Observed::Gone => Verified::Gone,
            Observed::Seen(u) => if u != self.user_ns {
                Verified::Gone
            } else {
                match net {
                    Observed::Failed => Verified::Failed,
                    Observed::Gone => Verified::Gone,
                    Observed::Seen(n) => if n != self.net_ns {
                        Verified::Gone
                    } else {
                        match time {
                            Observed::Failed => Verified::Failed,
                            Observed::Gone => Verified::Gone,
                            Observed::Seen(t) => if t == self.start_time {
                                Verified::Running
                            } else {
                                Verified::Gone
                            },
                        }
                    },
                }
            },
        }
    }

    /// Whether the holder still runs. `net` is called only when the user
    /// namespace is the recorded one, and `time` only when both are.
    pub fn verify<
        U: FnOnce() -> Observed,
        N: FnOnce() -> Observed,
        T: FnOnce() -> Observed,
    >(&self, user: U, net: N, time: T) -> (r: Verified)
        requires
            call_requires(user, ()),
            call_requires(net, ()),
            call_requires(time, ()),
        ensures
            exists|u: Observed, n: Observed, t: Observed|
                {
                    &&& r == #[trigger] self.verdict(u, n, t)
                    &&& call_ensures(user, (), u)
                    &&& u == Observed::Seen(self.user_ns) ==> call_ensures(net, (), n)
                    &&& u == Observed::Seen(self.user_ns) && n == Observed::Seen(self.net_ns)
                        ==> call_ensures(time, (), t)
                },
    {
        let u = user();
        match u {
            Observed::Failed => {
                assert(self.verdict(u, u, u) == Verified::Failed);
                return Verified::Failed;
            },
            Observed::Gone => {
                assert(self.verdict(u, u, u) == Verified::Gone);
                return Verified::Gone;
            },
            Observed::Seen(inode) => {
                if inode != self.user_ns {
                    assert(self.verdict(u, u, u) == Verified::Gone);
                    return Verified::Gone;
                }
            },
        }
        let n = net();
        match n {
            Observed::Failed => {
                assert(self.verdict(u, n, n) == Verified::Failed);
                return Verified::Failed;
            },
            Observed::Gone => {
                assert(self.verdict(u, n, n) == Verified::Gone);
                return Verified::Gone;
            },
            Observed::Seen(inode) => {
                if inode != self.net_ns {
                    assert(self.verdict(u, n, n) == Verified::Gone);
                    return Verified::Gone;
                }
            },
        }
        let t = time();
        let verified = match t {
            Observed::Failed => Verified::Failed,
            Observed::Gone => Verified::Gone,
            Observed::Seen(start) => if start == self.start_time {
                Verified::Running
            } else {
                Verified::Gone
            },
        };
        assert(self.verdict(u, n, t) == verified);
        verified
    }

    /// Whether a pinned process is the recorded one and may be reaped.
    pub fn may_reap(&self, time: Observed) -> (r: bool)
        ensures
            r == (time == Observed::Seen(self.start_time)),
    {
        match time {
            Observed::Seen(t) => t == self.start_time,
            _ => false,
        }
    }
}

/// A process whose id was used again is not taken for the holder: one that
/// started at another time, or has another namespace, is not running.
pub proof fn law_reused_id_is_not_running(
    holder: Holder,
    user: Observed,
    net: Observed,
    time: Observed,
)
    ensures
        holder.verdict(user, net, time) == Verified::Running <==> user == Observed::Seen(
            holder.user_ns,
        ) && net == Observed::Seen(holder.net_ns) && time == Observed::Seen(holder.start_time),
{
}

/// How far the start of a holder has come, as its starter sees it.
#[derive(Clone, Copy, Debug, PartialEq, Eq, Structural)]
pub enum StartState {
    /// The holder has yet to report its process id.
    AwaitPid,
    /// It waits to be pinned.
    Pinning { pid: i32 },
    /// It is told that it is pinned, as far as the kernel can.
    Acknowledging { pid: i32, pinned: bool },
    /// It makes its namespaces.
    AwaitStatus { pid: i32, pinned: bool },
    /// It runs, and is looked at.
    Observing { pid: i32, pinned: bool },
    /// It could not be looked at, and is stopped.
    Killing { pid: i32, pinned: bool },
    Ended,
}

/// What happens to the starter of a holder.
#[derive(Clone, Copy, Debug, PartialEq, Eq, Structural)]
pub enum StartEvent {
    /// The holder reported a number.
    Reported(i32),
    /// The holder's report ended.
    Closed,
    Pinned,
    PinFailed(i32),
    Sent,
    SendFailed(i32),
    Observed(Holder),
    NotObserved,
    Killed,
    KillFailed,
}

/// Why there is no holder.
#[derive(Clone, Copy, Debug, PartialEq, Eq, Structural)]
pub enum StartError {
    /// It did not start.
    NotStarted,
    /// It could not be pinned.
    Pin(i32),
    /// It failed with an error.
    Failed(i32),
    /// It could not be looked at, and was stopped.
    NotObserved,
    /// It could not be looked at, nor stopped.
    NotStopped(i32),
    /// What happened does not belong there.
    Protocol,
}

/// What the starter of a holder does next.
#[derive(Clone, Copy, Debug, PartialEq, Eq, Structural)]
pub enum StartAction {
    /// Read a number that the holder reports.
    ReadReport,
    /// Pin the process.
    Pin(i32),
    /// Tell the holder that it is pinned.
    SendPinned,
    /// Look at the holder.
    Observe(i32),
    /// Stop the holder: through the pin where there is one.
    Kill { pid: i32, pinned: bool },
    /// The holder runs. It waits for its record to be committed.
    Started { holder: Holder, pinned: bool },
    /// Give up, and reap the holder through its pin where `reap` says so.
    Fail { error: StartError, reap: bool },
}

/// The error that a status stands for.
pub open spec fn status_error(status: i32) -> i32 {
    if status == i32::MIN {
        EIO
    } else {
        (-status) as i32
    }
}

/// The status that an error is reported as.
pub open spec fn failure_status(errno: Option<i32>) -> i32 {
    match errno {
        None => (-EIO) as i32,
        Some(e) => if e == i32::MIN {
            i32::MIN
        } else {
            (-e) as i32
        },
    }
}

/// What the starter of a holder does next. The holder goes on only once it is
/// pinned; only a kernel without pins may go on without one.
pub open spec fn started(state: StartState, event: StartEvent) -> (StartState, StartAction) {
    match (state, event) {
        (StartState::AwaitPid, StartEvent::Reported(pid)) => (
            StartState::Pinning { pid },
            StartAction::Pin(pid),
        ),
        (StartState::AwaitPid, StartEvent::Closed) => (
            StartState::Ended,
            StartAction::Fail { error: StartError::NotStarted, reap: false },
        ),
        (StartState::Pinning { pid }, StartEvent::Pinned) => (
            StartState::Acknowledging { pid, pinned: true },
            StartAction::SendPinned,
        ),
        (StartState::Pinning { pid }, StartEvent::PinFailed(errno)) => if errno == ENOSYS {
            (StartState::Acknowledging { pid, pinned: false }, StartAction::SendPinned)
        } else {
            (StartState::Ended, StartAction::Fail { error: StartError::Pin(errno), reap: false })
        },
        (StartState::Acknowledging { pid, pinned }, StartEvent::Sent) => (
            StartState::AwaitStatus { pid, pinned },
            StartAction::ReadReport,
        ),
        (StartState::Acknowledging { pid, pinned }, StartEvent::SendFailed(errno)) => (
            StartState::Ended,
            StartAction::Fail { error: StartError::Failed(errno), reap: pinned },
        ),
        (StartState::AwaitStatus { pid, pinned }, StartEvent::Reported(status)) => if status == 0 {
            (StartState::Observing { pid, pinned }, StartAction::Observe(pid))
        } else {
            (
                StartState::Ended,
                StartAction::Fail {
                    error: StartError::Failed(status_error(status)),
                    reap: pinned,
                },
            )
        },
        (StartState::AwaitStatus { pid, pinned }, StartEvent::Closed) => (
            StartState::Ended,
            StartAction::Fail { error: StartError::NotStarted, reap: pinned },
        ),
        (StartState::Observing { pid, pinned }, StartEvent::Observed(holder)) => (
            StartState::Ended,
            StartAction::Started { holder, pinned },
        ),
        (StartState::Observing { pid, pinned }, StartEvent::NotObserved) => (
            StartState::Killing { pid, pinned },
            StartAction::Kill { pid, pinned },
        ),
        (StartState::Killing { pid, pinned }, StartEvent::Killed) => (
            StartState::Ended,
            StartAction::Fail { error: StartError::NotObserved, reap: pinned },
        ),
        (StartState::Killing { pid, pinned }, StartEvent::KillFailed) => (
            StartState::Ended,
            StartAction::Fail { error: StartError::NotStopped(pid), reap: false },
        ),
        _ => (StartState::Ended, StartAction::Fail { error: StartError::Protocol, reap: false }),
    }
}

/// What the starter of a holder does next.
pub fn start_step(state: StartState, event: StartEvent) -> (r: (StartState, StartAction))
    ensures
        r == started(state, event),
{
    match (state, event) {
        (StartState::AwaitPid, StartEvent::Reported(pid)) => (
            StartState::Pinning { pid },
            StartAction::Pin(pid),
        ),
        (StartState::AwaitPid, StartEvent::Closed) => (
            StartState::Ended,
            StartAction::Fail { error: StartError::NotStarted, reap: false },
        ),
        (StartState::Pinning { pid }, StartEvent::Pinned) => (
            StartState::Acknowledging { pid, pinned: true },
            StartAction::SendPinned,
        ),
        (StartState::Pinning { pid }, StartEvent::PinFailed(errno)) => if errno == ENOSYS {
            (StartState::Acknowledging { pid, pinned: false }, StartAction::SendPinned)
        } else {
            (StartState::Ended, StartAction::Fail { error: StartError::Pin(errno), reap: false })
        },
        (StartState::Acknowledging { pid, pinned }, StartEvent::Sent) => (
            StartState::AwaitStatus { pid, pinned },
            StartAction::ReadReport,
        ),
        (StartState::Acknowledging { pid, pinned }, StartEvent::SendFailed(errno)) => (
            StartState::Ended,
            StartAction::Fail { error: StartError::Failed(errno), reap: pinned },
        ),
        (StartState::AwaitStatus { pid, pinned }, StartEvent::Reported(status)) => if status == 0 {
            (StartState::Observing { pid, pinned }, StartAction::Observe(pid))
        } else {
            let errno = if status == i32::MIN {
                EIO
            } else {
                -status
            };
            (
                StartState::Ended,
                StartAction::Fail { error: StartError::Failed(errno), reap: pinned },
            )
        },
        (StartState::AwaitStatus { pid, pinned }, StartEvent::Closed) => (
            StartState::Ended,
            StartAction::Fail { error: StartError::NotStarted, reap: pinned },
        ),
        (StartState::Observing { pid, pinned }, StartEvent::Observed(holder)) => (
            StartState::Ended,
            StartAction::Started { holder, pinned },
        ),
        (StartState::Observing { pid, pinned }, StartEvent::NotObserved) => (
            StartState::Killing { pid, pinned },
            StartAction::Kill { pid, pinned },
        ),
        (StartState::Killing { pid, pinned }, StartEvent::Killed) => (
            StartState::Ended,
            StartAction::Fail { error: StartError::NotObserved, reap: pinned },
        ),
        (StartState::Killing { pid, pinned }, StartEvent::KillFailed) => (
            StartState::Ended,
            StartAction::Fail { error: StartError::NotStopped(pid), reap: false },
        ),
        _ => (StartState::Ended, StartAction::Fail { error: StartError::Protocol, reap: false }),
    }
}

/// How far a holder itself has come.
#[derive(Clone, Copy, Debug, PartialEq, Eq, Structural)]
pub enum HoldState {
    /// It reports its process id.
    Reporting,
    /// It waits to be pinned.
    AwaitPin,
    /// It makes its namespaces.
    Entering,
    /// It reports that it made them.
    Ready,
    /// It waits for its record to be committed.
    AwaitCommit,
    /// It keeps the namespaces.
    Holding,
    /// It is gone.
    Gone,
}

/// What happens to a holder.
#[derive(Clone, Copy, Debug, PartialEq, Eq, Structural)]
pub enum HoldEvent {
    /// What it reported was taken.
    Sent,
    /// What it reported was not taken.
    SendFailed,
    /// A byte came.
    Byte,
    /// A signal came while it waited for one.
    Interrupted,
    /// Its starter is gone, or could not be read.
    Eof,
    /// Its namespaces are made.
    Entered,
    /// They could not be made, or inherited descriptors not closed. There may be
    /// no error number.
    EnterFailed(Option<i32>),
}

/// What a holder does next.
#[derive(Clone, Copy, Debug, PartialEq, Eq, Structural)]
pub enum HoldAction {
    /// Wait for a byte.
    Await,
    /// Make the namespaces.
    Enter,
    /// Report a status.
    Report(i32),
    /// Keep the namespaces.
    Hold,
    /// Report a status, and exit.
    ReportAndExit(i32),
    Exit,
}

/// What a holder does next. It never runs unpinned, and it exits rather than
/// run unrecorded.
pub open spec fn held(state: HoldState, event: HoldEvent) -> (HoldState, HoldAction) {
    match (state, event) {
        (HoldState::Reporting, HoldEvent::Sent) => (HoldState::AwaitPin, HoldAction::Await),
        (HoldState::AwaitPin, HoldEvent::Byte) => (HoldState::Entering, HoldAction::Enter),
        (HoldState::AwaitPin, HoldEvent::Interrupted) => (HoldState::AwaitPin, HoldAction::Await),
        (HoldState::Entering, HoldEvent::Entered) => (HoldState::Ready, HoldAction::Report(0)),
        (HoldState::Entering, HoldEvent::EnterFailed(errno)) => (
            HoldState::Gone,
            HoldAction::ReportAndExit(failure_status(errno)),
        ),
        (HoldState::Ready, HoldEvent::Sent) => (HoldState::AwaitCommit, HoldAction::Await),
        (HoldState::AwaitCommit, HoldEvent::Byte) => (HoldState::Holding, HoldAction::Hold),
        (HoldState::AwaitCommit, HoldEvent::Interrupted) => (
            HoldState::AwaitCommit,
            HoldAction::Await,
        ),
        _ => (HoldState::Gone, HoldAction::Exit),
    }
}

/// What a holder does next.
pub fn hold_step(state: HoldState, event: HoldEvent) -> (r: (HoldState, HoldAction))
    ensures
        r == held(state, event),
{
    match (state, event) {
        (HoldState::Reporting, HoldEvent::Sent) => (HoldState::AwaitPin, HoldAction::Await),
        (HoldState::AwaitPin, HoldEvent::Byte) => (HoldState::Entering, HoldAction::Enter),
        (HoldState::AwaitPin, HoldEvent::Interrupted) => (HoldState::AwaitPin, HoldAction::Await),
        (HoldState::Entering, HoldEvent::Entered) => (HoldState::Ready, HoldAction::Report(0)),
        (HoldState::Entering, HoldEvent::EnterFailed(errno)) => {
            let status = match errno {
                None => -EIO,
                Some(e) => if e == i32::MIN {
                    e
                } else {
                    -e
                },
            };
            (HoldState::Gone, HoldAction::ReportAndExit(status))
        },
        (HoldState::Ready, HoldEvent::Sent) => (HoldState::AwaitCommit, HoldAction::Await),
        (HoldState::AwaitCommit, HoldEvent::Byte) => (HoldState::Holding, HoldAction::Hold),
        (HoldState::AwaitCommit, HoldEvent::Interrupted) => (
            HoldState::AwaitCommit,
            HoldAction::Await,
        ),
        _ => (HoldState::Gone, HoldAction::Exit),
    }
}

/// Where a holder is after some events.
pub open spec fn held_after(state: HoldState, events: Seq<HoldEvent>) -> HoldState
    decreases events.len(),
{
    if events.len() == 0 {
        state
    } else {
        held(held_after(state, events.drop_last()), events.last()).0
    }
}

/// How many bytes came.
pub open spec fn bytes_in(events: Seq<HoldEvent>) -> nat
    decreases events.len(),
{
    if events.len() == 0 {
        0
    } else {
        bytes_in(events.drop_last()) + if events.last() == HoldEvent::Byte {
            1nat
        } else {
            0nat
        }
    }
}

/// A holder makes no namespaces before a first byte told it that it is pinned,
/// and keeps none before a second told it that its record was committed.
pub proof fn law_uncommitted_holder_exits(events: Seq<HoldEvent>)
    ensures
        ({
            let state = held_after(HoldState::Reporting, events);
            &&& state is Holding ==> bytes_in(events) >= 2
            &&& state is Entering || state is Ready || state is AwaitCommit ==> bytes_in(events)
                >= 1
        }),
    decreases events.len(),
{
    if events.len() > 0 {
        law_uncommitted_holder_exits(events.drop_last());
    }
}

/// Once its starter is gone, a holder that was not committed exits, whatever
/// comes after.
pub proof fn law_orphan_exits(state: HoldState, later: Seq<HoldEvent>)
    requires
        !(state is Holding),
    ensures
        held_after(held(state, HoldEvent::Eof).0, later) is Gone,
    decreases later.len(),
{
    if later.len() > 0 {
        law_orphan_exits(state, later.drop_last());
    }
}

/// A holder is told that it is pinned only when it is, or on a kernel without
/// pins; it counts as started only when it reported success and was looked at;
/// what failed after it was pinned is reaped through the pin.
pub proof fn law_started_only_when_pinned(state: StartState, event: StartEvent)
    ensures
        ({
            let (next, action) = started(state, event);
            &&& action is SendPinned ==> state is Pinning && (event is Pinned || event
                == StartEvent::PinFailed(ENOSYS))
            &&& action is SendPinned ==> (next matches StartState::Acknowledging { pinned, .. }
                && pinned == (event is Pinned))
            &&& action is Observe ==> state is AwaitStatus && event == StartEvent::Reported(0)
            &&& action is Started ==> state is Observing && event is Observed
            &&& state is Acknowledging && event is SendFailed ==> action is Fail
                && action->reap == state->Acknowledging_pinned
            &&& state is AwaitStatus && action is Fail && (event is Reported || event is Closed)
                ==> action->reap == state->AwaitStatus_pinned
        }),
{
}

/// The error that stopped a holder reaches its starter, and never as a success.
pub proof fn law_failure_reported(errno: Option<i32>)
    requires
        errno matches Some(e) ==> 0 < e,
    ensures
        ({
            let status = failure_status(errno);
            &&& status != 0
            &&& status_error(status) == (match errno {
                Some(e) => e,
                None => EIO,
            })
        }),
{
}

/// How far the stop of a holder has come.
#[derive(Clone, Copy, Debug, PartialEq, Eq, Structural)]
pub enum StopState {
    /// The process is pinned.
    Pinning,
    /// It is looked at.
    Verifying { pinned: bool },
    /// It is signalled.
    Signalling { pinned: bool },
    Ended,
}

/// What happens to what stops a holder.
#[derive(Clone, Copy, Debug, PartialEq, Eq, Structural)]
pub enum StopEvent {
    Pinned,
    PinFailed(i32),
    Verified(Verified),
    Signalled,
    SignalFailed(i32),
}

/// Why a holder was not stopped.
#[derive(Clone, Copy, Debug, PartialEq, Eq, Structural)]
pub enum StopError {
    Pin(i32),
    /// The recorded holder is no longer running.
    NotRunning,
    /// It could not be told whether it runs.
    Unknown,
    Signal(i32),
    Protocol,
}

/// What is done next to stop a holder.
#[derive(Clone, Copy, Debug, PartialEq, Eq, Structural)]
pub enum StopAction {
    Verify,
    /// Kill it: through the pin where there is one.
    Kill { pinned: bool },
    /// It is stopped. Reap it through its pin where there is one.
    Stopped { reap: bool },
    Fail(StopError),
}

/// What is done next to stop a holder. The process is pinned first, then
/// verified, so that the signal cannot reach one that used its id again. Only a
/// kernel without pins signals by number.
pub open spec fn stopped(state: StopState, event: StopEvent) -> (StopState, StopAction) {
    match (state, event) {
        (StopState::Pinning, StopEvent::Pinned) => (
            StopState::Verifying { pinned: true },
            StopAction::Verify,
        ),
        (StopState::Pinning, StopEvent::PinFailed(errno)) => if errno == ENOSYS {
            (StopState::Verifying { pinned: false }, StopAction::Verify)
        } else {
            (StopState::Ended, StopAction::Fail(StopError::Pin(errno)))
        },
        (StopState::Verifying { pinned }, StopEvent::Verified(verified)) => match verified {
            Verified::Running => (
                StopState::Signalling { pinned },
                StopAction::Kill { pinned },
            ),
            Verified::Gone => (StopState::Ended, StopAction::Fail(StopError::NotRunning)),
            Verified::Failed => (StopState::Ended, StopAction::Fail(StopError::Unknown)),
        },
        (StopState::Signalling { pinned }, StopEvent::Signalled) => (
            StopState::Ended,
            StopAction::Stopped { reap: pinned },
        ),
        (StopState::Signalling { pinned }, StopEvent::SignalFailed(errno)) => (
            StopState::Ended,
            StopAction::Fail(StopError::Signal(errno)),
        ),
        _ => (StopState::Ended, StopAction::Fail(StopError::Protocol)),
    }
}

/// What is done next to stop a holder.
pub fn stop_step(state: StopState, event: StopEvent) -> (r: (StopState, StopAction))
    ensures
        r == stopped(state, event),
{
    match (state, event) {
        (StopState::Pinning, StopEvent::Pinned) => (
            StopState::Verifying { pinned: true },
            StopAction::Verify,
        ),
        (StopState::Pinning, StopEvent::PinFailed(errno)) => if errno == ENOSYS {
            (StopState::Verifying { pinned: false }, StopAction::Verify)
        } else {
            (StopState::Ended, StopAction::Fail(StopError::Pin(errno)))
        },
        (StopState::Verifying { pinned }, StopEvent::Verified(verified)) => match verified {
            Verified::Running => (
                StopState::Signalling { pinned },
                StopAction::Kill { pinned },
            ),
            Verified::Gone => (StopState::Ended, StopAction::Fail(StopError::NotRunning)),
            Verified::Failed => (StopState::Ended, StopAction::Fail(StopError::Unknown)),
        },
        (StopState::Signalling { pinned }, StopEvent::Signalled) => (
            StopState::Ended,
            StopAction::Stopped { reap: pinned },
        ),
        (StopState::Signalling { pinned }, StopEvent::SignalFailed(errno)) => (
            StopState::Ended,
            StopAction::Fail(StopError::Signal(errno)),
        ),
        _ => (StopState::Ended, StopAction::Fail(StopError::Protocol)),
    }
}

/// Only a verified holder is killed, and through its pin whenever the kernel
/// has pins.
pub proof fn law_kills_only_verified(state: StopState, event: StopEvent)
    ensures
        ({
            let (next, action) = stopped(state, event);
            &&& action matches StopAction::Kill { pinned } ==> event == StopEvent::Verified(
                Verified::Running,
            ) && state == (StopState::Verifying { pinned })
            &&& next == (StopState::Verifying { pinned: false }) ==> event
                == StopEvent::PinFailed(ENOSYS)
        }),
{
}

/// A text of words, each after one space.
pub open spec fn spaced(words: Seq<Seq<char>>) -> Seq<char>
    decreases words.len(),
{
    if words.len() == 0 {
        Seq::empty()
    } else {
        seq![' '] + words[0] + spaced(words.skip(1))
    }
}

/// A text that is one word, with no closing parenthesis in it.
pub open spec fn is_word(w: Seq<char>) -> bool {
    w.len() > 0 && forall|i: int| 0 <= i < w.len() ==> !is_space(#[trigger] w[i]) && w[i] != ')'
}

proof fn lemma_word_start(t: Seq<char>, pos: int, at: int)
    requires
        0 <= pos <= at <= t.len(),
        at < t.len() ==> !is_space(t[at]),
        forall|i: int| pos <= i < at ==> is_space(#[trigger] t[i]),
    ensures
        word_start(t, pos) == at,
    decreases at - pos,
{
    if pos < at {
        assert(is_space(t[pos]));
        lemma_word_start(t, pos + 1, at);
    }
}

proof fn lemma_word_end(t: Seq<char>, pos: int, at: int)
    requires
        0 <= pos <= at <= t.len(),
        at < t.len() ==> is_space(t[at]),
        forall|i: int| pos <= i < at ==> !is_space(#[trigger] t[i]),
    ensures
        word_end(t, pos) == at,
    decreases at - pos,
{
    if pos < at {
        assert(!is_space(t[pos]));
        lemma_word_end(t, pos + 1, at);
    }
}

/// The words of a spaced text are those that it was made of, whatever stands
/// before them.
proof fn lemma_nth_word(before: Seq<char>, words: Seq<Seq<char>>, n: nat)
    requires
        n < words.len(),
        forall|i: int| 0 <= i < words.len() ==> is_word(#[trigger] words[i]),
    ensures
        nth_word(before + spaced(words), before.len() as int, n) == Some(words[n as int]),
    decreases n,
{
    let t = before + spaced(words);
    let w = words[0];
    let rest = words.skip(1);
    let at: int = before.len() as int + 1;
    assert(is_word(w));
    assert(t =~= before + seq![' '] + w + spaced(rest));
    assert(is_space(' '));
    assert(forall|i: int| 0 <= i < w.len() ==> #[trigger] t[at + i] == w[i]);
    assert(t[at + 0] == w[0]);
    lemma_word_start(t, before.len() as int, at);
    let end: int = at + w.len();
    if rest.len() > 0 {
        assert(t[end] == spaced(rest)[0]);
    }
    assert forall|i: int| at <= i < end implies !is_space(#[trigger] t[i]) by {
        assert(t[at + (i - at)] == w[i - at]);
    }
    lemma_word_end(t, at, end);
    if n == 0 {
        assert(t.subrange(at, end) =~= w);
    } else {
        assert forall|i: int| 0 <= i < rest.len() implies is_word(#[trigger] rest[i]) by {
            assert(is_word(words[i + 1]));
        }
        lemma_nth_word(before + seq![' '] + w, rest, (n - 1) as nat);
        assert(rest[n - 1] == words[n as int]);
    }
}

proof fn lemma_last_close(t: Seq<char>, at: int)
    requires
        0 <= at < t.len(),
        t[at] == ')',
        forall|i: int| at < i < t.len() ==> #[trigger] t[i] != ')',
    ensures
        last_close(t) == at,
    decreases t.len(),
{
    if at < t.len() - 1 {
        assert(t[t.len() - 1] != ')');
        lemma_last_close(t.drop_last(), at);
    }
}

proof fn lemma_spaced_open(words: Seq<Seq<char>>)
    requires
        forall|i: int| 0 <= i < words.len() ==> is_word(#[trigger] words[i]),
    ensures
        forall|i: int| 0 <= i < spaced(words).len() ==> #[trigger] spaced(words)[i] != ')',
    decreases words.len(),
{
    if words.len() > 0 {
        let rest = words.skip(1);
        assert forall|i: int| 0 <= i < rest.len() implies is_word(#[trigger] rest[i]) by {
            assert(is_word(words[i + 1]));
        }
        lemma_spaced_open(rest);
        assert(is_word(words[0]));
        let w = words[0];
        assert forall|i: int| 0 <= i < spaced(words).len() implies #[trigger] spaced(words)[i]
            != ')' by {
            if i > 0 && i <= w.len() {
                assert(spaced(words)[i] == w[i - 1]);
            } else if i > w.len() {
                assert(spaced(words)[i] == spaced(rest)[i - 1 - w.len()]);
            }
        }
    }
}

/// The start time is the number in the twentieth field behind the command's name,
/// whatever the name holds.
pub proof fn law_start_time_is_read(name: Seq<char>, fields: Seq<Seq<char>>, n: u64)
    requires
        forall|i: int| 0 <= i < fields.len() ==> is_word(#[trigger] fields[i]),
        fields.len() >= 20,
        fields[19] == decimal(n as nat),
    ensures
        start_time_of(name + seq![')'] + spaced(fields)) == Some(n),
{
    let before = name + seq![')'];
    let t = before + spaced(fields);
    lemma_spaced_open(fields);
    assert forall|i: int| name.len() < i < t.len() implies #[trigger] t[i] != ')' by {
        assert(t[i] == spaced(fields)[i - before.len()]);
    }
    assert(t[name.len() as int] == ')');
    lemma_last_close(t, name.len() as int);
    lemma_nth_word(before, fields, 19);
    let w = decimal(n as nat);
    lemma_numeral(n as nat, 10);
    lemma_numeral_without(n as nat, 10, '+');
    assert(w[0] != '+') by {
        assert(w.contains(w[0]));
    }
}

/// What is seen of a process decides in order: the first thing that is not as
/// recorded says whether the holder is gone or cannot be looked at.
pub proof fn law_first_difference_decides(holder: Holder, seen: Observed, other: Observed)
    ensures
        seen != Observed::Seen(holder.user_ns) ==> (holder.verdict(seen, other, other)
            == Verified::Failed <==> seen == Observed::Failed),
        seen != Observed::Seen(holder.net_ns) ==> (holder.verdict(
            Observed::Seen(holder.user_ns),
            seen,
            other,
        ) == Verified::Failed <==> seen == Observed::Failed),
        seen != Observed::Seen(holder.start_time) ==> (holder.verdict(
            Observed::Seen(holder.user_ns),
            Observed::Seen(holder.net_ns),
            seen,
        ) == Verified::Failed <==> seen == Observed::Failed),
{
}

/// A holder whose every step succeeds is started: it reports itself, is pinned
/// and told so, reports success, and is looked at. A kernel without pins, which
/// says 38, makes no other difference than that it has none.
pub proof fn law_start_succeeds(pid: i32, holder: Holder, pins: bool)
    ensures
        ({
            let one = started(StartState::AwaitPid, StartEvent::Reported(pid));
            let two = started(
                one.0,
                if pins {
                    StartEvent::Pinned
                } else {
                    StartEvent::PinFailed(38)
                },
            );
            let three = started(two.0, StartEvent::Sent);
            let four = started(three.0, StartEvent::Reported(0));
            let five = started(four.0, StartEvent::Observed(holder));
            &&& one.1 == StartAction::Pin(pid)
            &&& two.1 == StartAction::SendPinned
            &&& three.1 == StartAction::ReadReport
            &&& four.1 == StartAction::Observe(pid)
            &&& five.1 == (StartAction::Started { holder, pinned: pins })
        }),
{
}

/// A holder that fails is not started: it says why by its error number, and what
/// could not be looked at is killed.
pub proof fn law_start_fails(pid: i32, pinned: bool, errno: i32)
    requires
        0 < errno,
        errno != 38,
    ensures
        started(StartState::Pinning { pid }, StartEvent::PinFailed(errno)).1 == (
        StartAction::Fail { error: StartError::Pin(errno), reap: false }),
        started(StartState::AwaitStatus { pid, pinned }, StartEvent::Reported((-errno) as i32)).1
            == (StartAction::Fail { error: StartError::Failed(errno), reap: pinned }),
        ({
            let kill = started(StartState::Observing { pid, pinned }, StartEvent::NotObserved);
            &&& kill.1 == (StartAction::Kill { pid, pinned })
            &&& started(kill.0, StartEvent::Killed).1 == (StartAction::Fail {
                error: StartError::NotObserved,
                reap: pinned,
            })
            &&& started(kill.0, StartEvent::KillFailed).1 == (StartAction::Fail {
                error: StartError::NotStopped(pid),
                reap: false,
            })
        }),
        started(StartState::AwaitPid, StartEvent::Closed).1 == (StartAction::Fail {
            error: StartError::NotStarted,
            reap: false,
        }),
{
}

/// A holder whose every step succeeds holds: it reports itself, waits for a byte,
/// makes its namespaces, reports success with zero, and waits for another byte.
/// Being interrupted only makes it wait on.
pub proof fn law_hold_succeeds(errno: i32)
    requires
        0 < errno,
    ensures
        ({
            let one = held(HoldState::Reporting, HoldEvent::Sent);
            let two = held(one.0, HoldEvent::Byte);
            let three = held(two.0, HoldEvent::Entered);
            let four = held(three.0, HoldEvent::Sent);
            let five = held(four.0, HoldEvent::Byte);
            &&& one.1 == HoldAction::Await
            &&& two.1 == HoldAction::Enter
            &&& three.1 == HoldAction::Report(0)
            &&& four.1 == HoldAction::Await
            &&& five.1 == HoldAction::Hold
            &&& held(one.0, HoldEvent::Interrupted) == (one.0, HoldAction::Await)
            &&& held(four.0, HoldEvent::Interrupted) == (four.0, HoldAction::Await)
            &&& held(two.0, HoldEvent::EnterFailed(Some(errno))).1 == HoldAction::ReportAndExit(
                (-errno) as i32,
            )
        }),
{
}

/// A holder that runs is stopped: it is pinned where the kernel can, looked at,
/// and killed through the pin it has.
pub proof fn law_stop_succeeds(pins: bool, errno: i32)
    requires
        errno != 38,
    ensures
        ({
            let one = stopped(
                StopState::Pinning,
                if pins {
                    StopEvent::Pinned
                } else {
                    StopEvent::PinFailed(38)
                },
            );
            let two = stopped(one.0, StopEvent::Verified(Verified::Running));
            let three = stopped(two.0, StopEvent::Signalled);
            &&& one.1 == StopAction::Verify
            &&& two.1 == (StopAction::Kill { pinned: pins })
            &&& three.1 == (StopAction::Stopped { reap: pins })
            &&& stopped(StopState::Pinning, StopEvent::PinFailed(errno)).1 == StopAction::Fail(
                StopError::Pin(errno),
            )
            &&& stopped(one.0, StopEvent::Verified(Verified::Gone)).1 == StopAction::Fail(
                StopError::NotRunning,
            )
            &&& stopped(one.0, StopEvent::Verified(Verified::Failed)).1 == StopAction::Fail(
                StopError::Unknown,
            )
            &&& stopped(two.0, StopEvent::SignalFailed(errno)).1 == StopAction::Fail(
                StopError::Signal(errno),
            )
        }),
{
}

/// A number may be written with a plus before it, and with leading zeros; a text
/// with anything else in it is none. Of the first 128 characters, six part words.
pub proof fn law_numbers_are_read(n: u64, w: Seq<char>, i: int, c: char)
    requires
        0 <= i < w.len(),
        !('0' <= w[i] <= '9'),
        i > 0 || w[i] != '+',
        (c as int) < 128,
    ensures
        number_of(decimal(n as nat)) == Some(n),
        number_of(seq!['+'] + decimal(n as nat)) == Some(n),
        number_of(seq!['0'] + decimal(n as nat)) == Some(n),
        number_of(w) is None,
        is_space(c) <==> c as int == 32 || 9 <= c as int <= 13,
{
    let t = decimal(n as nat);
    lemma_numeral(n as nat, 10);
    lemma_numeral_without(n as nat, 10, '+');
    assert(t[0] != '+') by {
        assert(t.contains(t[0]));
    }
    assert((seq!['+'] + t).skip(1) =~= t);
    lemma_leading_zero(t);
    let digits = if w[0] == '+' {
        w.skip(1)
    } else {
        w
    };
    let at = if w[0] == '+' {
        i - 1
    } else {
        i
    };
    if digits.len() > 0 {
        assert(digits[at] == w[i]);
        assert(digit_value(digits[at]) >= 10);
    }
}

proof fn lemma_leading_zero(t: Seq<char>)
    requires
        all_digits(t, 10),
    ensures
        all_digits(seq!['0'] + t, 10),
        value(seq!['0'] + t, 10) == value(t, 10),
    decreases t.len(),
{
    let z = seq!['0'] + t;
    assert forall|j: int| 0 <= j < z.len() implies digit_value(#[trigger] z[j]) < 10 by {
        if j > 0 {
            assert(digit_value(t[j - 1]) < 10);
        }
    }
    if t.len() > 0 {
        let less = t.drop_last();
        assert(all_digits(less, 10)) by {
            assert forall|j: int| 0 <= j < less.len() implies digit_value(#[trigger] less[j])
                < 10 by {
                assert(digit_value(t[j]) < 10);
            }
        }
        lemma_leading_zero(less);
        assert(z.drop_last() =~= seq!['0'] + less);
    } else {
        assert(z.drop_last() =~= Seq::<char>::empty());
        reveal_with_fuel(value, 2);
    }
}

} // verus!
