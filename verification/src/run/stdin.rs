//! What may serve as an execution's standard input, and how it is relayed.
use vstd::prelude::*;
use crate::sys::{
    close_on_exec, never_wait, no_child_wait, no_terminal, would_wait, Platform, EBADF, EINTR,
    NULL_DEVICE, O_ACCMODE, O_RDONLY, PIPEFS_MAGIC, S_IFBLK, S_IFCHR, S_IFIFO, S_IFMT, S_IFREG,
    S_IFSOCK,
};

verus! {

/// What kind of file a mode stands for.
pub open spec fn kind(mode: u32) -> u32 {
    mode & S_IFMT
}

/// A closed descriptor is no error: it is told apart by its error number.
pub open spec fn unless_closed<T>(stat: Result<u32, i32>, closed: T, open: Result<T, i32>) -> Result<
    T,
    i32,
> {
    match stat {
        Err(errno) => if errno == EBADF {
            Ok(closed)
        } else {
            Err(errno)
        },
        Ok(_) => open,
    }
}

/// Whether standard input must be relayed. Anything but an anonymous pipe, or a
/// socket, which is refused elsewhere, is an inode of a filesystem or a device,
/// and even a descriptor for reading lets its metadata be changed.
///
/// `stat` is the mode of standard input, and `filesystem` the kind of its
/// filesystem, which only a pipe is asked for.
pub fn stdin_needs_relay(stat: Result<u32, i32>, filesystem: Result<u32, i32>) -> (r: Result<
    bool,
    i32,
>)
    ensures
        r == unless_closed(
            stat,
            false,
            if kind(stat->Ok_0) == S_IFSOCK {
                Ok(false)
            } else if kind(stat->Ok_0) == S_IFIFO {
                match filesystem {
                    Ok(magic) => Ok(magic != PIPEFS_MAGIC),
                    Err(errno) => Err(errno),
                }
            } else {
                Ok(true)
            },
        ),
        r == Ok::<bool, i32>(true) <==> stat is Ok && match kind_number(stat->Ok_0) {
            12 => false,
            1 => filesystem is Ok && filesystem->Ok_0 != 0x5049_5045,
            _ => true,
        },
{
    proof {
        law_kind_is_in_the_mode(stat->Ok_0);
    }
    let mode = match stat {
        Ok(mode) => mode,
        Err(errno) => if errno == EBADF {
            return Ok(false);
        } else {
            return Err(errno);
        },
    };
    let kind = mode & S_IFMT;
    if kind == S_IFSOCK {
        Ok(false)
    } else if kind == S_IFIFO {
        match filesystem {
            Ok(magic) => Ok(magic != PIPEFS_MAGIC),
            Err(errno) => Err(errno),
        }
    } else {
        Ok(true)
    }
}

/// Whether standard input could write to storage: a file or a block device that
/// is open for more than reading keeps that inside the sandbox.
///
/// `flags` are the descriptor's, which only storage is asked for.
pub fn stdin_writes_storage(stat: Result<u32, i32>, flags: Result<i32, i32>) -> (r: Result<
    bool,
    i32,
>)
    ensures
        r == unless_closed(
            stat,
            false,
            if kind(stat->Ok_0) != S_IFREG && kind(stat->Ok_0) != S_IFBLK {
                Ok(false)
            } else {
                match flags {
                    Ok(f) => Ok(f & O_ACCMODE != O_RDONLY),
                    Err(errno) => Err(errno),
                }
            },
        ),
        r == Ok::<bool, i32>(true) <==> stat is Ok && (kind_number(stat->Ok_0) == 8 || kind_number(
            stat->Ok_0,
        ) == 6) && flags is Ok && flags->Ok_0 & 3 != 0,
{
    proof {
        law_kind_is_in_the_mode(stat->Ok_0);
    }
    let mode = match stat {
        Ok(mode) => mode,
        Err(errno) => if errno == EBADF {
            return Ok(false);
        } else {
            return Err(errno);
        },
    };
    let kind = mode & S_IFMT;
    if kind != S_IFREG && kind != S_IFBLK {
        return Ok(false);
    }
    match flags {
        Ok(f) => Ok(f & O_ACCMODE != O_RDONLY),
        Err(errno) => Err(errno),
    }
}

/// Whether standard input is a socket.
pub fn stdin_is_socket(stat: Result<u32, i32>) -> (r: Result<bool, i32>)
    ensures
        r == unless_closed(stat, false, Ok(kind(stat->Ok_0) == S_IFSOCK)),
        r == Ok::<bool, i32>(true) <==> stat is Ok && kind_number(stat->Ok_0) == 12,
        r is Err <==> stat is Err && stat->Err_0 != 9,
{
    proof {
        law_kind_is_in_the_mode(stat->Ok_0);
    }
    match stat {
        Ok(mode) => Ok(mode & S_IFMT == S_IFSOCK),
        Err(errno) => if errno == EBADF {
            Ok(false)
        } else {
            Err(errno)
        },
    }
}

/// Why standard input is refused.
#[derive(Clone, Copy, Debug, PartialEq, Eq, Structural)]
pub enum StdinError {
    Socket,
    Unsupported,
    Failed(i32),
}

impl StdinError {
    /// The error in words. An error number of the system has none here.
    pub fn message(self) -> (r: Option<&'static str>)
        ensures
            match self {
                StdinError::Socket => r is Some && r->Some_0@
                    == "socket stdin is not allowed; use a pipe"@,
                StdinError::Unsupported => r is Some && r->Some_0@
                    == "stdin must be a pipe, /dev/null or closed"@,
                StdinError::Failed(_) => r is None,
            },
    {
        match self {
            StdinError::Socket => Some("socket stdin is not allowed; use a pipe"),
            StdinError::Unsupported => Some("stdin must be a pipe, /dev/null or closed"),
            StdinError::Failed(_) => None,
        }
    }
}

/// Whether standard input may be handed on at all: not a socket.
pub fn check_stdin(stat: Result<u32, i32>) -> (r: Result<(), StdinError>)
    ensures
        r == match unless_closed(stat, false, Ok(kind(stat->Ok_0) == S_IFSOCK)) {
            Ok(true) => Err(StdinError::Socket),
            Ok(false) => Ok::<(), StdinError>(()),
            Err(errno) => Err(StdinError::Failed(errno)),
        },
{
    match stdin_is_socket(stat) {
        Ok(true) => Err(StdinError::Socket),
        Ok(false) => Ok(()),
        Err(errno) => Err(StdinError::Failed(errno)),
    }
}

/// Whether a device number is that of `/dev/null`.
pub fn is_null_device(device: u64) -> (r: bool)
    ensures
        r == (device == NULL_DEVICE),
{
    device == NULL_DEVICE
}

/// What is known of standard input.
#[derive(Clone, Copy, Debug)]
pub struct Input {
    pub mode: u32,
    /// The device that it is, where it is one.
    pub device: u64,
    /// The kind of its filesystem.
    pub filesystem: Result<u32, i32>,
    /// The descriptor's flags.
    pub flags: Result<i32, i32>,
}

/// What an isolated execution reads.
#[derive(Clone, Copy, Debug, PartialEq, Eq, Structural)]
pub enum Source {
    /// Nothing: a closed input becomes the null device.
    Closed,
    /// The reading end of an anonymous pipe.
    Pipe,
    /// The null device, which is opened anew inside the sandbox.
    Null,
}

/// What an isolated execution reads. Only the reading end of an anonymous pipe,
/// `/dev/null` and a closed input are taken: any other descriptor leads to an
/// inode, a terminal or a channel outside.
pub open spec fn source(input: Result<Input, i32>) -> Result<Source, StdinError> {
    match input {
        Err(errno) => if errno == EBADF {
            Ok(Source::Closed)
        } else {
            Err(StdinError::Failed(errno))
        },
        Ok(found) => if kind(found.mode) == S_IFSOCK {
            Err(StdinError::Socket)
        } else if kind(found.mode) == S_IFCHR && found.device == NULL_DEVICE {
            Ok(Source::Null)
        } else if kind(found.mode) == S_IFIFO {
            match (found.filesystem, found.flags) {
                (Err(errno), _) => Err(StdinError::Failed(errno)),
                (_, Err(errno)) => Err(StdinError::Failed(errno)),
                (Ok(magic), Ok(flags)) => if magic == PIPEFS_MAGIC && flags & O_ACCMODE
                    == O_RDONLY {
                    Ok(Source::Pipe)
                } else {
                    Err(StdinError::Unsupported)
                },
            }
        } else {
            Err(StdinError::Unsupported)
        },
    }
}

/// What an isolated execution reads.
pub fn isolated_stdin(input: Result<Input, i32>) -> (r: Result<Source, StdinError>)
    ensures
        r == source(input),
{
    match input {
        Err(errno) => if errno == EBADF {
            Ok(Source::Closed)
        } else {
            Err(StdinError::Failed(errno))
        },
        Ok(found) => {
            let kind = found.mode & S_IFMT;
            if kind == S_IFSOCK {
                Err(StdinError::Socket)
            } else if kind == S_IFCHR && is_null_device(found.device) {
                Ok(Source::Null)
            } else if kind == S_IFIFO {
                match (found.filesystem, found.flags) {
                    (Err(errno), _) => Err(StdinError::Failed(errno)),
                    (_, Err(errno)) => Err(StdinError::Failed(errno)),
                    (Ok(magic), Ok(flags)) => if magic == PIPEFS_MAGIC && flags & O_ACCMODE
                        == O_RDONLY {
                        Ok(Source::Pipe)
                    } else {
                        Err(StdinError::Unsupported)
                    },
                }
            } else {
                Err(StdinError::Unsupported)
            }
        },
    }
}

/// What an isolated execution reads is no socket and no storage: a pipe is an
/// anonymous one, and anything else is the null device.
pub proof fn law_isolated_stdin_is_harmless(input: Result<Input, i32>)
    requires
        source(input) is Ok,
        input is Ok,
    ensures
        ({
            let mode = input->Ok_0.mode;
            &&& kind(mode) != S_IFSOCK
            &&& kind(mode) != S_IFREG && kind(mode) != S_IFBLK
            &&& kind(mode) == S_IFIFO ==> input->Ok_0.filesystem == Ok::<u32, i32>(PIPEFS_MAGIC)
            &&& kind(mode) != S_IFIFO ==> input->Ok_0.device == NULL_DEVICE
        }),
{
}

/// Whether the exit statuses of children would be lost: where the caller ignores
/// the signal that reports them, or asked for none.
pub fn check_sigchld(ignored: bool, flags: i32, platform: Platform) -> (r: Result<
    (),
    StatusLost,
>)
    ensures
        r is Err <==> ignored || flags & no_child_wait(platform) != 0,
        r is Ok <==> !ignored && match platform {
            Platform::Mac => flags & 0x20 == 0,
            _ => flags & 2 == 0,
        },
{
    if ignored || flags & no_child_wait(platform) != 0 {
        Err(StatusLost)
    } else {
        Ok(())
    }
}

/// The caller keeps no exit statuses.
#[derive(Clone, Copy, Debug, PartialEq, Eq, Structural)]
pub struct StatusLost;

/// How a relay gets a descriptor of its own.
#[derive(Clone, Copy, Debug, PartialEq, Eq, Structural)]
pub enum RelaySource {
    /// Duplicate it: reading it never waits.
    Duplicate,
    /// Open it anew with these flags, so that reading never waits and the
    /// caller's own descriptor keeps its flags.
    Reopen(i32),
}

/// How a relay gets a descriptor of its own. A terminal or a pipe may be shared
/// with another reader, who can take the input between poll and read.
pub fn relay_source(mode: u32, platform: Platform) -> (r: RelaySource)
    ensures
        r == if kind(mode) == S_IFIFO || kind(mode) == S_IFCHR {
            RelaySource::Reopen(
                O_RDONLY | never_wait(platform) | no_terminal(platform) | close_on_exec(platform),
            )
        } else {
            RelaySource::Duplicate
        },
        r is Reopen <==> kind_number(mode) == 1 || kind_number(mode) == 2,
{
    proof {
        law_kind_is_in_the_mode(mode);
    }
    let kind = mode & S_IFMT;
    if kind == S_IFIFO || kind == S_IFCHR {
        RelaySource::Reopen(
            O_RDONLY | never_wait(platform) | no_terminal(platform) | close_on_exec(platform),
        )
    } else {
        RelaySource::Duplicate
    }
}

/// What a relay is doing.
#[derive(Clone, Copy, Debug, PartialEq, Eq, Structural)]
pub enum RelayState {
    Polling,
    Reading,
    Writing(u64),
    Stopped,
}

/// What happens to a relay.
#[derive(Clone, Copy, Debug, PartialEq, Eq, Structural)]
pub enum RelayEvent {
    /// There is input, or the relay was woken to stop.
    Polled { woken: bool },
    PollFailed(i32),
    /// It was cancelled before it could read.
    Cancelled,
    /// It read this many bytes.
    Read(u64),
    ReadFailed(i32),
    /// It wrote all that it had read.
    Written,
    WriteFailed,
}

/// What a relay does next.
#[derive(Clone, Copy, Debug, PartialEq, Eq, Structural)]
pub enum RelayAction {
    /// Wait for input, or to be woken.
    Poll,
    /// With the cancellation lock held, read unless cancelled.
    Read,
    /// Write all of the bytes that were read.
    Write(u64),
    Stop,
}

/// What a relay does next. It reads only when there is input, so that no read
/// is left pending that would take input meant for someone else.
pub open spec fn relayed(platform: Platform, state: RelayState, event: RelayEvent) -> (
    RelayState,
    RelayAction,
) {
    match (state, event) {
        (RelayState::Polling, RelayEvent::Polled { woken }) => if woken {
            (RelayState::Stopped, RelayAction::Stop)
        } else {
            (RelayState::Reading, RelayAction::Read)
        },
        (RelayState::Polling, RelayEvent::PollFailed(errno)) => if errno == EINTR {
            (RelayState::Polling, RelayAction::Poll)
        } else {
            (RelayState::Stopped, RelayAction::Stop)
        },
        (RelayState::Reading, RelayEvent::ReadFailed(errno)) => if errno == would_wait(platform)
            || errno == EINTR {
            (RelayState::Polling, RelayAction::Poll)
        } else {
            (RelayState::Stopped, RelayAction::Stop)
        },
        (RelayState::Reading, RelayEvent::Read(n)) => if n == 0 {
            (RelayState::Stopped, RelayAction::Stop)
        } else {
            (RelayState::Writing(n), RelayAction::Write(n))
        },
        (RelayState::Writing(_), RelayEvent::Written) => (RelayState::Polling, RelayAction::Poll),
        _ => (RelayState::Stopped, RelayAction::Stop),
    }
}

/// What a relay does next.
pub fn relay_step(platform: Platform, state: RelayState, event: RelayEvent) -> (r: (
    RelayState,
    RelayAction,
))
    ensures
        r == relayed(platform, state, event),
{
    match (state, event) {
        (RelayState::Polling, RelayEvent::Polled { woken }) => if woken {
            (RelayState::Stopped, RelayAction::Stop)
        } else {
            (RelayState::Reading, RelayAction::Read)
        },
        (RelayState::Polling, RelayEvent::PollFailed(errno)) => if errno == EINTR {
            (RelayState::Polling, RelayAction::Poll)
        } else {
            (RelayState::Stopped, RelayAction::Stop)
        },
        (RelayState::Reading, RelayEvent::ReadFailed(errno)) => if errno == would_wait(platform)
            || errno == EINTR {
            (RelayState::Polling, RelayAction::Poll)
        } else {
            (RelayState::Stopped, RelayAction::Stop)
        },
        (RelayState::Reading, RelayEvent::Read(n)) => if n == 0 {
            (RelayState::Stopped, RelayAction::Stop)
        } else {
            (RelayState::Writing(n), RelayAction::Write(n))
        },
        (RelayState::Writing(_), RelayEvent::Written) => (RelayState::Polling, RelayAction::Poll),
        _ => (RelayState::Stopped, RelayAction::Stop),
    }
}

/// Where a relay is after some events.
pub open spec fn relayed_after(platform: Platform, events: Seq<RelayEvent>) -> RelayState
    decreases events.len(),
{
    if events.len() == 0 {
        RelayState::Polling
    } else {
        relayed(platform, relayed_after(platform, events.drop_last()), events.last()).0
    }
}

/// How many bytes a relay has read.
pub open spec fn bytes_read(events: Seq<RelayEvent>) -> nat
    decreases events.len(),
{
    if events.len() == 0 {
        0
    } else {
        bytes_read(events.drop_last()) + (match events.last() {
            RelayEvent::Read(n) => n as nat,
            _ => 0nat,
        })
    }
}

/// How many bytes a relay has written.
pub open spec fn bytes_written(platform: Platform, events: Seq<RelayEvent>) -> nat
    decreases events.len(),
{
    if events.len() == 0 {
        0
    } else {
        let before = events.drop_last();
        bytes_written(platform, before) + (match (relayed_after(platform, before), events.last()) {
            (RelayState::Writing(n), RelayEvent::Written) => n as nat,
            _ => 0nat,
        })
    }
}

/// Whenever a relay waits for input or is about to read, it has written all
/// that it read: it never holds input back.
pub proof fn law_relay_keeps_nothing(platform: Platform, events: Seq<RelayEvent>)
    ensures
        match relayed_after(platform, events) {
            RelayState::Polling | RelayState::Reading => bytes_read(events) == bytes_written(
                platform,
                events,
            ),
            RelayState::Writing(n) => bytes_read(events) == bytes_written(platform, events) + n,
            RelayState::Stopped => true,
        },
    decreases events.len(),
{
    if events.len() > 0 {
        law_relay_keeps_nothing(platform, events.drop_last());
    }
}

/// Once it was woken or found itself cancelled, a relay reads no more.
pub proof fn law_cancelled_relay_stops(platform: Platform, events: Seq<RelayEvent>, i: int)
    requires
        0 <= i < events.len(),
        events[i] == RelayEvent::Cancelled || events[i] == (RelayEvent::Polled { woken: true }),
    ensures
        relayed_after(platform, events) is Stopped,
    decreases events.len(),
{
    if i < events.len() - 1 {
        law_cancelled_relay_stops(platform, events.drop_last(), i);
    }
}

/// The number of a file's kind in its mode: the four bits above the permissions.
pub open spec fn kind_number(mode: u32) -> u32 {
    mode / 4096 % 16
}

/// A file's kind is read from the four bits above the permissions: 12 is a
/// socket, 8 a file, 6 a block device, 2 a character device and 1 a pipe.
pub proof fn law_kind_is_in_the_mode(mode: u32)
    ensures
        kind(mode) == S_IFSOCK <==> kind_number(mode) == 12,
        kind(mode) == S_IFREG <==> kind_number(mode) == 8,
        kind(mode) == S_IFBLK <==> kind_number(mode) == 6,
        kind(mode) == S_IFCHR <==> kind_number(mode) == 2,
        kind(mode) == S_IFIFO <==> kind_number(mode) == 1,
{
    assert((mode & 0xf000 == 0xc000 <==> mode / 4096 % 16 == 12) && (mode & 0xf000 == 0x8000
        <==> mode / 4096 % 16 == 8) && (mode & 0xf000 == 0x6000 <==> mode / 4096 % 16 == 6) && (mode
        & 0xf000 == 0x2000 <==> mode / 4096 % 16 == 2) && (mode & 0xf000 == 0x1000 <==> mode / 4096
        % 16 == 1)) by (bit_vector);
}

/// An isolated execution reads a pipe exactly where it is the reading end of an
/// anonymous one, the null device exactly where it is that, and nothing exactly
/// where the input was closed; a socket is refused as one.
pub proof fn law_isolated_stdin_is_taken(input: Result<Input, i32>)
    ensures
        source(input) == Ok::<Source, StdinError>(Source::Closed) <==> input is Err
            && input->Err_0 == 9,
        source(input) == Ok::<Source, StdinError>(Source::Null) <==> input is Ok && kind_number(
            input->Ok_0.mode,
        ) == 2 && input->Ok_0.device == 259,
        source(input) == Ok::<Source, StdinError>(Source::Pipe) <==> input is Ok && kind_number(
            input->Ok_0.mode,
        ) == 1 && input->Ok_0.filesystem == Ok::<u32, i32>(0x5049_5045)
            && input->Ok_0.flags is Ok && input->Ok_0.flags->Ok_0 & 3 == 0,
        source(input) == Err::<Source, StdinError>(StdinError::Socket) <==> input is Ok
            && kind_number(input->Ok_0.mode) == 12,
        input is Err && input->Err_0 != 9 ==> source(input) == Err::<Source, StdinError>(
            StdinError::Failed(input->Err_0),
        ),
{
    if let Ok(found) = input {
        law_kind_is_in_the_mode(found.mode);
    }
}

/// A relay that nothing stops passes on what it reads: it waits for input, reads
/// it, writes just as much, and waits again. Being interrupted, or finding nothing
/// to read after all, only makes it wait on; the end of the input stops it.
pub proof fn law_relay_goes_on(platform: Platform, n: u64)
    requires
        n > 0,
    ensures
        ({
            let ready = relayed(
                platform,
                RelayState::Polling,
                RelayEvent::Polled { woken: false },
            );
            let read = relayed(platform, ready.0, RelayEvent::Read(n));
            let written = relayed(platform, read.0, RelayEvent::Written);
            let again: i32 = match platform {
                Platform::Mac => 35,
                _ => 11,
            };
            &&& ready.1 == RelayAction::Read
            &&& read.1 == RelayAction::Write(n)
            &&& written == (RelayState::Polling, RelayAction::Poll)
            &&& relayed(platform, RelayState::Polling, RelayEvent::PollFailed(4)) == (
                RelayState::Polling,
                RelayAction::Poll,
            )
            &&& relayed(platform, ready.0, RelayEvent::ReadFailed(4)) == (
                RelayState::Polling,
                RelayAction::Poll,
            )
            &&& relayed(platform, ready.0, RelayEvent::ReadFailed(again)) == (
                RelayState::Polling,
                RelayAction::Poll,
            )
            &&& relayed(platform, ready.0, RelayEvent::Read(0)).1 == RelayAction::Stop
        }),
{
}

/// What fails otherwise than by being interrupted, or by having nothing to read,
/// stops a relay.
pub proof fn law_failing_relay_stops(platform: Platform, errno: i32)
    requires
        errno != 4,
    ensures
        relayed(platform, RelayState::Polling, RelayEvent::PollFailed(errno)).1
            == RelayAction::Stop,
        errno != (match platform {
            Platform::Mac => 35i32,
            _ => 11i32,
        }) ==> relayed(platform, RelayState::Reading, RelayEvent::ReadFailed(errno)).1
            == RelayAction::Stop,
{
}

} // verus!
