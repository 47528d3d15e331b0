//! Numbers that system interfaces assign to errors, families and modes. Where
//! macOS and Linux differ, the number depends on the platform.
use vstd::prelude::*;

verus! {

/// Operation not permitted.
pub const EPERM: i32 = 1;
/// No such file or directory.
pub const ENOENT: i32 = 2;
/// No such process.
pub const ESRCH: i32 = 3;
/// Interrupted by a signal.
pub const EINTR: i32 = 4;
/// Input or output error.
pub const EIO: i32 = 5;
/// Bad descriptor.
pub const EBADF: i32 = 9;
/// Permission denied.
pub const EACCES: i32 = 13;
/// Not a directory.
pub const ENOTDIR: i32 = 20;
/// Result too large for the caller's buffer.
pub const ERANGE: i32 = 34;
/// Function not implemented, on Linux.
pub const ENOSYS: i32 = 38;
/// Unix domain sockets.
pub const AF_UNIX: i32 = 1;

/// The part of a mode that tells what kind of file it is.
pub const S_IFMT: u32 = 0o170000;
/// A socket.
pub const S_IFSOCK: u32 = 0o140000;
/// A regular file.
pub const S_IFREG: u32 = 0o100000;
/// A block device.
pub const S_IFBLK: u32 = 0o060000;
/// A character device.
pub const S_IFCHR: u32 = 0o020000;
/// A pipe, named or not.
pub const S_IFIFO: u32 = 0o010000;
/// The part of a descriptor's flags that tells how it may be used.
pub const O_ACCMODE: i32 = 3;
/// For reading only.
pub const O_RDONLY: i32 = 0;
/// The filesystem of anonymous pipes, on Linux.
pub const PIPEFS_MAGIC: u32 = 0x5049_5045;
/// The device number of `/dev/null`, on Linux.
pub const NULL_DEVICE: u64 = 0x103;
/// A mount on which nothing can be changed.
pub const MS_RDONLY: u64 = 1;
/// A mount on which no file gives another user's rights.
pub const MS_NOSUID: u64 = 2;
/// A mount on which device nodes cannot be used.
pub const MS_NODEV: u64 = 4;
/// A mount on which nothing can be executed.
pub const MS_NOEXEC: u64 = 8;
/// Change the flags of a mount.
pub const MS_REMOUNT: u64 = 32;
/// Of this mount alone, not of what is mounted.
pub const MS_BIND: u64 = 4096;

/// A signal's default effect.
pub const SIG_DFL: usize = 0;
/// A signal without effect.
pub const SIG_IGN: usize = 1;

/// The system that an execution is isolated by. Another one's numbers are taken
/// to be those of Linux: nothing is executed there.
#[derive(Clone, Copy, Debug, PartialEq, Eq, Structural)]
pub enum Platform {
    Mac,
    Linux,
    Other,
}

/// Longest path the kernel accepts, its terminator included: `PATH_MAX`.
#[verifier::allow_in_spec]
pub fn path_max(platform: Platform) -> (r: usize)
    returns
        (match platform {
            Platform::Mac => 1024usize,
            _ => 4096usize,
        }),
{
    match platform {
        Platform::Mac => 1024usize,
        _ => 4096usize,
    }
}

/// File name too long: `ENAMETOOLONG`.
#[verifier::allow_in_spec]
pub fn too_long(platform: Platform) -> (r: i32)
    returns
        (match platform {
            Platform::Mac => 63i32,
            _ => 36i32,
        }),
{
    match platform {
        Platform::Mac => 63i32,
        _ => 36i32,
    }
}

/// Too many levels of symbolic links: `ELOOP`.
#[verifier::allow_in_spec]
pub fn too_many_links(platform: Platform) -> (r: i32)
    returns
        (match platform {
            Platform::Mac => 62i32,
            _ => 40i32,
        }),
{
    match platform {
        Platform::Mac => 62i32,
        _ => 40i32,
    }
}

/// Function not implemented: `ENOSYS`.
#[verifier::allow_in_spec]
pub fn unsupported(platform: Platform) -> (r: i32)
    returns
        (match platform {
            Platform::Mac => 78i32,
            _ => 38i32,
        }),
{
    match platform {
        Platform::Mac => 78i32,
        _ => 38i32,
    }
}

/// Try again: `EAGAIN`.
#[verifier::allow_in_spec]
pub fn would_wait(platform: Platform) -> (r: i32)
    returns
        (match platform {
            Platform::Mac => 35i32,
            _ => 11i32,
        }),
{
    match platform {
        Platform::Mac => 35i32,
        _ => 11i32,
    }
}

/// A path that starts from the current directory: `AT_FDCWD`.
#[verifier::allow_in_spec]
pub fn this_directory(platform: Platform) -> (r: i32)
    returns
        (match platform {
            Platform::Mac => -2i32,
            _ => -100i32,
        }),
{
    match platform {
        Platform::Mac => -2i32,
        _ => -100i32,
    }
}

/// Children leave no exit status: `SA_NOCLDWAIT`.
#[verifier::allow_in_spec]
pub fn no_child_wait(platform: Platform) -> (r: i32)
    returns
        (match platform {
            Platform::Mac => 0x20i32,
            _ => 2i32,
        }),
{
    match platform {
        Platform::Mac => 0x20i32,
        _ => 2i32,
    }
}

/// Never wait for input: `O_NONBLOCK`.
#[verifier::allow_in_spec]
pub fn never_wait(platform: Platform) -> (r: i32)
    returns
        (match platform {
            Platform::Mac => 4i32,
            _ => 0o4000i32,
        }),
{
    match platform {
        Platform::Mac => 4i32,
        _ => 0o4000i32,
    }
}

/// Never take a terminal over: `O_NOCTTY`.
#[verifier::allow_in_spec]
pub fn no_terminal(platform: Platform) -> (r: i32)
    returns
        (match platform {
            Platform::Mac => 0x20000i32,
            _ => 0o400i32,
        }),
{
    match platform {
        Platform::Mac => 0x20000i32,
        _ => 0o400i32,
    }
}

/// Closed on exec: `O_CLOEXEC`.
#[verifier::allow_in_spec]
pub fn close_on_exec(platform: Platform) -> (r: i32)
    returns
        (match platform {
            Platform::Mac => 0x100_0000i32,
            _ => 0o2000000i32,
        }),
{
    match platform {
        Platform::Mac => 0x100_0000i32,
        _ => 0o2000000i32,
    }
}

/// The numbers that macOS and Linux give to one thing differ, and none of an error
/// is that of another error that is told apart from it.
pub proof fn law_numbers_by_system()
    ensures
        path_max(Platform::Mac) == 1024 && path_max(Platform::Linux) == 4096,
        too_long(Platform::Mac) == 63 && too_long(Platform::Linux) == 36,
        too_many_links(Platform::Mac) == 62 && too_many_links(Platform::Linux) == 40,
        unsupported(Platform::Mac) == 78 && unsupported(Platform::Linux) == 38,
        would_wait(Platform::Mac) == 35 && would_wait(Platform::Linux) == 11,
        this_directory(Platform::Mac) == -2 && this_directory(Platform::Linux) == -100,
        never_wait(Platform::Mac) == 4 && never_wait(Platform::Linux) == 0x800,
        no_terminal(Platform::Mac) == 0x2_0000 && no_terminal(Platform::Linux) == 0x100,
        close_on_exec(Platform::Mac) == 0x100_0000 && close_on_exec(Platform::Linux) == 0x8_0000,
        forall|platform: Platform|
            #![auto]
            too_long(platform) != too_many_links(platform) && too_long(platform) != EIO
                && too_many_links(platform) != EIO && would_wait(platform) != EINTR,
{
}

} // verus!
