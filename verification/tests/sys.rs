//! The numbers of the system interface.
use world::linux::seccomp;
use world::sys::{self, Platform};
use world::tmp_path::PATH_ROOM;

#[test]
fn numbers_are_those_of_the_system() {
    assert_eq!(sys::ENOENT, libc::ENOENT);
    assert_eq!(sys::EACCES, libc::EACCES);
    assert_eq!(sys::ENOTDIR, libc::ENOTDIR);
    assert_eq!(sys::ERANGE, libc::ERANGE);
    assert_eq!(sys::ENOSYS, libc::ENOSYS);
    assert_eq!(sys::AF_UNIX, libc::AF_UNIX);
    assert_eq!(sys::EPERM, libc::EPERM);
    assert_eq!(sys::ESRCH, libc::ESRCH);
    assert_eq!(sys::EINTR, libc::EINTR);
    assert_eq!(sys::EIO, libc::EIO);
    assert_eq!(sys::EBADF, libc::EBADF);
    assert_eq!(sys::S_IFMT, libc::S_IFMT);
    assert_eq!(sys::S_IFSOCK, libc::S_IFSOCK);
    assert_eq!(sys::S_IFREG, libc::S_IFREG);
    assert_eq!(sys::S_IFBLK, libc::S_IFBLK);
    assert_eq!(sys::S_IFCHR, libc::S_IFCHR);
    assert_eq!(sys::S_IFIFO, libc::S_IFIFO);
    assert_eq!(sys::O_ACCMODE, libc::O_ACCMODE);
    assert_eq!(sys::O_RDONLY, libc::O_RDONLY);
    assert_eq!(sys::NULL_DEVICE, libc::makedev(1, 3));
    assert_eq!(sys::MS_RDONLY, libc::MS_RDONLY);
    assert_eq!(sys::MS_NOSUID, libc::MS_NOSUID);
    assert_eq!(sys::MS_NODEV, libc::MS_NODEV);
    assert_eq!(sys::MS_NOEXEC, libc::MS_NOEXEC);
    assert_eq!(sys::MS_REMOUNT, libc::MS_REMOUNT);
    assert_eq!(sys::MS_BIND, libc::MS_BIND);
    assert_eq!(sys::SIG_DFL, libc::SIG_DFL);
    assert_eq!(sys::SIG_IGN, libc::SIG_IGN);
}

#[test]
fn platforms_have_their_own_numbers() {
    let numbers = |p: Platform| {
        [
            sys::path_max(p) as i32,
            sys::too_long(p),
            sys::too_many_links(p),
            sys::unsupported(p),
            sys::would_wait(p),
            sys::this_directory(p),
            sys::no_child_wait(p),
            sys::never_wait(p),
            sys::no_terminal(p),
            sys::close_on_exec(p),
        ]
    };
    let linux = [
        libc::PATH_MAX,
        libc::ENAMETOOLONG,
        libc::ELOOP,
        libc::ENOSYS,
        libc::EAGAIN,
        libc::AT_FDCWD,
        libc::SA_NOCLDWAIT,
        libc::O_NONBLOCK,
        libc::O_NOCTTY,
        libc::O_CLOEXEC,
    ];
    assert_eq!(numbers(Platform::Linux), linux);
    assert_eq!(numbers(Platform::Other), linux);
    let mac = [1024, 63, 62, 78, 35, -2, 0x20, 0x4, 0x20000, 0x1000000];
    assert_eq!(numbers(Platform::Mac), mac);
    assert!(PATH_ROOM >= sys::path_max(Platform::Linux).max(sys::path_max(Platform::Mac)));
}

#[test]
fn socket_numbers_are_those_of_the_system() {
    assert_eq!(seccomp::AF_INET, libc::AF_INET as u32);
    assert_eq!(seccomp::AF_INET6, libc::AF_INET6 as u32);
    assert_eq!(seccomp::AF_NETLINK, libc::AF_NETLINK as u32);
    assert_eq!(seccomp::SOCK_STREAM, libc::SOCK_STREAM as u32);
    assert_eq!(seccomp::SOCK_SEQPACKET, libc::SOCK_SEQPACKET as u32);
    assert_eq!(seccomp::TYPE_MASK, !((libc::SOCK_NONBLOCK | libc::SOCK_CLOEXEC) as u32));
    assert_eq!(seccomp::RET_EACCES, 0x0005_0000 | libc::EACCES as u32);
    assert_eq!(seccomp::RET_EPERM, 0x0005_0000 | libc::EPERM as u32);
}
