//! The read-only view of the file system that an execution gets.
use vstd::prelude::*;
use crate::bytes::copied;
use crate::sys::{MS_BIND, MS_NODEV, MS_NOEXEC, MS_NOSUID, MS_RDONLY, MS_REMOUNT};

verus! {

/// A mount attribute: nothing beneath can be changed.
pub const RDONLY: u64 = 1;
/// A mount attribute: device nodes beneath cannot be used.
pub const NODEV: u64 = 4;
/// What every mount is set to. Device nodes on any file system stay unusable.
pub const RESTRICTED: u64 = RDONLY | NODEV;

/// How the private `/dev` is mounted: without setuid or executable files.
pub const DEV_FLAGS: u64 = MS_NOSUID | MS_NOEXEC;
/// How `/dev/shm` is mounted: without setuid files or device nodes.
pub const SHM_FLAGS: u64 = MS_NOSUID | MS_NODEV;
/// How the finished `/dev` is mounted again: as it was, and read-only.
pub const SEAL_FLAGS: u64 = MS_REMOUNT | MS_BIND | MS_RDONLY | MS_NOSUID | MS_NOEXEC;
/// What fits the private `/dev`, in bytes.
pub const DEV_SIZE: u64 = 65536;
/// What fits `/dev/shm`, in bytes: 64 MiB.
pub const SHM_SIZE: u64 = 67108864;

/// A tmpfs: the flags that it is mounted with, the mode of its root and how many
/// bytes it holds.
#[derive(Clone, Copy, Debug, PartialEq, Eq, Structural)]
pub struct Tmpfs {
    pub flags: u64,
    pub mode: u32,
    pub size: u64,
}

/// A device node of the host that does no harm.
#[derive(Clone, Copy, Debug, PartialEq, Eq, Structural)]
pub enum Node {
    Null,
    Zero,
    Full,
    Random,
    Urandom,
}

/// A symbolic link of the private `/dev`.
#[derive(Clone, Copy, Debug, PartialEq, Eq, Structural)]
pub enum Link {
    /// `fd`, to `/proc/self/fd`.
    Fd,
    /// `stdin`, to `/proc/self/fd/0`.
    Stdin,
    /// `stdout`, to `/proc/self/fd/1`.
    Stdout,
    /// `stderr`, to `/proc/self/fd/2`.
    Stderr,
}

/// One step of making the view.
#[derive(Clone, Copy, Debug, PartialEq, Eq, Structural)]
pub enum Step {
    /// Leave the mount namespace for a copy of it.
    NewNamespace,
    /// Keep mounts from propagating to the host.
    MakePrivate,
    /// Set attributes on every mount.
    RestrictAll { set: u64 },
    /// Bind a path onto itself, with attributes cleared.
    Rebind { path: usize, clear: u64 },
    /// Take hold of a host node before the new `/dev` hides it.
    Detach(Node),
    /// Mount a tmpfs on `/dev`.
    MountDev(Tmpfs),
    /// Bind a host node into the new `/dev`, with attributes cleared.
    Place { node: Node, clear: u64 },
    /// Make a symbolic link in the new `/dev`.
    MakeLink(Link),
    /// Make `/dev/shm`, and mount a tmpfs on it.
    MountShm(Tmpfs),
    /// Mount the new `/dev` again, with these flags in place of its own.
    SealDev { flags: u64 },
    /// Reopen a null-device stdin from the new `/dev`.
    ReopenNull,
    /// Enter the working directory again: the old one keeps the old mount.
    ChangeDir,
}

/// The steps of the view, with `paths` paths that stay writable.
pub open spec fn view_steps_of(paths: nat) -> Seq<Step> {
    seq![Step::NewNamespace, Step::MakePrivate, Step::RestrictAll { set: RESTRICTED }]
        + rebind_steps(paths) + dev_steps() + seq![Step::ReopenNull, Step::ChangeDir]
}

/// The steps that make `paths` paths writable again.
pub open spec fn rebind_steps(paths: nat) -> Seq<Step> {
    Seq::new(paths, |i: int| Step::Rebind { path: i as usize, clear: RDONLY })
}

/// What is mounted on `/dev`.
pub open spec fn dev_fs() -> Tmpfs {
    Tmpfs { flags: DEV_FLAGS, mode: 0o755, size: DEV_SIZE }
}

/// What is mounted on `/dev/shm`: every user may write there.
pub open spec fn shm_fs() -> Tmpfs {
    Tmpfs { flags: SHM_FLAGS, mode: 0o1777, size: SHM_SIZE }
}

/// The steps of the private `/dev`. There is no terminal in it.
pub open spec fn dev_steps() -> Seq<Step> {
    seq![
        Step::Detach(Node::Null),
        Step::Detach(Node::Zero),
        Step::Detach(Node::Full),
        Step::Detach(Node::Random),
        Step::Detach(Node::Urandom),
        Step::MountDev(dev_fs()),
        Step::Place { node: Node::Null, clear: NODEV },
        Step::Place { node: Node::Zero, clear: NODEV },
        Step::Place { node: Node::Full, clear: NODEV },
        Step::Place { node: Node::Random, clear: NODEV },
        Step::Place { node: Node::Urandom, clear: NODEV },
        Step::MakeLink(Link::Fd),
        Step::MakeLink(Link::Stdin),
        Step::MakeLink(Link::Stdout),
        Step::MakeLink(Link::Stderr),
        Step::MountShm(shm_fs()),
        Step::SealDev { flags: SEAL_FLAGS },
    ]
}

/// The nodes of the private `/dev`.
pub fn dev_nodes() -> (r: [Node; 5])
    ensures
        r@ == seq![Node::Null, Node::Zero, Node::Full, Node::Random, Node::Urandom],
{
    let r = [Node::Null, Node::Zero, Node::Full, Node::Random, Node::Urandom];
    proof {
        assert(r@ =~= seq![Node::Null, Node::Zero, Node::Full, Node::Random, Node::Urandom]);
    }
    r
}

/// The steps of the private `/dev`.
pub fn private_dev() -> (r: Vec<Step>)
    ensures
        r@ == dev_steps(),
{
    let mut steps: Vec<Step> = Vec::new();
    let nodes = dev_nodes();
    let mut i: usize = 0;
    while i < 5
        invariant
            i <= 5,
            nodes@ == seq![Node::Null, Node::Zero, Node::Full, Node::Random, Node::Urandom],
            steps@ == dev_steps().take(i as int),
        decreases 5 - i,
    {
        steps.push(Step::Detach(nodes[i]));
        i = i + 1;
        proof {
            assert(steps@ =~= dev_steps().take(i as int));
        }
    }
    steps.push(Step::MountDev(Tmpfs { flags: DEV_FLAGS, mode: 0o755, size: DEV_SIZE }));
    let mut k: usize = 0;
    proof {
        assert(steps@ =~= dev_steps().take(6));
    }
    while k < 5
        invariant
            k <= 5,
            nodes@ == seq![Node::Null, Node::Zero, Node::Full, Node::Random, Node::Urandom],
            steps@ == dev_steps().take(6 + k),
        decreases 5 - k,
    {
        steps.push(Step::Place { node: nodes[k], clear: NODEV });
        k = k + 1;
        proof {
            assert(steps@ =~= dev_steps().take(6 + k));
        }
    }
    steps.push(Step::MakeLink(Link::Fd));
    steps.push(Step::MakeLink(Link::Stdin));
    steps.push(Step::MakeLink(Link::Stdout));
    steps.push(Step::MakeLink(Link::Stderr));
    steps.push(Step::MountShm(Tmpfs { flags: SHM_FLAGS, mode: 0o1777, size: SHM_SIZE }));
    steps.push(Step::SealDev { flags: SEAL_FLAGS });
    proof {
        assert(steps@ =~= dev_steps());
    }
    steps
}

/// The paths that stay writable: the working directory first.
pub struct WritableView {
    paths: Vec<Vec<u8>>,
}

/// A path holds a zero byte.
#[derive(Clone, Copy, Debug, PartialEq, Eq, Structural)]
pub struct NulInPath;

/// Whether `path` holds a zero byte.
fn has_nul(path: &[u8]) -> (r: bool)
    ensures
        r == path@.contains(0u8),
{
    let mut i: usize = 0;
    while i < path.len()
        invariant
            i <= path@.len(),
            forall|j: int| 0 <= j < i ==> path@[j] != 0,
        decreases path@.len() - i,
    {
        if path[i] == 0 {
            proof {
                assert(path@[i as int] == 0);
            }
            return true;
        }
        i = i + 1;
    }
    false
}

impl WritableView {
    /// The paths.
    pub closed spec fn writable(self) -> Seq<Vec<u8>> {
        self.paths@
    }

    /// The paths: the working directory, then the others. None may hold a zero
    /// byte.
    pub fn new(workdir: &[u8], others: &[Vec<u8>]) -> (r: Result<WritableView, NulInPath>)
        ensures
            if workdir@.contains(0u8) || exists|i: int|
                0 <= i < others@.len() && (#[trigger] others@[i])@.contains(0u8) {
                r is Err
            } else {
                r matches Ok(view) && {
                    &&& view.writable().len() == 1 + others@.len()
                    &&& view.writable()[0]@ == workdir@
                    &&& forall|i: int|
                        0 <= i < others@.len() ==> view.writable()[i + 1]@ == (
                        #[trigger] others@[i])@
                }
            },
    {
        if has_nul(workdir) {
            return Err(NulInPath);
        }
        let mut paths: Vec<Vec<u8>> = Vec::new();
        paths.push(copied(workdir));
        let mut i: usize = 0;
        while i < others.len()
            invariant
                i <= others@.len(),
                !workdir@.contains(0u8),
                paths@.len() == i + 1,
                paths@[0]@ == workdir@,
                forall|j: int| 0 <= j < i ==> paths@[j + 1]@ == (#[trigger] others@[j])@,
                forall|j: int| 0 <= j < i ==> !(#[trigger] others@[j])@.contains(0u8),
            decreases others@.len() - i,
        {
            if has_nul(others[i].as_slice()) {
                return Err(NulInPath);
            }
            paths.push(copied(others[i].as_slice()));
            i = i + 1;
        }
        Ok(WritableView { paths })
    }

    /// The path of a step.
    pub fn path(&self, i: usize) -> (r: Option<&Vec<u8>>)
        ensures
            match r {
                Some(path) => i < self.writable().len() && *path == self.writable()[i as int],
                None => i >= self.writable().len(),
            },
    {
        if i < self.paths.len() {
            Some(&self.paths[i])
        } else {
            None
        }
    }

    /// The steps that make the view.
    pub fn steps(&self) -> (r: Vec<Step>)
        ensures
            r@ == view_steps_of(self.writable().len()),
    {
        let mut steps: Vec<Step> = Vec::new();
        steps.push(Step::NewNamespace);
        steps.push(Step::MakePrivate);
        steps.push(Step::RestrictAll { set: RESTRICTED });
        let ghost head = steps@;
        let ghost binds = rebind_steps(self.paths@.len());
        let mut i: usize = 0;
        proof {
            assert(head + binds.take(0) =~= head);
        }
        while i < self.paths.len()
            invariant
                i <= self.paths@.len(),
                binds == rebind_steps(self.paths@.len()),
                steps@ == head + binds.take(i as int),
            decreases self.paths@.len() - i,
        {
            steps.push(Step::Rebind { path: i, clear: RDONLY });
            i = i + 1;
            proof {
                assert(steps@ =~= head + binds.take(i as int));
            }
        }
        let mut dev = private_dev();
        steps.append(&mut dev);
        steps.push(Step::ReopenNull);
        steps.push(Step::ChangeDir);
        proof {
            assert(binds.take(i as int) =~= binds);
            assert(steps@ =~= view_steps_of(self.paths@.len()));
        }
        steps
    }
}

/// What can be done with what lies on a mount.
pub struct Access {
    pub read_only: bool,
    pub no_devices: bool,
}

/// What an execution sees of the file system.
pub struct FileView {
    /// The mounts are the execution's own.
    pub own: bool,
    /// Mounts propagate nowhere.
    pub private: bool,
    /// What is not named otherwise.
    pub rest: Access,
    /// The rebound paths.
    pub paths: Map<int, Access>,
    /// The private `/dev`, with the flags that it is mounted with now.
    pub dev: Option<Tmpfs>,
    /// What is mounted on its `shm`.
    pub shm: Option<Tmpfs>,
    /// The host nodes that were taken hold of before that.
    pub held: Set<Node>,
    /// The device nodes that can be used.
    pub usable: Set<Node>,
}

/// The flags of a mount include `flag`.
pub open spec fn has_flag(flags: u64, flag: u64) -> bool {
    flags & flag != 0
}

/// The private `/dev` is there, and can be changed.
pub open spec fn dev_open(view: FileView) -> bool {
    view.dev matches Some(fs) && !has_flag(fs.flags, MS_RDONLY)
}

/// `access` with attributes cleared.
pub open spec fn cleared(access: Access, clear: u64) -> Access {
    Access {
        read_only: access.read_only && clear & RDONLY == 0,
        no_devices: access.no_devices && clear & NODEV == 0,
    }
}

/// What a step does to the view.
pub open spec fn applied(view: FileView, step: Step) -> FileView {
    match step {
        Step::NewNamespace => FileView { own: true, ..view },
        Step::MakePrivate => FileView { private: true, ..view },
        Step::RestrictAll { set } => FileView {
            rest: Access {
                read_only: view.rest.read_only || set & RDONLY != 0,
                no_devices: view.rest.no_devices || set & NODEV != 0,
            },
            ..view
        },
        Step::Rebind { path, clear } => FileView {
            paths: view.paths.insert(path as int, cleared(view.rest, clear)),
            ..view
        },
        Step::Detach(node) => FileView {
            held: if view.dev is Some {
                view.held
            } else {
                view.held.insert(node)
            },
            ..view
        },
        Step::MountDev(fs) => FileView { dev: Some(fs), shm: None, usable: Set::empty(), ..view },
        Step::Place { node, clear } => FileView {
            usable: if dev_open(view) && view.held.contains(node) && clear & NODEV != 0 {
                view.usable.insert(node)
            } else {
                view.usable
            },
            ..view
        },
        Step::MountShm(fs) => FileView {
            shm: if dev_open(view) {
                Some(fs)
            } else {
                view.shm
            },
            ..view
        },
        Step::SealDev { flags } => FileView {
            dev: match view.dev {
                Some(fs) if has_flag(flags, MS_REMOUNT) && has_flag(flags, MS_BIND) => Some(
                    Tmpfs { flags, ..fs },
                ),
                _ => view.dev,
            },
            ..view
        },
        Step::MakeLink(_) | Step::ReopenNull | Step::ChangeDir => view,
    }
}

/// What some steps do to the view.
pub open spec fn applied_all(view: FileView, steps: Seq<Step>) -> FileView
    decreases steps.len(),
{
    if steps.len() == 0 {
        view
    } else {
        applied(applied_all(view, steps.drop_last()), steps.last())
    }
}

proof fn lemma_applied_append(view: FileView, a: Seq<Step>, b: Seq<Step>)
    ensures
        applied_all(view, a + b) == applied_all(applied_all(view, a), b),
    decreases b.len(),
{
    if b.len() == 0 {
        assert(a + b =~= a);
    } else {
        assert((a + b).drop_last() =~= a + b.drop_last());
        lemma_applied_append(view, a, b.drop_last());
    }
}

proof fn lemma_rebound(view: FileView, paths: nat)
    requires
        view.rest == (Access { read_only: true, no_devices: true }),
        paths <= usize::MAX,
        view.paths == Map::<int, Access>::empty(),
    ensures
        ({
            let after = applied_all(view, rebind_steps(paths));
            &&& after == (FileView { paths: after.paths, ..view })
            &&& forall|i: int|
                0 <= i < paths ==> #[trigger] after.paths.contains_key(i) && after.paths[i] == (
                Access { read_only: false, no_devices: true })
            &&& forall|i: int| #[trigger] after.paths.contains_key(i) ==> 0 <= i < paths
        }),
    decreases paths,
{
    let steps = rebind_steps(paths);
    if paths > 0 {
        let fewer = (paths - 1) as nat;
        lemma_rebound(view, fewer);
        assert(steps.drop_last() =~= rebind_steps(fewer));
        assert(1u64 & 1 != 0 && 1u64 & 4 == 0) by (bit_vector);
        let before = applied_all(view, rebind_steps(fewer));
        let step = Step::Rebind { path: fewer as usize, clear: RDONLY };
        assert(steps.last() == step);
        assert(cleared(before.rest, RDONLY) == (Access { read_only: false, no_devices: true }));
        let after = applied_all(view, steps);
        assert(after == applied(before, step));
        assert forall|i: int| 0 <= i < paths implies #[trigger] after.paths.contains_key(i)
            && after.paths[i] == (Access { read_only: false, no_devices: true }) by {
            if i < fewer {
                assert(before.paths.contains_key(i));
            }
        }
    } else {
        assert(steps =~= Seq::<Step>::empty());
    }
}

/// Afterwards nothing can be changed and no device node used, but for the
/// writable paths, where device nodes stay unusable too, the five harmless nodes
/// of the private, read-only `/dev`, which takes no setuid or executable files,
/// and its `shm`: 64 MiB to write to, without setuid files or device nodes.
pub proof fn law_view_is_restricted(view: FileView, paths: nat)
    requires
        paths <= usize::MAX,
        view.paths == Map::<int, Access>::empty(),
        view.dev is None,
        view.held == Set::<Node>::empty(),
    ensures
        ({
            let after = applied_all(view, view_steps_of(paths));
            &&& after.own && after.private
            &&& after.rest == (Access { read_only: true, no_devices: true })
            &&& forall|i: int|
                0 <= i < paths ==> #[trigger] after.paths.contains_key(i) && after.paths[i] == (
                Access { read_only: false, no_devices: true })
            &&& forall|i: int| #[trigger] after.paths.contains_key(i) ==> 0 <= i < paths
            &&& after.dev matches Some(fs) && {
                &&& fs.flags & 1 != 0
                &&& fs.flags & 2 != 0
                &&& fs.flags & 8 != 0
                &&& fs.mode == 0o755
                &&& fs.size == 64 * 1024
            }
            &&& after.shm matches Some(fs) && {
                &&& fs.flags & 1 == 0
                &&& fs.flags & 2 != 0
                &&& fs.flags & 4 != 0
                &&& fs.mode == 0o1777
                &&& fs.size == 64 * 1024 * 1024
            }
            &&& after.usable == set![
                Node::Null,
                Node::Zero,
                Node::Full,
                Node::Random,
                Node::Urandom,
            ]
        }),
{
    let head = seq![Step::NewNamespace, Step::MakePrivate, Step::RestrictAll { set: RESTRICTED }];
    let binds = rebind_steps(paths);
    let tail = seq![Step::ReopenNull, Step::ChangeDir];
    let all = view_steps_of(paths);
    assert(all =~= head + binds + dev_steps() + tail);
    lemma_applied_append(view, head + binds + dev_steps(), tail);
    lemma_applied_append(view, head + binds, dev_steps());
    lemma_applied_append(view, head, binds);
    let one = applied_all(view, head);
    assert(one.own && one.private && one.rest.read_only && one.rest.no_devices && one == (FileView {
        own: true,
        private: true,
        rest: one.rest,
        ..view
    })) by {
        assert((1u64 | 4u64) & 1 != 0 && (1u64 | 4u64) & 4 != 0) by (bit_vector);
        assert(head.drop_last() =~= seq![Step::NewNamespace, Step::MakePrivate]);
        assert(head.drop_last().drop_last() =~= seq![Step::NewNamespace]);
        assert(seq![Step::NewNamespace].drop_last() =~= Seq::<Step>::empty());
        reveal_with_fuel(applied_all, 4);
    }
    lemma_rebound(one, paths);
    let two = applied_all(one, binds);
    lemma_dev(two);
    lemma_dev_flags();
    let three = applied_all(two, dev_steps());
    assert(applied_all(three, tail) == three) by {
        assert(tail.drop_last() =~= seq![Step::ReopenNull]);
        assert(seq![Step::ReopenNull].drop_last() =~= Seq::<Step>::empty());
        reveal_with_fuel(applied_all, 3);
    }
}

/// What the flags of the private `/dev` and of its `shm` include.
proof fn lemma_dev_flags()
    ensures
        !has_flag(DEV_FLAGS, MS_RDONLY),
        has_flag(SEAL_FLAGS, MS_REMOUNT),
        has_flag(SEAL_FLAGS, MS_BIND),
        has_flag(SEAL_FLAGS, MS_RDONLY),
        has_flag(SEAL_FLAGS, MS_NOSUID),
        has_flag(SEAL_FLAGS, MS_NOEXEC),
        !has_flag(SHM_FLAGS, MS_RDONLY),
        has_flag(SHM_FLAGS, MS_NOSUID),
        has_flag(SHM_FLAGS, MS_NODEV),
{
    assert((2u64 | 8) & 1 == 0) by (bit_vector);
    assert({
        let seal = 32u64 | 4096 | 1 | 2 | 8;
        &&& seal & 32 != 0
        &&& seal & 4096 != 0
        &&& seal & 1 != 0
        &&& seal & 2 != 0
        &&& seal & 8 != 0
    }) by (bit_vector);
    assert((2u64 | 4) & 1 == 0 && (2u64 | 4) & 2 != 0 && (2u64 | 4) & 4 != 0) by (bit_vector);
}

proof fn lemma_dev(view: FileView)
    requires
        view.dev is None,
        view.held == Set::<Node>::empty(),
    ensures
        ({
            let after = applied_all(view, dev_steps());
            let nodes = set![Node::Null, Node::Zero, Node::Full, Node::Random, Node::Urandom];
            after == (FileView {
                dev: Some(Tmpfs { flags: SEAL_FLAGS, ..dev_fs() }),
                shm: Some(shm_fs()),
                held: nodes,
                usable: nodes,
                ..view
            })
        }),
{
    let nodes = set![Node::Null, Node::Zero, Node::Full, Node::Random, Node::Urandom];
    let a = seq![
        Step::Detach(Node::Null),
        Step::Detach(Node::Zero),
        Step::Detach(Node::Full),
        Step::Detach(Node::Random),
        Step::Detach(Node::Urandom),
    ];
    let b = seq![
        Step::Place { node: Node::Null, clear: NODEV },
        Step::Place { node: Node::Zero, clear: NODEV },
        Step::Place { node: Node::Full, clear: NODEV },
        Step::Place { node: Node::Random, clear: NODEV },
        Step::Place { node: Node::Urandom, clear: NODEV },
    ];
    let c = seq![
        Step::MakeLink(Link::Fd),
        Step::MakeLink(Link::Stdin),
        Step::MakeLink(Link::Stdout),
        Step::MakeLink(Link::Stderr),
        Step::MountShm(shm_fs()),
        Step::SealDev { flags: SEAL_FLAGS },
    ];
    let m = seq![Step::MountDev(dev_fs())];
    assert(dev_steps() =~= a + m + b + c);
    lemma_applied_append(view, a + m + b, c);
    lemma_applied_append(view, a + m, b);
    lemma_applied_append(view, a, m);
    let one = applied_all(view, a);
    lemma_five(view, a);
    assert(one.held =~= nodes);
    let two = applied_all(one, m);
    assert(m.drop_last() =~= Seq::<Step>::empty());
    assert(two == applied(one, Step::MountDev(dev_fs()))) by {
        reveal_with_fuel(applied_all, 2);
    }
    assert(4u64 & 4 != 0) by (bit_vector);
    lemma_dev_flags();
    lemma_five(two, b);
    let three = applied_all(two, b);
    assert(three.usable =~= nodes);
    assert(c.drop_last() =~= seq![
        Step::MakeLink(Link::Fd),
        Step::MakeLink(Link::Stdin),
        Step::MakeLink(Link::Stdout),
        Step::MakeLink(Link::Stderr),
        Step::MountShm(shm_fs()),
    ]);
    lemma_five(three, c.drop_last());
}

/// Five steps, one after another.
proof fn lemma_five(view: FileView, s: Seq<Step>)
    requires
        s.len() == 5,
    ensures
        applied_all(view, s) == applied(
            applied(applied(applied(applied(view, s[0]), s[1]), s[2]), s[3]),
            s[4],
        ),
{
    assert(s.drop_last().last() == s[3]);
    assert(s.drop_last().drop_last().last() == s[2]);
    assert(s.drop_last().drop_last().drop_last().last() == s[1]);
    assert(s.drop_last().drop_last().drop_last().drop_last().last() == s[0]);
    assert(s.drop_last().drop_last().drop_last().drop_last().drop_last() =~= Seq::<Step>::empty());
    reveal_with_fuel(applied_all, 6);
}

/// The private `/dev` has its four links, made while it is writable; at the end
/// the null device is opened from it, and the working directory is entered anew.
pub proof fn law_view_has_links(paths: nat, link: Link)
    ensures
        ({
            let s = view_steps_of(paths);
            let n = s.len() as int;
            &&& n == paths + 22
            &&& exists|i: int| paths + 8 < i < n - 3 && #[trigger] s[i] == Step::MakeLink(link)
            &&& s[paths as int + 8] is MountDev
            &&& s[n - 3] is SealDev
            &&& s[n - 2] == Step::ReopenNull
            &&& s[n - 1] == Step::ChangeDir
        }),
{
    let s = view_steps_of(paths);
    assert(s[paths as int + 8] == dev_steps()[5]);
    assert(s[paths as int + 14] == dev_steps()[11]);
    assert(s[paths as int + 15] == dev_steps()[12]);
    assert(s[paths as int + 16] == dev_steps()[13]);
    assert(s[paths as int + 17] == dev_steps()[14]);
    assert(s[paths as int + 19] == dev_steps()[16]);
}

} // verus!
