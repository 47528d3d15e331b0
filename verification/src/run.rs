//! What an execution needs before anything is started: its options, its
//! directory and its environment.
pub mod seatbelt;
pub mod stdin;
pub mod supervise;

use vstd::prelude::*;
use vstd::utf8::encode_utf8;
use crate::bytes::copied;
use crate::path::{are_entry_names, is_within, law_within_by_names, parts, same, within};
use crate::policy::{Policy, PolicyError};
use crate::run::stdin::check_sigchld;
use crate::sys::no_child_wait;
use crate::tmp_path::host::rendered;
pub use crate::sys::Platform;

verus! {

/// How long an execution may take.
#[derive(Clone, Copy, Debug, PartialEq, Eq)]
pub struct Timeout {
    pub secs: u64,
    pub nanos: u32,
}

/// A day, in nanoseconds.
pub const LONGEST: u128 = 86_400_000_000_000;

impl Timeout {
    /// Its length in nanoseconds.
    pub open spec fn length(self) -> nat {
        self.secs as nat * 1_000_000_000 + self.nanos as nat
    }
}

/// What to run, where, and under which policy.
pub struct RunOptions {
    pub policy: Policy,
    pub workdir: Vec<u8>,
    /// The program and its arguments.
    pub command: Vec<Vec<u8>>,
    pub timeout: Timeout,
}

/// Why a command is refused.
#[derive(Clone, Copy, Debug, PartialEq, Eq, Structural)]
pub enum CommandError {
    CommandRequired,
    TimeoutOutOfRange,
}

impl CommandError {
    /// The error in words.
    pub open spec fn words(self) -> Seq<char> {
        match self {
            CommandError::CommandRequired => "command required"@,
            CommandError::TimeoutOutOfRange => "timeout must be positive and at most 24h"@,
        }
    }

    /// The error in words.
    pub fn message(self) -> (r: &'static str)
        ensures
            r@ == self.words(),
    {
        match self {
            CommandError::CommandRequired => "command required",
            CommandError::TimeoutOutOfRange => "timeout must be positive and at most 24h",
        }
    }
}

/// What is wrong with a command, if anything: it needs a program, and a time
/// limit of at most a day.
pub open spec fn command_fault(command: Seq<Vec<u8>>, timeout: Timeout) -> Option<CommandError> {
    if command.len() == 0 || command[0]@.len() == 0 {
        Some(CommandError::CommandRequired)
    } else if timeout.length() == 0 || timeout.length() > LONGEST {
        Some(CommandError::TimeoutOutOfRange)
    } else {
        None
    }
}

/// Whether a command can be run.
pub fn validate_command(command: &[Vec<u8>], timeout: Timeout) -> (r: Result<(), CommandError>)
    ensures
        r == match command_fault(command@, timeout) {
            Some(fault) => Err(fault),
            None => Ok::<(), CommandError>(()),
        },
{
    if command.len() == 0 || command[0].len() == 0 {
        return Err(CommandError::CommandRequired);
    }
    let length: u128 = timeout.secs as u128 * 1_000_000_000 + timeout.nanos as u128;
    if length == 0 || length > LONGEST {
        return Err(CommandError::TimeoutOutOfRange);
    }
    Ok(())
}

/// Why a directory is refused.
#[derive(Clone, Copy, Debug, PartialEq, Eq, Structural)]
pub enum WorkdirError {
    /// It has no canonical name.
    Unresolved,
    NotDirectory,
    NotDedicated,
}

impl WorkdirError {
    /// The error in words.
    pub open spec fn words(self) -> Seq<char> {
        match self {
            WorkdirError::Unresolved => "workdir"@,
            WorkdirError::NotDirectory => "workdir must be an existing directory"@,
            WorkdirError::NotDedicated => "workdir must be a dedicated workspace"@,
        }
    }

    /// The error in words.
    pub fn message(self) -> (r: &'static str)
        ensures
            r@ == self.words(),
    {
        match self {
            WorkdirError::Unresolved => "workdir",
            WorkdirError::NotDirectory => "workdir must be an existing directory",
            WorkdirError::NotDedicated => "workdir must be a dedicated workspace",
        }
    }
}

/// What is wrong with a directory, if anything. Neither the root nor a
/// directory that holds the home directory is a dedicated workspace.
pub open spec fn workdir_fault(
    dir: Option<Seq<u8>>,
    is_dir: bool,
    home: Option<Seq<u8>>,
) -> Option<WorkdirError> {
    match dir {
        None => Some(WorkdirError::Unresolved),
        Some(dir) => if !is_dir {
            Some(WorkdirError::NotDirectory)
        } else if parts(dir) == parts(seq![crate::bytes::SLASH]) || (home matches Some(h)
            && is_within(h, dir)) {
            Some(WorkdirError::NotDedicated)
        } else {
            None
        },
    }
}

/// What an optional path holds.
pub open spec fn path_of(p: Option<Vec<u8>>) -> Option<Seq<u8>> {
    match p {
        Some(v) => Some(v@),
        None => None,
    }
}

/// The directory to work in, given its canonical name, whether it is a
/// directory, and the canonical name of the home directory.
pub fn workdir(dir: Option<Vec<u8>>, is_dir: bool, home: Option<Vec<u8>>) -> (r: Result<
    Vec<u8>,
    WorkdirError,
>)
    ensures
        match workdir_fault(path_of(dir), is_dir, path_of(home)) {
            Some(fault) => r == Err::<Vec<u8>, WorkdirError>(fault),
            None => r == Ok::<Vec<u8>, WorkdirError>(dir->Some_0),
        },
{
    let dir = match dir {
        Some(dir) => dir,
        None => return Err(WorkdirError::Unresolved),
    };
    if !is_dir {
        return Err(WorkdirError::NotDirectory);
    }
    let root: [u8; 1] = [crate::bytes::SLASH];
    proof {
        assert(root@ =~= seq![crate::bytes::SLASH]);
    }
    if same(&dir, &root) {
        return Err(WorkdirError::NotDedicated);
    }
    if let Some(home) = &home {
        if within(home, &dir) {
            return Err(WorkdirError::NotDedicated);
        }
    }
    Ok(dir)
}

/// Why an execution does not start.
#[derive(Clone, Copy, Debug)]
pub enum RunError {
    Policy(PolicyError),
    Command(CommandError),
    /// The caller keeps no exit statuses.
    StatusLost,
    /// What standard input is could not be told.
    Stdin(i32),
    WritableStdin,
    NoBackend,
}

impl RunError {
    /// The error in words. An error number of the system has none here.
    pub fn message(self) -> (r: Option<&'static str>)
        ensures
            match self {
                RunError::StatusLost => r is Some && r->Some_0@
                    == "SIGCHLD must not be ignored; exit statuses would be lost"@,
                RunError::WritableStdin => r is Some && r->Some_0@
                    == "writable file stdin is not allowed; open it read-only or use a pipe"@,
                RunError::NoBackend => r is Some && r->Some_0@
                    == "network isolation backend requires macOS or Linux; refusing unsandboxed execution"@,
                RunError::Stdin(_) => r is None,
                RunError::Policy(e) => r is Some && r->Some_0@ == e.words(),
                RunError::Command(e) => r is Some && r->Some_0@ == e.words(),
            },
    {
        match self {
            RunError::Policy(e) => Some(e.message()),
            RunError::Command(e) => Some(e.message()),
            RunError::StatusLost => Some(
                "SIGCHLD must not be ignored; exit statuses would be lost",
            ),
            RunError::Stdin(_) => None,
            RunError::WritableStdin => Some(
                "writable file stdin is not allowed; open it read-only or use a pipe",
            ),
            RunError::NoBackend => Some(
                "network isolation backend requires macOS or Linux; refusing unsandboxed execution",
            ),
        }
    }
}

/// What keeps an execution from starting, if anything.
pub open spec fn run_fault(
    options: RunOptions,
    ignored: bool,
    flags: i32,
    writes_storage: Result<bool, i32>,
    platform: Platform,
) -> Option<RunError> {
    if options.policy.fault() is Some {
        Some(RunError::Policy(options.policy.fault()->Some_0))
    } else if command_fault(options.command@, options.timeout) is Some {
        Some(RunError::Command(command_fault(options.command@, options.timeout)->Some_0))
    } else if platform is Linux && (ignored || flags & no_child_wait(platform) != 0) {
        Some(RunError::StatusLost)
    } else {
        match writes_storage {
            Err(errno) => Some(RunError::Stdin(errno)),
            Ok(true) => Some(RunError::WritableStdin),
            Ok(false) => if platform is Other {
                Some(RunError::NoBackend)
            } else {
                None
            },
        }
    }
}

/// Whether an execution may start. `ignored` and `flags` are what the caller does
/// about the end of its children, which matters where kernel isolation on Linux
/// has to collect them. Without a system to isolate it, an execution never
/// starts.
pub fn run(
    options: &RunOptions,
    ignored: bool,
    flags: i32,
    writes_storage: Result<bool, i32>,
    platform: Platform,
) -> (r: Result<(), RunError>)
    ensures
        match run_fault(*options, ignored, flags, writes_storage, platform) {
            Some(fault) => r == Err::<(), RunError>(fault),
            None => r is Ok,
        },
{
    if let Err(fault) = options.policy.validate() {
        return Err(RunError::Policy(fault));
    }
    if let Err(fault) = validate_command(&options.command, options.timeout) {
        return Err(RunError::Command(fault));
    }
    if platform == Platform::Linux && check_sigchld(ignored, flags, platform).is_err() {
        return Err(RunError::StatusLost);
    }
    match writes_storage {
        Err(errno) => Err(RunError::Stdin(errno)),
        Ok(true) => Err(RunError::WritableStdin),
        Ok(false) => match platform {
            Platform::Other => Err(RunError::NoBackend),
            _ => Ok(()),
        },
    }
}

/// A variable of the environment.
pub struct Setting {
    pub name: &'static str,
    pub value: Vec<u8>,
}

/// What some variables hold.
pub open spec fn settings(env: Seq<Setting>) -> Seq<(Seq<char>, Seq<u8>)> {
    Seq::new(env.len(), |i: int| (env[i].name@, env[i].value@))
}

/// Where programs are looked for.
pub open spec fn program_path(platform: Platform) -> Seq<char> {
    if platform is Mac {
        "/usr/bin:/bin:/usr/sbin:/sbin:/opt/homebrew/bin:/usr/local/bin"@
    } else {
        "/usr/local/bin:/usr/bin:/bin:/usr/sbin:/sbin"@
    }
}

/// The language that an execution speaks.
pub open spec fn language(platform: Platform) -> Seq<char> {
    if platform is Mac {
        "en_US.UTF-8"@
    } else {
        "C.UTF-8"@
    }
}

/// The variables that every execution has.
pub open spec fn own_settings(platform: Platform, dir: Seq<u8>, temp: Seq<u8>) -> Seq<
    (Seq<char>, Seq<u8>),
> {
    seq![
        ("PATH"@, encode_utf8(program_path(platform))),
        ("HOME"@, temp),
        ("TMPDIR"@, temp),
        ("PWD"@, dir),
        ("LANG"@, encode_utf8(language(platform))),
        ("NO_PROXY"@, Seq::empty()),
        ("no_proxy"@, Seq::empty()),
    ]
}

/// The variables by which programs find the proxy.
pub open spec fn proxy_settings(url: Seq<char>) -> Seq<(Seq<char>, Seq<u8>)> {
    seq![
        ("http_proxy"@, encode_utf8(url)),
        ("https_proxy"@, encode_utf8(url)),
        ("HTTP_PROXY"@, encode_utf8(url)),
        ("HTTPS_PROXY"@, encode_utf8(url)),
        ("ALL_PROXY"@, encode_utf8(url)),
        ("all_proxy"@, encode_utf8(url)),
    ]
}

fn set(env: &mut Vec<Setting>, name: &'static str, value: &[u8])
    ensures
        settings(final(env)@) == settings(old(env)@).push((name@, value@)),
{
    let ghost before = env@;
    env.push(Setting { name, value: copied(value) });
    proof {
        assert(settings(env@) =~= settings(before).push((name@, value@)));
    }
}

/// The whole environment of an execution: nothing is inherited.
pub fn environment(platform: Platform, dir: &[u8], temp: &[u8], url: Option<&str>) -> (r: Vec<
    Setting,
>)
    ensures
        settings(r@) == own_settings(platform, dir@, temp@) + (match url {
            Some(u) => proxy_settings(u@),
            None => Seq::empty(),
        }),
{
    let mut env: Vec<Setting> = Vec::new();
    let (paths, lang) = match platform {
        Platform::Mac => (
            "/usr/bin:/bin:/usr/sbin:/sbin:/opt/homebrew/bin:/usr/local/bin",
            "en_US.UTF-8",
        ),
        _ => ("/usr/local/bin:/usr/bin:/bin:/usr/sbin:/sbin", "C.UTF-8"),
    };
    let none: [u8; 0] = [];
    set(&mut env, "PATH", paths.as_bytes());
    set(&mut env, "HOME", temp);
    set(&mut env, "TMPDIR", temp);
    set(&mut env, "PWD", dir);
    set(&mut env, "LANG", lang.as_bytes());
    set(&mut env, "NO_PROXY", &none);
    set(&mut env, "no_proxy", &none);
    proof {
        assert(none@ =~= Seq::<u8>::empty());
        assert(settings(env@) =~= own_settings(platform, dir@, temp@));
    }
    if let Some(url) = url {
        let value = url.as_bytes();
        set(&mut env, "http_proxy", value);
        set(&mut env, "https_proxy", value);
        set(&mut env, "HTTP_PROXY", value);
        set(&mut env, "HTTPS_PROXY", value);
        set(&mut env, "ALL_PROXY", value);
        set(&mut env, "all_proxy", value);
        proof {
            assert(settings(env@) =~= own_settings(platform, dir@, temp@) + proxy_settings(url@));
        }
    } else {
        proof {
            assert(settings(env@) =~= own_settings(platform, dir@, temp@) + Seq::empty());
        }
    }
    env
}

/// A command is accepted exactly where its first word says something and its
/// time limit is more than nothing and at most twenty-four hours; without a first
/// word the limit is not looked at.
pub proof fn law_command_is_accepted(command: Seq<Vec<u8>>, timeout: Timeout)
    ensures
        command_fault(command, timeout) is None <==> {
            &&& command.len() >= 1
            &&& command[0]@.len() >= 1
            &&& timeout.secs > 0 || timeout.nanos > 0
            &&& timeout.secs * 1_000_000_000 + timeout.nanos <= 24 * 60 * 60 * 1_000_000_000int
        },
        command_fault(command, timeout) == Some(CommandError::CommandRequired) <==> command.len()
            < 1 || command[0]@.len() < 1,
{
}

/// A directory is worked in exactly where it is one, is not the root, and the
/// home directory is neither it nor below it.
pub proof fn law_workdir_is_dedicated(
    dir: Seq<Seq<u8>>,
    is_dir: bool,
    home: Seq<Seq<u8>>,
)
    requires
        are_entry_names(dir),
        are_entry_names(home),
    ensures
        workdir_fault(None, is_dir, Some(rendered(home))) == Some(WorkdirError::Unresolved),
        workdir_fault(None, is_dir, None) == Some(WorkdirError::Unresolved),
        !is_dir ==> workdir_fault(Some(rendered(dir)), is_dir, Some(rendered(home))) == Some(
            WorkdirError::NotDirectory,
        ) && workdir_fault(Some(rendered(dir)), is_dir, None) == Some(WorkdirError::NotDirectory),
        is_dir ==> workdir_fault(Some(rendered(dir)), is_dir, None) == if dir.len() == 0 {
            Some(WorkdirError::NotDedicated)
        } else {
            None
        },
        is_dir ==> workdir_fault(Some(rendered(dir)), is_dir, Some(rendered(home)))
            == if dir.len() <= home.len() && forall|i: int|
            0 <= i < dir.len() ==> #[trigger] dir[i] == home[i] {
            Some(WorkdirError::NotDedicated)
        } else {
            None
        },
{
    let root = Seq::<Seq<u8>>::empty();
    law_within_by_names(home, dir);
    law_within_by_names(dir, root);
    assert(rendered(root) =~= seq![crate::bytes::SLASH]);
    if dir.len() == 0 {
        assert(dir =~= root);
    }
}

/// An execution starts exactly where the policy and the command are in order,
/// standard input writes to nothing that is kept, and the system can isolate it;
/// on Linux, also only where its exit status will not be lost.
pub proof fn law_run_starts(
    options: RunOptions,
    ignored: bool,
    flags: i32,
    writes_storage: Result<bool, i32>,
    platform: Platform,
)
    ensures
        ({
            let fault = run_fault(options, ignored, flags, writes_storage, platform);
            let in_order = options.policy.fault() is None && command_fault(
                options.command@,
                options.timeout,
            ) is None;
            let lost = platform == Platform::Linux && (ignored || flags & 2 != 0);
            &&& fault is None <==> in_order && !lost && writes_storage == Ok::<bool, i32>(false)
                && platform != Platform::Other
            &&& options.policy.fault() is Some ==> fault == Some(
                RunError::Policy(options.policy.fault()->Some_0),
            )
            &&& fault matches Some(RunError::Command(_)) ==> options.policy.fault() is None
            &&& fault == Some(RunError::StatusLost) <==> in_order && lost
            &&& in_order && !lost ==> match writes_storage {
                Err(errno) => fault == Some(RunError::Stdin(errno)),
                Ok(writes) => writes ==> fault == Some(RunError::WritableStdin),
            }
        }),
{
}

/// What a variable is set to, if it is set.
pub open spec fn setting_of(env: Seq<(Seq<char>, Seq<u8>)>, name: Seq<char>) -> Option<Seq<u8>>
    decreases env.len(),
{
    if env.len() == 0 {
        None
    } else if env.last().0 == name {
        Some(env.last().1)
    } else {
        setting_of(env.drop_last(), name)
    }
}

/// An execution is at home in its temporary directory and works in its own; every
/// variable that programs look for a proxy in names the proxy, or is not set where
/// there is none; and no host is excepted from it.
pub proof fn law_environment_is_own(
    platform: Platform,
    dir: Seq<u8>,
    temp: Seq<u8>,
    url: Seq<char>,
)
    ensures
        ({
            let alone = own_settings(platform, dir, temp);
            let env = alone + proxy_settings(url);
            let own = |e: Seq<(Seq<char>, Seq<u8>)>|
                {
                    &&& setting_of(e, "HOME"@) == Some(temp)
                    &&& setting_of(e, "TMPDIR"@) == Some(temp)
                    &&& setting_of(e, "PWD"@) == Some(dir)
                    &&& setting_of(e, "NO_PROXY"@) == Some(Seq::<u8>::empty())
                    &&& setting_of(e, "no_proxy"@) == Some(Seq::<u8>::empty())
                    &&& setting_of(e, "PATH"@) == Some(
                        encode_utf8(
                            match platform {
                                Platform::Mac =>
                                    "/usr/bin:/bin:/usr/sbin:/sbin:/opt/homebrew/bin:/usr/local/bin"@,
                                _ => "/usr/local/bin:/usr/bin:/bin:/usr/sbin:/sbin"@,
                            },
                        ),
                    )
                    &&& setting_of(e, "LANG"@) == Some(
                        encode_utf8(
                            match platform {
                                Platform::Mac => "en_US.UTF-8"@,
                                _ => "C.UTF-8"@,
                            },
                        ),
                    )
                };
            &&& own(alone)
            &&& own(env)
            &&& alone.len() == 7
            &&& env.len() == 13
            &&& setting_of(env, "http_proxy"@) == Some(encode_utf8(url))
            &&& setting_of(env, "https_proxy"@) == Some(encode_utf8(url))
            &&& setting_of(env, "all_proxy"@) == Some(encode_utf8(url))
            &&& setting_of(env, "HTTP_PROXY"@) == Some(encode_utf8(url))
            &&& setting_of(env, "HTTPS_PROXY"@) == Some(encode_utf8(url))
            &&& setting_of(env, "ALL_PROXY"@) == Some(encode_utf8(url))
        }),
{
    reveal_strlit("PATH");
    reveal_strlit("HOME");
    reveal_strlit("TMPDIR");
    reveal_strlit("PWD");
    reveal_strlit("LANG");
    reveal_strlit("NO_PROXY");
    reveal_strlit("no_proxy");
    reveal_strlit("http_proxy");
    reveal_strlit("https_proxy");
    reveal_strlit("all_proxy");
    reveal_strlit("HTTP_PROXY");
    reveal_strlit("HTTPS_PROXY");
    reveal_strlit("ALL_PROXY");
    assert("PATH"@.len() == 4 && "HOME"@.len() == 4 && "LANG"@.len() == 4);
    assert("PWD"@.len() == 3 && "TMPDIR"@.len() == 6);
    assert("NO_PROXY"@.len() == 8 && "no_proxy"@.len() == 8);
    assert("http_proxy"@.len() == 10 && "HTTP_PROXY"@.len() == 10);
    assert("https_proxy"@.len() == 11 && "HTTPS_PROXY"@.len() == 11);
    assert("all_proxy"@.len() == 9 && "ALL_PROXY"@.len() == 9);
    assert("PATH"@[0] == 'P' && "HOME"@[0] == 'H' && "LANG"@[0] == 'L');
    assert("NO_PROXY"@[0] == 'N' && "no_proxy"@[0] == 'n');
    assert("http_proxy"@[0] == 'h' && "HTTP_PROXY"@[0] == 'H');
    assert("https_proxy"@[0] == 'h' && "HTTPS_PROXY"@[0] == 'H');
    assert("all_proxy"@[0] == 'a' && "ALL_PROXY"@[0] == 'A');
    let alone = own_settings(platform, dir, temp);
    let env = alone + proxy_settings(url);
    lemma_setting_of(alone, "HOME"@, 1);
    lemma_setting_of(alone, "TMPDIR"@, 2);
    lemma_setting_of(alone, "PWD"@, 3);
    lemma_setting_of(alone, "NO_PROXY"@, 5);
    lemma_setting_of(alone, "no_proxy"@, 6);
    lemma_setting_of(alone, "PATH"@, 0);
    lemma_setting_of(alone, "LANG"@, 4);
    lemma_setting_of(env, "HOME"@, 1);
    lemma_setting_of(env, "TMPDIR"@, 2);
    lemma_setting_of(env, "PWD"@, 3);
    lemma_setting_of(env, "NO_PROXY"@, 5);
    lemma_setting_of(env, "no_proxy"@, 6);
    lemma_setting_of(env, "PATH"@, 0);
    lemma_setting_of(env, "LANG"@, 4);
    lemma_setting_of(env, "http_proxy"@, 7);
    lemma_setting_of(env, "https_proxy"@, 8);
    lemma_setting_of(env, "HTTP_PROXY"@, 9);
    lemma_setting_of(env, "HTTPS_PROXY"@, 10);
    lemma_setting_of(env, "ALL_PROXY"@, 11);
    lemma_setting_of(env, "all_proxy"@, 12);
}

/// A variable is set to what its last entry says.
proof fn lemma_setting_of(env: Seq<(Seq<char>, Seq<u8>)>, name: Seq<char>, at: int)
    requires
        0 <= at < env.len(),
        env[at].0 == name,
        forall|i: int| at < i < env.len() ==> (#[trigger] env[i]).0 != name,
    ensures
        setting_of(env, name) == Some(env[at].1),
    decreases env.len(),
{
    if at < env.len() - 1 {
        lemma_setting_of(env.drop_last(), name, at);
    }
}

} // verus!
