//! Which writes a Landlock ruleset leaves to an execution.
use vstd::prelude::*;
use crate::bytes::copied;
use crate::text::{decimal, push_numeral, string_of};

verus! {

pub const WRITE_FILE: u64 = 0x2;
pub const REMOVE_DIR: u64 = 0x10;
pub const REMOVE_FILE: u64 = 0x20;
pub const MAKE_CHAR: u64 = 0x40;
pub const MAKE_DIR: u64 = 0x80;
pub const MAKE_REG: u64 = 0x100;
pub const MAKE_SOCK: u64 = 0x200;
pub const MAKE_FIFO: u64 = 0x400;
pub const MAKE_BLOCK: u64 = 0x800;
pub const MAKE_SYM: u64 = 0x1000;
pub const REFER: u64 = 0x2000;
pub const TRUNCATE: u64 = 0x4000;
pub const IOCTL_DEV: u64 = 0x8000;

pub const SCOPE_ABSTRACT_UNIX_SOCKET: u64 = 0x1;
pub const SCOPE_SIGNAL: u64 = 0x2;

/// What is granted on a file.
pub const FILE_RIGHTS: u64 = WRITE_FILE | TRUNCATE;

/// What is granted beneath a directory.
pub const DIR_RIGHTS: u64 = WRITE_FILE | TRUNCATE | REMOVE_DIR | REMOVE_FILE | MAKE_CHAR | MAKE_DIR
    | MAKE_REG | MAKE_SOCK | MAKE_FIFO | MAKE_BLOCK | MAKE_SYM | REFER;

/// What leaves the sandbox is scoped.
pub const SCOPED: u64 = SCOPE_SIGNAL | SCOPE_ABSTRACT_UNIX_SOCKET;

/// The first version that mediates `truncate` and `O_TRUNC`.
pub const ABI_TRUNCATE: i64 = 3;
/// The first version that mediates device ioctls.
pub const ABI_IOCTL: i64 = 5;
/// The first version that scopes signals and abstract sockets.
pub const ABI_SCOPE: i64 = 6;

/// Rights on one path.
pub struct Rule {
    pub path: Vec<u8>,
    pub rights: u64,
}

/// What a ruleset is made of.
pub struct Ruleset {
    /// What is denied unless a rule grants it.
    pub handled: u64,
    /// What is confined to the sandbox.
    pub scoped: u64,
    pub rules: Vec<Rule>,
    /// What is granted beneath a directory.
    pub dir_rights: u64,
}

/// Why there is no ruleset. Execution without one is refused.
#[derive(Clone, Copy, Debug, PartialEq, Eq, Structural)]
pub enum LandlockError {
    /// The kernel has no Landlock.
    Unavailable,
    /// The version does not mediate truncation.
    NoTruncate(i64),
}

/// What is granted on a file, by version.
pub open spec fn file_rights(abi: i64) -> u64 {
    if abi >= ABI_IOCTL {
        FILE_RIGHTS | IOCTL_DEV
    } else {
        FILE_RIGHTS
    }
}

/// What is denied unless granted, by version.
pub open spec fn handled(abi: i64) -> u64 {
    if abi >= ABI_IOCTL {
        DIR_RIGHTS | IOCTL_DEV
    } else {
        DIR_RIGHTS
    }
}

/// The path and the rights of the `i`th rule: the directories first, then the
/// files.
pub open spec fn rule_at(dirs: Seq<Vec<u8>>, files: Seq<Vec<u8>>, abi: i64, i: int) -> (
    Seq<u8>,
    u64,
) {
    if i < dirs.len() {
        (dirs[i]@, DIR_RIGHTS)
    } else {
        (files[i - dirs.len()]@, file_rights(abi))
    }
}

/// A ruleset that denies writes except beneath `dirs` and to `files`, for the
/// version `abi` of Landlock.
pub fn write_ruleset(abi: i64, dirs: &[Vec<u8>], files: &[Vec<u8>]) -> (r: Result<
    Ruleset,
    LandlockError,
>)
    ensures
        if abi < 1 {
            r matches Err(e) && e == LandlockError::Unavailable
        } else if abi < ABI_TRUNCATE {
            r matches Err(e) && e == LandlockError::NoTruncate(abi)
        } else {
            r matches Ok(set) && {
                &&& set.handled == handled(abi)
                &&& set.scoped == if abi >= ABI_SCOPE {
                    SCOPED
                } else {
                    0
                }
                &&& set.dir_rights == DIR_RIGHTS
                &&& set.rules@.len() == dirs@.len() + files@.len()
                &&& forall|i: int|
                    0 <= i < set.rules@.len() ==> ((#[trigger] set.rules@[i]).path@,
                        set.rules@[i].rights) == rule_at(dirs@, files@, abi, i)
            }
        },
        r is Ok <==> abi >= 3,
        r matches Ok(set) ==> set.scoped == if abi >= 6 {
            3u64
        } else {
            0
        },
{
    proof {
        law_rights_are_those_that_write(abi);
    }
    if abi < 1 {
        return Err(LandlockError::Unavailable);
    }
    if abi < ABI_TRUNCATE {
        return Err(LandlockError::NoTruncate(abi));
    }
    // Older versions rely on the nodev view and the private /dev.
    let (on_files, denied): (u64, u64) = if abi >= ABI_IOCTL {
        (FILE_RIGHTS | IOCTL_DEV, DIR_RIGHTS | IOCTL_DEV)
    } else {
        (FILE_RIGHTS, DIR_RIGHTS)
    };
    let scoped = if abi >= ABI_SCOPE {
        SCOPED
    } else {
        0
    };
    let mut rules: Vec<Rule> = Vec::new();
    let mut i: usize = 0;
    while i < dirs.len()
        invariant
            i <= dirs@.len(),
            rules@.len() == i,
            forall|j: int|
                0 <= j < i ==> ((#[trigger] rules@[j]).path@, rules@[j].rights) == rule_at(
                    dirs@,
                    files@,
                    abi,
                    j,
                ),
        decreases dirs@.len() - i,
    {
        rules.push(Rule { path: copied(dirs[i].as_slice()), rights: DIR_RIGHTS });
        i = i + 1;
    }
    let mut k: usize = 0;
    while k < files.len()
        invariant
            k <= files@.len(),
            on_files == file_rights(abi),
            rules@.len() == dirs@.len() + k,
            forall|j: int|
                0 <= j < dirs@.len() + k ==> ((#[trigger] rules@[j]).path@, rules@[j].rights)
                    == rule_at(dirs@, files@, abi, j),
        decreases files@.len() - k,
    {
        rules.push(Rule { path: copied(files[k].as_slice()), rights: on_files });
        k = k + 1;
    }
    Ok(Ruleset { handled: denied, scoped, rules, dir_rights: DIR_RIGHTS })
}

/// What is reported of a version that is too old.
pub fn too_old_message(abi: u64) -> (r: String)
    ensures
        r@ == "Landlock ABI "@ + decimal(abi as nat)
            + " cannot restrict truncation; Linux 6.2+ is required"@,
{
    let mut r = String::from_str("Landlock ABI ");
    let mut t: Vec<char> = Vec::new();
    push_numeral(&mut t, abi, 10);
    proof {
        assert(t@ =~= decimal(abi as nat));
    }
    r.append(string_of(&t).as_str());
    r.append(" cannot restrict truncation; Linux 6.2+ is required");
    r
}

/// Rules grant only what the ruleset handles; in every version that has a
/// ruleset, writing and truncating are handled; a directory grants no device
/// ioctl.
pub proof fn law_rules_within_handled(abi: i64)
    ensures
        DIR_RIGHTS & handled(abi) == DIR_RIGHTS,
        file_rights(abi) & handled(abi) == file_rights(abi),
        (WRITE_FILE | TRUNCATE) & handled(abi) == WRITE_FILE | TRUNCATE,
        DIR_RIGHTS & IOCTL_DEV == 0,
{
    let d = DIR_RIGHTS;
    let f = FILE_RIGHTS;
    assert(d == 0x7ff2u64) by {
        assert((0x2u64 | 0x4000 | 0x10 | 0x20 | 0x40 | 0x80 | 0x100 | 0x200 | 0x400 | 0x800 | 0x1000
            | 0x2000) == 0x7ff2u64) by (bit_vector);
    }
    assert(f == 0x4002u64) by {
        assert((0x2u64 | 0x4000) == 0x4002u64) by (bit_vector);
    }
    assert(0x7ff2u64 & 0x7ff2 == 0x7ff2 && 0x4002u64 & 0x7ff2 == 0x4002 && 0x7ff2u64 & 0x8000 == 0
        && 0x7ff2u64 & (0x7ff2u64 | 0x8000) == 0x7ff2 && (0x4002u64 | 0x8000) & (0x7ff2u64 | 0x8000)
        == 0x4002u64 | 0x8000 && 0x4002u64 & (0x7ff2u64 | 0x8000) == 0x4002) by (bit_vector);
}

/// Making, removing, moving, writing and truncating are handled, and reading and
/// executing never are; a file may be written and truncated; device ioctls are
/// handled, and allowed on files, from the fifth version on.
pub proof fn law_rights_are_those_that_write(abi: i64)
    ensures
        handled(abi) == if abi >= 5 {
            0xfff2u64
        } else {
            0x7ff2u64
        },
        file_rights(abi) == if abi >= 5 {
            0xc002u64
        } else {
            0x4002u64
        },
        DIR_RIGHTS == 0x7ff2u64,
        SCOPED == 3u64,
{
    assert((0x2u64 | 0x4000 | 0x10 | 0x20 | 0x40 | 0x80 | 0x100 | 0x200 | 0x400 | 0x800 | 0x1000
        | 0x2000) == 0x7ff2u64 && (0x2u64 | 0x4000) == 0x4002u64 && (0x7ff2u64 | 0x8000)
        == 0xfff2u64 && (0x4002u64 | 0x8000) == 0xc002u64 && (0x2u64 | 0x1) == 3u64)
        by (bit_vector);
}

/// Every directory and every file has one rule, the directories first, each with
/// the rights of its kind.
pub proof fn law_every_path_has_a_rule(
    dirs: Seq<Vec<u8>>,
    files: Seq<Vec<u8>>,
    abi: i64,
    d: int,
    f: int,
)
    requires
        0 <= d < dirs.len(),
        0 <= f < files.len(),
    ensures
        rule_at(dirs, files, abi, d) == (dirs[d]@, 0x7ff2u64),
        rule_at(dirs, files, abi, dirs.len() + f) == (files[f]@, if abi >= 5 {
            0xc002u64
        } else {
            0x4002u64
        }),
{
    law_rights_are_those_that_write(abi);
}

} // verus!
