//! Allocation-free mapping of host temp paths (`/tmp`, `/var/tmp` and their
//! `/private` forms) below a per-workspace root, and back.
pub mod answer;
pub mod host;
pub mod laws;
pub mod map;
pub mod map_at;
pub mod relative;
pub mod round_trip;
pub mod scan;
pub mod success;
pub mod unmap;

use vstd::prelude::*;
use crate::bytes::{components_from, equal, find_component_end, starts_with, SLASH};

verus! {

/// What a path buffer holds: the longest path that any kernel accepts, its
/// terminator included.
pub const PATH_ROOM: usize = 4096;

/// Longest a workspace temp root may be.
pub const MAX_ROOT_LEN: usize = 512;

/// Shortest a workspace temp root may be: the length that `/private` adds to a
/// reported name, so that a reported name is never longer than the physical one.
pub const MIN_ROOT_LEN: usize = 8;

/// `.`
pub const DOT: [u8; 1] = [46];

/// `..`
pub const DOTDOT: [u8; 2] = [46, 46];

/// `private`
pub const PRIVATE: [u8; 7] = [112, 114, 105, 118, 97, 116, 101];

/// `var`
pub const VAR: [u8; 3] = [118, 97, 114];

/// `tmp`
pub const TMP: [u8; 3] = [116, 109, 112];

/// `/tmp`
pub const ROOT_TMP: [u8; 4] = [47, 116, 109, 112];

/// `/var/tmp`
pub const ROOT_VAR_TMP: [u8; 8] = [47, 118, 97, 114, 47, 116, 109, 112];

/// `/private/tmp`
pub const ROOT_PRIVATE_TMP: [u8; 12] = [47, 112, 114, 105, 118, 97, 116, 101, 47, 116, 109, 112];

/// `/private/var/tmp`
pub const ROOT_PRIVATE_VAR_TMP: [u8; 16] = [
    47, 112, 114, 105, 118, 97, 116, 101, 47, 118, 97, 114, 47, 116, 109, 112,
];

/// One of the two host temp directories.
#[derive(Clone, Copy, PartialEq, Eq, Structural)]
pub enum TempRoot {
    /// `/private/tmp`, also reached as `/tmp`.
    Tmp,
    /// `/private/var/tmp`, also reached as `/var/tmp`.
    VarTmp,
}

impl TempRoot {
    /// Its location below the workspace root.
    pub open spec fn below_root(self) -> Seq<u8> {
        match self {
            TempRoot::Tmp => ROOT_TMP@,
            TempRoot::VarTmp => ROOT_VAR_TMP@,
        }
    }

    /// The name the host reports for it.
    pub open spec fn host_name(self) -> Seq<u8> {
        match self {
            TempRoot::Tmp => ROOT_PRIVATE_TMP@,
            TempRoot::VarTmp => ROOT_PRIVATE_VAR_TMP@,
        }
    }

    /// The aliased directory that it lies in.
    pub open spec fn parent(self) -> Base {
        match self {
            TempRoot::Tmp => Base::Private,
            TempRoot::VarTmp => Base::PrivVar,
        }
    }
}

/// Where a leading path prefix stands, relative to the three aliased
/// directories that lead into a host temp root.
#[derive(Clone, Copy, PartialEq, Eq, Structural)]
pub enum Base {
    /// `/`
    Root,
    /// `/private`
    Private,
    /// `/private/var`, also reached as `/var`.
    PrivVar,
}

impl Base {
    /// The directory that a `..` leads to.
    pub open spec fn above(self) -> Base {
        match self {
            Base::Root => Base::Root,
            Base::Private => Base::Root,
            Base::PrivVar => Base::Private,
        }
    }

    /// The directory that a `..` leads to.
    pub fn parent(self) -> (r: Base)
        ensures
            r == self.above(),
    {
        match self {
            Base::Root => Base::Root,
            Base::Private => Base::Root,
            Base::PrivVar => Base::Private,
        }
    }
}

/// The remainder of `path` after `prefix`, when `prefix` names a whole leading
/// component sequence.
pub open spec fn rest_after(path: Seq<u8>, prefix: Seq<u8>) -> Option<Seq<u8>> {
    if prefix.is_prefix_of(path) && (path.len() == prefix.len() || path[prefix.len() as int]
        == SLASH) {
        Some(path.skip(prefix.len() as int))
    } else {
        None
    }
}

/// The remainder of `path` after `prefix`, when `prefix` names a whole leading
/// component sequence.
pub fn component_rest<'a>(path: &'a [u8], prefix: &[u8]) -> (r: Option<&'a [u8]>)
    ensures
        r is Some <==> rest_after(path@, prefix@) is Some,
        r matches Some(rest) ==> rest_after(path@, prefix@) == Some(rest@),
{
    if !starts_with(path, prefix) {
        return None;
    }
    if path.len() == prefix.len() || path[prefix.len()] == SLASH {
        Some(&path[prefix.len()..path.len()])
    } else {
        None
    }
}

/// A component that names a directory entry of its own.
pub open spec fn is_name(c: Seq<u8>) -> bool {
    c.len() > 0 && c != DOT@ && c != DOTDOT@
}

/// An absolute, normalized directory outside every host temp root, neither
/// shorter than [`MIN_ROOT_LEN`] nor longer than [`MAX_ROOT_LEN`].
pub open spec fn is_valid_root(root: Seq<u8>) -> bool {
    &&& MIN_ROOT_LEN <= root.len() <= MAX_ROOT_LEN
    &&& root[0] == SLASH
    &&& root.last() != SLASH
    &&& !root.contains(0u8)
    &&& forall|i: int|
        0 <= i < components_from(root, 1).len() ==> is_name(#[trigger] components_from(root, 1)[i])
    &&& rest_after(root, ROOT_PRIVATE_VAR_TMP@) is None
    &&& rest_after(root, ROOT_PRIVATE_TMP@) is None
    &&& rest_after(root, ROOT_VAR_TMP@) is None
    &&& rest_after(root, ROOT_TMP@) is None
}

/// Whether every component of `s` from `pos` on is a name.
fn all_names(s: &[u8], pos: usize) -> (r: bool)
    requires
        pos <= s@.len(),
    ensures
        r == (forall|i: int|
            0 <= i < components_from(s@, pos as int).len() ==> is_name(
                #[trigger] components_from(s@, pos as int)[i],
            )),
    decreases s@.len() - pos,
{
    let end = find_component_end(s, pos);
    let c = &s[pos..end];
    let ghost all = components_from(s@, pos as int);
    proof {
        assert(all[0] == c@);
    }
    if c.len() == 0 || equal(c, &DOT) || equal(c, &DOTDOT) {
        return false;
    }
    if end < s.len() {
        let rest = all_names(s, end + 1);
        proof {
            let tail = components_from(s@, end + 1);
            assert(forall|i: int| 1 <= i < all.len() ==> all[i] == tail[i - 1]);
            assert(forall|i: int| 0 <= i < tail.len() ==> tail[i] == #[trigger] all[i + 1]);
            if !rest {
                let i = choose|i: int| 0 <= i < tail.len() && !is_name(#[trigger] tail[i]);
                assert(!is_name(all[i + 1]));
            }
        }
        rest
    } else {
        true
    }
}

/// Whether `root` may serve as a workspace's temp root. The kernel resolves
/// physical paths component by component, so no prefix of the root may itself
/// be redirected.
pub fn valid_root(root: &[u8]) -> (r: bool)
    ensures
        r == is_valid_root(root@),
{
    if root.len() < MIN_ROOT_LEN || root.len() > MAX_ROOT_LEN {
        return false;
    }
    if root[0] != SLASH || root[root.len() - 1] == SLASH {
        return false;
    }
    let mut i: usize = 0;
    while i < root.len()
        invariant
            i <= root@.len(),
            forall|j: int| 0 <= j < i ==> root@[j] != 0,
        decreases root@.len() - i,
    {
        if root[i] == 0 {
            return false;
        }
        i = i + 1;
    }
    all_names(root, 1) && component_rest(root, &ROOT_PRIVATE_VAR_TMP).is_none() && component_rest(
        root,
        &ROOT_PRIVATE_TMP,
    ).is_none() && component_rest(root, &ROOT_VAR_TMP).is_none() && component_rest(
        root,
        &ROOT_TMP,
    ).is_none()
}

} // verus!
