//! Paths relative to a directory, and hosts that cannot be asked.
use vstd::prelude::*;
use crate::bytes::{components, copied, copy_at, equal, starts_with, SLASH};
use crate::sys::{
    path_max, this_directory, too_long, unsupported, Platform, EACCES, ENOENT, ENOTDIR,
};
use crate::tmp_path::{DOT, DOTDOT, MIN_ROOT_LEN, PATH_ROOM, PRIVATE, TMP, VAR};
use crate::tmp_path::map::{answer_text, answers_fit, answers_within, arrived, asks, fitted, joined, kept, kernel_of, last_slash, lemma_maps_to_wider, map_with, maps_in, maps_to, question, terminated, write_location, written, FullPath, Kernel};
use crate::tmp_path::scan::{first_real_component, first_real_from, has_component_from, read_path, Reading};
use crate::tmp_path::unmap::{host_name_fits, host_name_of, lemma_host_name_length, reported_name, unmap_in_place};

verus! {

/// `./`
pub const DOT_SLASH: [u8; 2] = [46, 47];

/// `../`
pub const DOTDOT_SLASH: [u8; 3] = [46, 46, 47];

/// Whether a relative path could land under a host temp root: it has a `..`,
/// or its first real component is `tmp`, `private` or `var`.
pub open spec fn needs_base(path: Seq<u8>) -> bool {
    let first = first_real_from(path, 0);
    components(path).contains(DOTDOT@) || first == TMP@ || first == PRIVATE@ || first == VAR@
}

/// `dir` without its last component, never crossing the leading slash.
pub open spec fn popped(dir: Seq<u8>) -> Seq<u8> {
    if dir.len() <= 1 {
        dir
    } else if last_slash(dir) <= 0 {
        dir.take(1)
    } else {
        dir.take(last_slash(dir))
    }
}

/// `dir` and `path` after the leading `.` and `..` components of `path` were
/// resolved textually against `dir`.
pub open spec fn descend(dir: Seq<u8>, path: Seq<u8>) -> (Seq<u8>, Seq<u8>)
    decreases path.len(),
{
    if path == DOT@ {
        (dir, Seq::empty())
    } else if path == DOTDOT@ {
        (popped(dir), Seq::empty())
    } else if DOT_SLASH@.is_prefix_of(path) {
        descend(dir, path.skip(2))
    } else if DOTDOT_SLASH@.is_prefix_of(path) {
        descend(popped(dir), path.skip(3))
    } else {
        (dir, path)
    }
}

/// The absolute text that `path` names from `dir`.
pub open spec fn below_dir(dir: Seq<u8>, path: Seq<u8>) -> Seq<u8> {
    let (above, rest) = descend(dir, path);
    if rest.len() == 0 {
        above
    } else {
        joined(above, rest)
    }
}

/// Whether a mapping may return `r` for the relative `path`, which starts from
/// the physical directory `dir`, and turn the buffer `before` into `out`. A
/// `dir` below the workspace root goes by its host name, so that a `..` lands
/// on the reported parent; then the absolute text is used even where it is not
/// redirected. Too long a text is an error, and leaves the buffer alone.
pub open spec fn maps_from(
    platform: Platform,
    kernel: Kernel,
    root: Seq<u8>,
    dir: Seq<u8>,
    path: Seq<u8>,
    before: Seq<u8>,
    out: Seq<u8>,
    r: Result<Option<usize>, i32>,
) -> bool {
    let cap = before.len() as int;
    let full = below_dir(reported_name(root, dir), path);
    if dir.len() >= path_max(platform) || (descend(reported_name(root, dir), path).1.len() > 0
        && full.len() >= path_max(platform)) {
        r == Err::<Option<usize>, i32>(too_long(platform)) && out == before
    } else if host_name_of(root, dir) is Some {
        &&& exists|inner: Result<Option<Seq<u8>>, i32>| #[trigger]
            maps_to(platform, kernel, root, full, cap, inner) && written(out, r) == (if inner
                == Ok::<Option<Seq<u8>>, i32>(None) {
                fitted(platform, full, cap)
            } else {
                inner
            })
        &&& !asks(platform, root, full, cap) ==> kept(before, out, r)
    } else {
        maps_in(platform, kernel, root, full, before, out, r)
    }
}

/// Whether a mapping may return `r` for `path`, which starts from the directory
/// that `base` gives, and turn the buffer `before` into `out`. An absolute path
/// ignores `base`; a relative one that cannot land under a temp root is used
/// unchanged, and `base` is not called for it.
pub open spec fn maps_at_to(
    platform: Platform,
    kernel: Kernel,
    base: spec_fn(Result<Seq<u8>, i32>) -> bool,
    root: Seq<u8>,
    path: Seq<u8>,
    before: Seq<u8>,
    out: Seq<u8>,
    r: Result<Option<usize>, i32>,
) -> bool {
    if path.len() > 0 && path[0] == SLASH {
        maps_in(platform, kernel, root, path, before, out, r)
    } else if !needs_base(path) {
        r == Ok::<Option<usize>, i32>(None) && out == before
    } else {
        exists|answer: Result<Seq<u8>, i32>| #[trigger]
            base(answer) && match answer {
                Err(errno) => r == Err::<Option<usize>, i32>(errno) && out == before,
                Ok(dir) => maps_from(platform, kernel, root, dir, path, before, out, r),
            }
    }
}

/// The answers that `base` may give.
pub open spec fn base_of<B: FnOnce() -> Result<FullPath, i32>>(base: B) -> spec_fn(
    Result<Seq<u8>, i32>,
) -> bool {
    |answer: Result<Seq<u8>, i32>|
        exists|a: Result<FullPath, i32>|
            answer_text(a) == answer && #[trigger] call_ensures(base, (), a)
}

/// The directory that `base` gives still fits a path buffer under its host
/// name. That is so of every root of at least [`MIN_ROOT_LEN`] bytes.
pub open spec fn base_fits<B: FnOnce() -> Result<FullPath, i32>>(root: Seq<u8>, base: B) -> bool {
    ||| root.len() >= MIN_ROOT_LEN
    ||| forall|a: FullPath| #[trigger]
        call_ensures(base, (), Ok::<FullPath, i32>(a)) ==> host_name_fits(
            root,
            a.text(),
            PATH_ROOM as int,
        )
}

/// Remove the last component of `dir[..len]`, never crossing the leading slash.
/// Returns the length that is left.
pub fn pop_component(dir: &[u8], len: usize) -> (r: usize)
    requires
        len <= dir@.len(),
    ensures
        r <= len,
        dir@.take(r as int) == popped(dir@.take(len as int)),
{
    let ghost text = dir@.take(len as int);
    let mut r: usize = len;
    while r > 1 && dir[r - 1] != SLASH
        invariant
            r <= len <= dir@.len(),
            text == dir@.take(len as int),
            len > 1 ==> r >= 1,
            len <= 1 ==> r == len,
            last_slash(dir@.take(r as int)) == last_slash(text),
        decreases r,
    {
        proof {
            assert(dir@.take(r as int).drop_last() =~= dir@.take(r - 1));
        }
        r = r - 1;
    }
    proof {
        let top = dir@.take(r as int);
        if r > 1 {
            assert(last_slash(top) == r - 1);
        } else if r == 1 {
            assert(top.drop_last() =~= Seq::<u8>::empty());
            reveal_with_fuel(last_slash, 2);
        }
    }
    if r > 1 {
        r = r - 1;
    }
    proof {
        assert(dir@.take(r as int) =~= popped(text));
    }
    r
}

/// `dir[..len]` and `path` after the leading `.` and `..` components of `path`
/// were resolved textually.
fn resolve_leading<'a>(dir: &[u8], len: usize, path: &'a [u8]) -> (r: (usize, &'a [u8]))
    requires
        len <= dir@.len(),
    ensures
        r.0 <= len,
        descend(dir@.take(len as int), path@) == (dir@.take(r.0 as int), r.1@),
{
    let mut left: usize = len;
    let mut rest = path;
    loop
        invariant_except_break
            left <= len <= dir@.len(),
            descend(dir@.take(left as int), rest@) == descend(dir@.take(len as int), path@),
        ensures
            left <= len <= dir@.len(),
            descend(dir@.take(len as int), path@) == (dir@.take(left as int), rest@),
        decreases rest@.len(),
    {
        if equal(rest, &DOT) {
            rest = &rest[0..0];
            break;
        }
        if equal(rest, &DOTDOT) {
            left = pop_component(dir, left);
            rest = &rest[0..0];
            break;
        }
        if starts_with(rest, &DOT_SLASH) {
            rest = &rest[2..rest.len()];
        } else if starts_with(rest, &DOTDOT_SLASH) {
            left = pop_component(dir, left);
            rest = &rest[3..rest.len()];
        } else {
            break;
        }
    }
    (left, rest)
}

/// Append `rest` to `buf[..len]`, with one slash between the two. Returns the
/// new length, unless it reaches `max`.
fn append_rest(buf: &mut [u8], len: usize, rest: &[u8], max: usize) -> (r: Option<usize>)
    requires
        len <= old(buf)@.len(),
        1 <= max <= old(buf)@.len(),
        rest@.len() > 0,
    ensures
        final(buf)@.len() == old(buf)@.len(),
        r is Some <==> joined(old(buf)@.take(len as int), rest@).len() < max,
        r matches Some(n) ==> n < max && final(buf)@.take(n as int) == joined(
            old(buf)@.take(len as int),
            rest@,
        ),
{
    let ghost above = buf@.take(len as int);
    let top = len == 1 && buf[0] == SLASH;
    proof {
        if top {
            assert(above =~= seq![SLASH]);
        } else if above == seq![SLASH] {
            assert(above.len() == 1 && above[0] == SLASH);
        }
    }
    let mut end: usize = len;
    if !top {
        if len >= max {
            return None;
        }
        buf[len] = SLASH;
        end = len + 1;
        proof {
            assert(buf@.take(end as int) =~= above.push(SLASH));
        }
    }
    if rest.len() >= max - end {
        return None;
    }
    let ghost below = buf@.take(end as int);
    copy_at(buf, end, rest);
    proof {
        assert(buf@.take(end + rest@.len()) =~= below + rest@);
    }
    Some(end + rest.len())
}

/// The absolute text of the relative `path`, which starts from the physical
/// directory `dir`, and whether `dir` lies below the workspace root. None means
/// that the text is too long.
fn absolute_text(platform: Platform, root: &[u8], dir: &FullPath, path: &[u8]) -> (r: Option<
    (FullPath, bool),
>)
    requires
        root@.len() >= MIN_ROOT_LEN || host_name_fits(root@, dir.text(), PATH_ROOM as int),
    ensures
        ({
            let host = reported_name(root@, dir.text());
            let full = below_dir(host, path@);
            if dir.text().len() >= path_max(platform) || (descend(host, path@).1.len() > 0
                && full.len() >= path_max(platform)) {
                r is None
            } else {
                r is Some && r->Some_0.0.text() == full && r->Some_0.1 == (host_name_of(
                    root@,
                    dir.text(),
                ) is Some)
            }
        }),
{
    let physical = dir.as_bytes();
    if physical.len() >= path_max(platform) {
        return None;
    }
    proof {
        lemma_host_name_length(root@, physical@);
    }
    let mut buf = [0u8; PATH_ROOM];
    copy_at(&mut buf, 0, physical);
    proof {
        assert(buf@.take(physical@.len() as int) =~= physical@);
    }
    let (under_root, reported): (bool, usize) = match unmap_in_place(
        root,
        &mut buf,
        physical.len(),
    ) {
        Some(n) => (true, n),
        None => (false, physical.len()),
    };
    proof {
        assert(buf@.take(reported as int) =~= reported_name(root@, physical@));
    }
    let (above, rest) = resolve_leading(&buf, reported, path);
    let len = if rest.len() > 0 {
        match append_rest(&mut buf, above, rest, path_max(platform)) {
            Some(n) => n,
            None => return None,
        }
    } else {
        above
    };
    let text = &buf[0..len];
    proof {
        assert(text@ =~= buf@.take(len as int));
    }
    match FullPath::new(text) {
        Some(full) => Some((full, under_root)),
        None => None,
    }
}

/// Write the World location for the relative `path`, which starts from the
/// physical directory `dir`.
fn map_from<F: Fn(&[u8]) -> Result<FullPath, i32>>(
    platform: Platform,
    root: &[u8],
    dir: &FullPath,
    path: &[u8],
    out: &mut [u8],
    resolve: &F,
) -> (r: Result<Option<usize>, i32>)
    requires
        root@.len() >= MIN_ROOT_LEN || host_name_fits(root@, dir.text(), PATH_ROOM as int),
        forall|p: &[u8]| call_requires(*resolve, (p,)),
        answers_fit(root@, *resolve),
    ensures
        final(out)@.len() == old(out)@.len(),
        maps_from(
            platform,
            kernel_of(*resolve),
            root@,
            dir.text(),
            path@,
            old(out)@,
            final(out)@,
            r,
        ),
        terminated(final(out)@, r),
{
    let (full, under_root) = match absolute_text(platform, root, dir, path) {
        Some(found) => found,
        None => return Err(too_long(platform)),
    };
    let text = full.as_bytes();
    let r = map_with(platform, root, text, out, resolve);
    match r {
        Ok(None) => if under_root {
            let r = write_location(platform, out, text, &text[0..0], &text[0..0]);
            proof {
                assert(text@ + text@.subrange(0, 0) + text@.subrange(0, 0) =~= text@);
            }
            r
        } else {
            r
        },
        _ => r,
    }
}

/// Write the World location for `path` into `out` as a NUL-terminated string,
/// where a relative `path` starts from the physical directory `base`. Only the
/// leading `.` and `..` components of `path` are resolved against `base`: a
/// `..` deeper in `path` is left for the scan of the joined text. If `base`
/// fails, its error is returned and `out` is left alone; the relative path is
/// never passed through unmapped.
pub fn map_at_with<
    B: FnOnce() -> Result<FullPath, i32>,
    F: Fn(&[u8]) -> Result<FullPath, i32>,
>(
    platform: Platform,
    root: &[u8],
    path: &[u8],
    out: &mut [u8],
    base: B,
    resolve: &F,
) -> (r: Result<Option<usize>, i32>)
    requires
        call_requires(base, ()),
        base_fits(root@, base),
        forall|p: &[u8]| call_requires(*resolve, (p,)),
        answers_fit(root@, *resolve),
    ensures
        final(out)@.len() == old(out)@.len(),
        maps_at_to(
            platform,
            kernel_of(*resolve),
            base_of(base),
            root@,
            path@,
            old(out)@,
            final(out)@,
            r,
        ),
        terminated(final(out)@, r),
{
    if path.len() > 0 && path[0] == SLASH {
        return map_with(platform, root, path, out, resolve);
    }
    if !has_component_from(path, 0, &DOTDOT) {
        let first = first_real_component(path);
        if !equal(first, &TMP) && !equal(first, &PRIVATE) && !equal(first, &VAR) {
            return Ok(None);
        }
    }
    let ghost kernel = kernel_of(*resolve);
    let ghost bases = base_of(base);
    let ghost cap = out@.len() as int;
    let reply = base();
    proof {
        assert(bases(answer_text(reply)));
    }
    let answer = match reply {
        Ok(answer) => answer,
        Err(errno) => {
            return Err(errno);
        },
    };
    let ghost dir = answer.text();
    proof {
        assert(bases(Ok(dir)));
    }
    map_from(platform, root, &answer, path, out, resolve)
}

/// The World location of `path` where the kernel cannot be asked: `unanswered`
/// is the result for a path with a `..` that only the kernel can resolve.
pub open spec fn lexical_location(
    platform: Platform,
    root: Seq<u8>,
    path: Seq<u8>,
    cap: int,
    unanswered: Result<Option<Seq<u8>>, i32>,
) -> Result<Option<Seq<u8>>, i32> {
    if path.len() == 0 || path[0] != SLASH || path.len() >= path_max(platform) {
        Ok(None)
    } else {
        match read_path(path) {
            Reading::Done(place) => arrived(platform, root, path, place, false, cap),
            Reading::Ask { head, start, at, end } => if question(root, path, head, start, at).len()
                > cap {
                Err(too_long(platform))
            } else {
                unanswered
            },
        }
    }
}

/// What mapping `path` without the kernel returns as `r`, and turns the buffer
/// `before` into.
pub open spec fn maps_lexically(
    platform: Platform,
    root: Seq<u8>,
    path: Seq<u8>,
    unanswered: Result<Option<Seq<u8>>, i32>,
    before: Seq<u8>,
    out: Seq<u8>,
    r: Result<Option<usize>, i32>,
) -> bool {
    &&& out.len() == before.len()
    &&& written(out, r) == lexical_location(platform, root, path, before.len() as int, unanswered)
    &&& terminated(out, r)
    &&& !asks(platform, root, path, before.len() as int) ==> kept(before, out, r)
}

/// What a host may answer about a terminated path that starts from `fd`: on
/// macOS, what `ask` answers; a host without `getattrlistat` cannot tell.
pub open spec fn host_answers<A: Fn(i32, &[u8]) -> Result<FullPath, i32>>(
    platform: Platform,
    ask: &A,
    fd: i32,
) -> Kernel {
    |path: Seq<u8>, answer: Result<Seq<u8>, i32>|
        if platform is Mac {
            exists|p: &[u8], a: Result<FullPath, i32>|
                p@ == path && answer_text(a) == answer && #[trigger] call_ensures(*ask, (fd, p), a)
        } else {
            answer == Err::<Seq<u8>, i32>(unsupported(platform))
        }
}

/// A host that is asked can be asked about the path `p` that starts from `fd`.
pub open spec fn may_ask<A: Fn(i32, &[u8]) -> Result<FullPath, i32>>(
    platform: Platform,
    ask: &A,
    fd: i32,
    p: &[u8],
) -> bool {
    platform is Mac ==> call_requires(*ask, (fd, p))
}

/// What a host answers about the path `p` that starts from `fd`.
pub open spec fn answered<A: Fn(i32, &[u8]) -> Result<FullPath, i32>>(
    platform: Platform,
    ask: &A,
    fd: i32,
    p: &[u8],
    r: Result<FullPath, i32>,
) -> bool {
    if platform is Mac {
        call_ensures(*ask, (fd, p), r)
    } else {
        r == Err::<FullPath, i32>(unsupported(platform))
    }
}

/// A host that is asked can be asked about every path that starts from `fd`, and
/// every answer of it still fits a path buffer under its host name. The latter
/// is so of every root of at least [`MIN_ROOT_LEN`] bytes.
pub open spec fn host_fits<A: Fn(i32, &[u8]) -> Result<FullPath, i32>>(
    platform: Platform,
    root: Seq<u8>,
    ask: &A,
    fd: i32,
) -> bool {
    &&& forall|p: &[u8]| #[trigger] may_ask(platform, ask, fd, p)
    &&& root.len() >= MIN_ROOT_LEN || forall|p: &[u8], a: FullPath| #[trigger]
        answered(platform, ask, fd, p, Ok::<FullPath, i32>(a)) ==> host_name_fits(
            root,
            a.text(),
            PATH_ROOM as int,
        )
}

/// A name that a host answers fits where every answer of it does.
proof fn lemma_answer_fits<A: Fn(i32, &[u8]) -> Result<FullPath, i32>>(
    platform: Platform,
    root: Seq<u8>,
    ask: &A,
    fd: i32,
    name: Seq<u8>,
)
    requires
        host_fits(platform, root, ask, fd),
        root.len() < MIN_ROOT_LEN,
        host_answers(platform, ask, fd)(THIS_DIR@, Ok(name)),
    ensures
        host_name_fits(root, name, PATH_ROOM as int),
{
    let (p, a) = choose|p: &[u8], a: Result<FullPath, i32>|
        p@ == THIS_DIR@ && answer_text(a) == Ok::<Seq<u8>, i32>(name) && #[trigger] call_ensures(
            *ask,
            (fd, p),
            a,
        );
    let path = a->Ok_0;
    assert(answered(platform, ask, fd, p, Ok::<FullPath, i32>(path)));
}

/// Ask the kernel where a physical, terminated path leads. `fd` is a directory
/// to resolve `path` against, and `ask` makes the call on a host that has it.
pub fn kernel_full_path_at<A: Fn(i32, &[u8]) -> Result<FullPath, i32>>(
    platform: Platform,
    ask: &A,
    fd: i32,
    path: &[u8],
) -> (r: Result<FullPath, i32>)
    requires
        may_ask(platform, ask, fd, path),
    ensures
        answered(platform, ask, fd, path, r),
{
    match platform {
        Platform::Mac => ask(fd, path),
        _ => Err(unsupported(platform)),
    }
}

/// Ask the kernel where an absolute path leads.
pub fn kernel_full_path<A: Fn(i32, &[u8]) -> Result<FullPath, i32>>(
    platform: Platform,
    ask: &A,
    path: &[u8],
) -> (r: Result<FullPath, i32>)
    requires
        may_ask(platform, ask, this_directory(platform), path),
    ensures
        answered(platform, ask, this_directory(platform), path, r),
{
    kernel_full_path_at(platform, ask, this_directory(platform), path)
}

/// `./`, terminated.
pub const THIS_DIR: [u8; 3] = [46, 47, 0];

/// Ask the kernel for the physical, absolute name of `dirfd`.
pub fn real_base<A: Fn(i32, &[u8]) -> Result<FullPath, i32>>(
    platform: Platform,
    ask: &A,
    dirfd: i32,
) -> (r: Result<FullPath, i32>)
    requires
        forall|p: &[u8]| #[trigger] may_ask(platform, ask, dirfd, p),
    ensures
        host_answers(platform, ask, dirfd)(THIS_DIR@, answer_text(r)),
{
    let r = kernel_full_path_at(platform, ask, dirfd, &THIS_DIR);
    proof {
        if platform is Mac {
            assert(call_ensures(*ask, (dirfd, &THIS_DIR), r));
        }
    }
    r
}

/// Write the World location for `path` into `out` as a NUL-terminated string.
/// Ok(None) means that the path is used unchanged. The host's kernel is asked
/// about a `..` that follows a name; `ask` makes the call on a host that has it.
pub fn map<A: Fn(i32, &[u8]) -> Result<FullPath, i32>>(
    platform: Platform,
    root: &[u8],
    path: &[u8],
    out: &mut [u8],
    ask: &A,
) -> (r: Result<Option<usize>, i32>)
    requires
        host_fits(platform, root@, ask, this_directory(platform)),
    ensures
        maps_in(
            platform,
            host_answers(platform, ask, this_directory(platform)),
            root@,
            path@,
            old(out)@,
            final(out)@,
            r,
        ),
        !(platform is Mac) ==> maps_lexically(
            platform,
            root@,
            path@,
            Err(unsupported(platform)),
            old(out)@,
            final(out)@,
            r,
        ),
{
    let resolve = |p: &[u8]| -> (r: Result<FullPath, i32>)
        requires
            may_ask(platform, ask, this_directory(platform), p),
        ensures
            answered(platform, ask, this_directory(platform), p, r),
        { kernel_full_path(platform, ask, p) };
    let ghost narrow = kernel_of(resolve);
    let ghost wide = host_answers(platform, ask, this_directory(platform));
    let ghost cap = out@.len() as int;
    let r = map_with(platform, root, path, out, &resolve);
    proof {
        assert(answers_within(narrow, wide));
        lemma_maps_to_wider(platform, narrow, wide, root@, path@, cap, written(out@, r));
    }
    r
}

/// Never a real errno.
pub const UNRESOLVED: i32 = -1;

/// Map a symlink target: purely lexical. A target whose decision would need
/// the kernel (a `..` escaping a temp root, or popping a name before `tmp`) is
/// stored verbatim; it resolves at lookup time, possibly dangling.
pub fn map_target(platform: Platform, root: &[u8], target: &[u8], out: &mut [u8]) -> (r: Result<
    Option<usize>,
    i32,
>)
    ensures
        maps_lexically(platform, root@, target@, Ok(None), old(out)@, final(out)@, r),
{
    let unresolved = |_path: &[u8]| -> (r: Result<FullPath, i32>)
        ensures
            r == Err::<FullPath, i32>(UNRESOLVED),
        { Err(UNRESOLVED) };
    match map_with(platform, root, target, out, &unresolved) {
        Err(errno) => if errno == UNRESOLVED {
            Ok(None)
        } else {
            Err(errno)
        },
        r => r,
    }
}

/// What stands for a location in memory of its own: its text, or `path` where it
/// is used unchanged.
pub open spec fn returned_for(
    path: Seq<u8>,
    location: Result<Option<Seq<u8>>, i32>,
    r: Result<Vec<u8>, i32>,
) -> bool {
    match location {
        Ok(Some(text)) => r is Ok && r->Ok_0@ == text,
        Ok(None) => r is Ok && r->Ok_0@ == path,
        Err(errno) => r == Err::<Vec<u8>, i32>(errno),
    }
}

/// A path leads from a directory where it leads when more answers may be given.
proof fn lemma_maps_at_wider(
    platform: Platform,
    narrow: Kernel,
    wide: Kernel,
    bases: spec_fn(Result<Seq<u8>, i32>) -> bool,
    more: spec_fn(Result<Seq<u8>, i32>) -> bool,
    root: Seq<u8>,
    path: Seq<u8>,
    before: Seq<u8>,
    out: Seq<u8>,
    r: Result<Option<usize>, i32>,
)
    requires
        answers_within(narrow, wide),
        forall|a: Result<Seq<u8>, i32>| #[trigger] bases(a) ==> more(a),
        maps_at_to(platform, narrow, bases, root, path, before, out, r),
    ensures
        maps_at_to(platform, wide, more, root, path, before, out, r),
{
    let cap = before.len() as int;
    if path.len() > 0 && path[0] == SLASH {
        lemma_maps_to_wider(platform, narrow, wide, root, path, cap, written(out, r));
    } else if needs_base(path) {
        let answer = choose|answer: Result<Seq<u8>, i32>| #[trigger]
            bases(answer) && match answer {
                Err(errno) => r == Err::<Option<usize>, i32>(errno) && out == before,
                Ok(dir) => maps_from(platform, narrow, root, dir, path, before, out, r),
            };
        assert(more(answer));
        if let Ok(dir) = answer {
            let full = below_dir(reported_name(root, dir), path);
            if maps_to(platform, narrow, root, full, cap, written(out, r)) {
                lemma_maps_to_wider(platform, narrow, wide, root, full, cap, written(out, r));
            }
            if maps_to(platform, narrow, root, full, cap, Ok(None)) {
                lemma_maps_to_wider(platform, narrow, wide, root, full, cap, Ok(None));
            }
            assert(maps_from(platform, wide, root, dir, path, before, out, r));
        }
    }
}

/// Write the World location for a `dirfd`-relative `path` into `out`, as `map`
/// does for an absolute one. If the directory's name cannot be had, that error
/// is returned; the relative path is never passed through unmapped.
pub fn map_at<A: Fn(i32, &[u8]) -> Result<FullPath, i32>>(
    platform: Platform,
    root: &[u8],
    dirfd: i32,
    path: &[u8],
    out: &mut [u8],
    ask: &A,
) -> (r: Result<Option<usize>, i32>)
    requires
        host_fits(platform, root@, ask, this_directory(platform)),
        host_fits(platform, root@, ask, dirfd),
    ensures
        final(out)@.len() == old(out)@.len(),
        maps_at_to(
            platform,
            host_answers(platform, ask, this_directory(platform)),
            |answer: Result<Seq<u8>, i32>|
                host_answers(platform, ask, dirfd)(THIS_DIR@, answer),
            root@,
            path@,
            old(out)@,
            final(out)@,
            r,
        ),
        terminated(final(out)@, r),
        !(platform is Mac) ==> written(final(out)@, r) == if path@.len() > 0 && path@[0] == SLASH {
            lexical_location(
                platform,
                root@,
                path@,
                old(out)@.len() as int,
                Err(unsupported(platform)),
            )
        } else if needs_base(path@) {
            Err(unsupported(platform))
        } else {
            Ok(None)
        },
{
    let resolve = |p: &[u8]| -> (r: Result<FullPath, i32>)
        requires
            may_ask(platform, ask, this_directory(platform), p),
        ensures
            answered(platform, ask, this_directory(platform), p, r),
        { kernel_full_path(platform, ask, p) };
    let base = || -> (r: Result<FullPath, i32>)
        requires
            forall|p: &[u8]| #[trigger] may_ask(platform, ask, dirfd, p),
        ensures
            host_answers(platform, ask, dirfd)(THIS_DIR@, answer_text(r)),
        { real_base(platform, ask, dirfd) };
    let ghost narrow = kernel_of(resolve);
    let ghost wide = host_answers(platform, ask, this_directory(platform));
    let ghost bases = base_of(base);
    let ghost before = out@;
    proof {
        if root@.len() < MIN_ROOT_LEN {
            assert forall|a: FullPath| #[trigger]
                call_ensures(base, (), Ok::<FullPath, i32>(a)) implies host_name_fits(
                root@,
                a.text(),
                PATH_ROOM as int,
            ) by {
                lemma_answer_fits(platform, root@, ask, dirfd, a.text());
            }
        }
    }
    let r = map_at_with(platform, root, path, out, base, &resolve);
    proof {
        assert(answers_within(narrow, wide));
        let named = |answer: Result<Seq<u8>, i32>|
            host_answers(platform, ask, dirfd)(THIS_DIR@, answer);
        lemma_maps_at_wider(
            platform,
            narrow,
            wide,
            bases,
            named,
            root@,
            path@,
            before,
            out@,
            r,
        );
    }
    r
}

/// Errors from mapping or resolving a PATH candidate that just mean "this entry
/// does not exist", so that the search should move on to the next one.
pub fn skippable(errno: i32) -> (r: bool)
    ensures
        r == (errno == ENOENT || errno == ENOTDIR || errno == EACCES),
{
    errno == ENOENT || errno == ENOTDIR || errno == EACCES
}

/// Allocating form of `map`. Returns `path` unchanged when it is not below a
/// host temp root.
pub fn map_under<A: Fn(i32, &[u8]) -> Result<FullPath, i32>>(
    platform: Platform,
    root: &[u8],
    path: &[u8],
    ask: &A,
) -> (r: Result<Vec<u8>, i32>)
    requires
        host_fits(platform, root@, ask, this_directory(platform)),
    ensures
        exists|location: Result<Option<Seq<u8>>, i32>| #[trigger]
            maps_to(
                platform,
                host_answers(platform, ask, this_directory(platform)),
                root@,
                path@,
                path_max(platform) as int,
                location,
            ) && returned_for(path@, location, r),
        !(platform is Mac) ==> returned_for(
            path@,
            lexical_location(
                platform,
                root@,
                path@,
                path_max(platform) as int,
                Err(unsupported(platform)),
            ),
            r,
        ),
{
    let mut room = [0u8; PATH_ROOM];
    let all: &mut [u8] = &mut room;
    let (buf, _rest) = all.split_at_mut(path_max(platform));
    let result = map(platform, root, path, buf, ask);
    proof {
        assert(maps_to(
            platform,
            host_answers(platform, ask, this_directory(platform)),
            root@,
            path@,
            path_max(platform) as int,
            written(buf@, result),
        ));
    }
    match result {
        Ok(Some(len)) => {
            let text = &buf[0..len];
            proof {
                assert(text@ =~= buf@.take(len as int));
            }
            Ok(copied(text))
        },
        Ok(None) => Ok(copied(path)),
        Err(errno) => Err(errno),
    }
}

} // verus!
