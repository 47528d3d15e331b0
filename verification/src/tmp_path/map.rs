//! Host paths mapped to their World locations.
use vstd::prelude::*;
use crate::bytes::{copy_at, splice, SLASH};
use crate::sys::{path_max, too_long, too_many_links, Platform};
use crate::tmp_path::{Base, TempRoot, MIN_ROOT_LEN, PATH_ROOM, ROOT_TMP, ROOT_VAR_TMP};
use crate::tmp_path::scan::{dotdot_count, dotdots, lemma_read_from_bounds, read_path, scan_path, Outcome, Place, Reading, Scan};
use crate::tmp_path::unmap::{host_name_fits, lemma_host_name_length, reported_name, unmap_in_place};

verus! {

/// A path that the kernel reported, in a buffer of its own.
pub struct FullPath {
    bytes: [u8; PATH_ROOM],
    len: usize,
}

impl FullPath {
    #[verifier::type_invariant]
    spec fn within_buffer(self) -> bool {
        self.len <= PATH_ROOM
    }

    /// The path's text.
    pub closed spec fn text(self) -> Seq<u8> {
        self.bytes@.take(self.len as int)
    }

    /// Hold `text`, when it is no longer than the buffer.
    pub fn new(text: &[u8]) -> (r: Option<FullPath>)
        ensures
            r is Some <==> text@.len() <= PATH_ROOM,
            r matches Some(path) ==> path.text() == text@,
    {
        if text.len() > PATH_ROOM {
            return None;
        }
        let mut bytes = [0u8; PATH_ROOM];
        copy_at(&mut bytes, 0, text);
        proof {
            assert(bytes@.take(text@.len() as int) =~= text@);
        }
        Some(FullPath { bytes, len: text.len() })
    }

    /// The path's text.
    pub fn as_bytes(&self) -> (r: &[u8])
        ensures
            r@ == self.text(),
            r@.len() <= PATH_ROOM,
    {
        proof {
            use_type_invariant(self);
        }
        let r = &self.bytes[0..self.len];
        proof {
            assert(r@ =~= self.text());
        }
        r
    }
}

/// What a kernel may answer when it is asked where a physical,
/// NUL-terminated path leads: `kernel(path, answer)` holds of every answer
/// that it may give.
pub type Kernel = spec_fn(Seq<u8>, Result<Seq<u8>, i32>) -> bool;

/// The text of an answer.
pub open spec fn answer_text(answer: Result<FullPath, i32>) -> Result<Seq<u8>, i32> {
    match answer {
        Ok(path) => Ok(path.text()),
        Err(errno) => Err(errno),
    }
}

/// The kernel that `resolve` stands for.
pub open spec fn kernel_of<F: Fn(&[u8]) -> Result<FullPath, i32>>(resolve: F) -> Kernel {
    |path: Seq<u8>, answer: Result<Seq<u8>, i32>|
        exists|p: &[u8], a: Result<FullPath, i32>|
            p@ == path && answer_text(a) == answer && #[trigger] call_ensures(resolve, (p,), a)
}

/// What the text of a question starts with: the location of a temp root below
/// the workspace root, when the text lies below one.
pub open spec fn question_head(root: Seq<u8>, head: Option<TempRoot>) -> Seq<u8> {
    match head {
        Some(sub) => root + sub.below_root(),
        None => Seq::empty(),
    }
}

/// The physical path that the kernel is asked about: what precedes the `..` at
/// `at`. The final slash makes a name that is really a file fail, as it would
/// if the kernel had to descend into it.
pub open spec fn question(
    root: Seq<u8>,
    s: Seq<u8>,
    head: Option<TempRoot>,
    start: int,
    at: int,
) -> Seq<u8> {
    question_head(root, head) + s.subrange(start, at) + seq![SLASH, 0u8]
}

/// Where the last slash of `s` is, or -1.
pub open spec fn last_slash(s: Seq<u8>) -> int
    decreases s.len(),
{
    if s.len() == 0 {
        -1
    } else if s.last() == SLASH {
        s.len() - 1
    } else {
        last_slash(s.drop_last())
    }
}

/// The textual parent of an absolute path with no trailing slash. The parent
/// of `/` is `/`.
pub open spec fn parent_of(s: Seq<u8>) -> Seq<u8> {
    let i = last_slash(s);
    if i < 0 {
        seq![SLASH]
    } else if i == 0 {
        s.take(1)
    } else {
        s.take(i)
    }
}

/// `dir` and what follows it, with one slash between the two.
pub open spec fn joined(dir: Seq<u8>, rest: Seq<u8>) -> Seq<u8> {
    if dir == seq![SLASH] {
        dir + rest
    } else {
        dir.push(SLASH) + rest
    }
}

/// What follows the component that ends at `end`.
pub open spec fn after(s: Seq<u8>, end: int) -> Seq<u8> {
    if end < s.len() {
        s.skip(end + 1)
    } else {
        Seq::empty()
    }
}

/// `s` with everything up to the `..` that ends at `end` replaced by the
/// parent of what the kernel answered, under its host name. The answer may not
/// contain a `..` itself, and each rewriting has to leave fewer `..` than there
/// were.
pub open spec fn rewritten(
    platform: Platform,
    root: Seq<u8>,
    s: Seq<u8>,
    answer: Seq<u8>,
    end: int,
) -> Result<Seq<u8>, i32> {
    let next = joined(parent_of(reported_name(root, answer)), after(s, end));
    if dotdots(answer) > 0 {
        Err(too_many_links(platform))
    } else if next.len() >= path_max(platform) {
        Err(too_long(platform))
    } else if dotdots(next) >= dotdots(s) {
        Err(too_many_links(platform))
    } else {
        Ok(next)
    }
}

/// `text`, unless it leaves no room for a terminator in `cap` bytes.
pub open spec fn fitted(platform: Platform, text: Seq<u8>, cap: int) -> Result<
    Option<Seq<u8>>,
    i32,
> {
    if text.len() >= cap {
        Err(too_long(platform))
    } else {
        Ok(Some(text))
    }
}

/// The result for a path that was read to its end. Text that was rewritten on
/// the way out of a temp root has to be used in place of the one given.
pub open spec fn arrived(
    platform: Platform,
    root: Seq<u8>,
    s: Seq<u8>,
    place: Place,
    forced: bool,
    cap: int,
) -> Result<Option<Seq<u8>>, i32> {
    match place {
        Place::Temp { sub, start, .. } => fitted(
            platform,
            root + sub.below_root() + s.skip(start),
            cap,
        ),
        _ => if forced {
            fitted(platform, s, cap)
        } else {
            Ok(None)
        },
    }
}

/// Whether `result` is a World location of the absolute path `s` under
/// `kernel`, in a buffer of `cap` bytes: every `..` that needs the kernel is
/// asked about, and the scan starts again with the answer. `None` means that
/// the path is used unchanged.
pub open spec fn leads_to(
    platform: Platform,
    kernel: Kernel,
    root: Seq<u8>,
    s: Seq<u8>,
    forced: bool,
    cap: int,
    result: Result<Option<Seq<u8>>, i32>,
) -> bool
    decreases dotdots(s),
{
    match read_path(s) {
        Reading::Done(place) => result == arrived(platform, root, s, place, forced, cap),
        Reading::Ask { head, start, at, end } => {
            let q = question(root, s, head, start, at);
            if q.len() > cap {
                result == Err::<Option<Seq<u8>>, i32>(too_long(platform))
            } else {
                exists|answer: Result<Seq<u8>, i32>| #[trigger]
                    kernel(q, answer) && match answer {
                        Err(errno) => result == Err::<Option<Seq<u8>>, i32>(errno),
                        Ok(text) => match rewritten(platform, root, s, text, end) {
                            Err(errno) => result == Err::<Option<Seq<u8>>, i32>(errno),
                            Ok(next) => leads_to(
                                platform,
                                kernel,
                                root,
                                next,
                                forced || head is Some,
                                cap,
                                result,
                            ),
                        },
                    }
            }
        },
    }
}

/// Whether `result` is a World location of `path`. A relative path is left as
/// it is; so is an overlong one, which the kernel rejects as the caller wrote
/// it.
pub open spec fn maps_to(
    platform: Platform,
    kernel: Kernel,
    root: Seq<u8>,
    path: Seq<u8>,
    cap: int,
    result: Result<Option<Seq<u8>>, i32>,
) -> bool {
    if path.len() == 0 || path[0] != SLASH || path.len() >= path_max(platform) {
        result == Ok::<Option<Seq<u8>>, i32>(None)
    } else {
        leads_to(platform, kernel, root, path, false, cap, result)
    }
}

/// Whatever `narrow` may answer, `wide` may answer too.
pub open spec fn answers_within(narrow: Kernel, wide: Kernel) -> bool {
    forall|q: Seq<u8>, answer: Result<Seq<u8>, i32>| #[trigger]
        narrow(q, answer) ==> wide(q, answer)
}

proof fn lemma_leads_to_wider(
    platform: Platform,
    narrow: Kernel,
    wide: Kernel,
    root: Seq<u8>,
    s: Seq<u8>,
    forced: bool,
    cap: int,
    result: Result<Option<Seq<u8>>, i32>,
)
    requires
        answers_within(narrow, wide),
        leads_to(platform, narrow, root, s, forced, cap, result),
    ensures
        leads_to(platform, wide, root, s, forced, cap, result),
    decreases dotdots(s),
{
    if let Reading::Ask { head, start, at, end } = read_path(s) {
        let q = question(root, s, head, start, at);
        if q.len() <= cap {
            let answer = choose|answer: Result<Seq<u8>, i32>| #[trigger]
                narrow(q, answer) && match answer {
                    Err(errno) => result == Err::<Option<Seq<u8>>, i32>(errno),
                    Ok(text) => match rewritten(platform, root, s, text, end) {
                        Err(errno) => result == Err::<Option<Seq<u8>>, i32>(errno),
                        Ok(next) => leads_to(
                            platform,
                            narrow,
                            root,
                            next,
                            forced || head is Some,
                            cap,
                            result,
                        ),
                    },
                };
            assert(wide(q, answer));
            if let Ok(text) = answer {
                if let Ok(next) = rewritten(platform, root, s, text, end) {
                    lemma_leads_to_wider(
                        platform,
                        narrow,
                        wide,
                        root,
                        next,
                        forced || head is Some,
                        cap,
                        result,
                    );
                }
            }
        }
    }
}

/// A path leads where it leads when more answers may be given.
pub proof fn lemma_maps_to_wider(
    platform: Platform,
    narrow: Kernel,
    wide: Kernel,
    root: Seq<u8>,
    path: Seq<u8>,
    cap: int,
    result: Result<Option<Seq<u8>>, i32>,
)
    requires
        answers_within(narrow, wide),
        maps_to(platform, narrow, root, path, cap, result),
    ensures
        maps_to(platform, wide, root, path, cap, result),
{
    if path.len() > 0 && path[0] == SLASH && path.len() < path_max(platform) {
        lemma_leads_to_wider(platform, narrow, wide, root, path, false, cap, result);
    }
}

/// What a mapping left in the caller's buffer: the location, its length and a
/// terminator.
pub open spec fn written(out: Seq<u8>, r: Result<Option<usize>, i32>) -> Result<
    Option<Seq<u8>>,
    i32,
> {
    match r {
        Ok(Some(n)) => Ok(Some(out.take(n as int))),
        Ok(None) => Ok(None),
        Err(errno) => Err(errno),
    }
}

/// The location in the buffer is followed by a terminator.
pub open spec fn terminated(out: Seq<u8>, r: Result<Option<usize>, i32>) -> bool {
    r matches Ok(Some(n)) ==> n < out.len() && out[n as int] == 0
}

/// Whether a scan of `s` ends with a question: a `..` of it needs the kernel,
/// and what is asked fits a buffer of `cap` bytes.
pub open spec fn scan_asks(root: Seq<u8>, s: Seq<u8>, cap: int) -> bool {
    match read_path(s) {
        Reading::Done(_) => false,
        Reading::Ask { head, start, at, .. } => question(root, s, head, start, at).len() <= cap,
    }
}

/// Whether the kernel is asked about `path` at all. A relative path is left as
/// it is, and so is an overlong one.
pub open spec fn asks(platform: Platform, root: Seq<u8>, path: Seq<u8>, cap: int) -> bool {
    0 < path.len() < path_max(platform) && path[0] == SLASH && scan_asks(root, path, cap)
}

/// What a mapping leaves of the buffer besides the location and its
/// terminator: every byte behind them, or the whole buffer where no location
/// was written.
pub open spec fn kept(before: Seq<u8>, out: Seq<u8>, r: Result<Option<usize>, i32>) -> bool {
    match r {
        Ok(Some(n)) => out.skip(n + 1) == before.skip(n + 1),
        _ => out == before,
    }
}

/// Whether a mapping may return `r` for `path` and turn the buffer `before` into
/// `out`. Where no question is asked, only the location and its terminator are
/// written.
pub open spec fn maps_in(
    platform: Platform,
    kernel: Kernel,
    root: Seq<u8>,
    path: Seq<u8>,
    before: Seq<u8>,
    out: Seq<u8>,
    r: Result<Option<usize>, i32>,
) -> bool {
    &&& out.len() == before.len()
    &&& maps_to(platform, kernel, root, path, before.len() as int, written(out, r))
    &&& terminated(out, r)
    &&& !asks(platform, root, path, before.len() as int) ==> kept(before, out, r)
}

/// Every answer of the kernel still fits a path buffer under its host name.
/// That is so of every root of at least [`MIN_ROOT_LEN`] bytes.
pub open spec fn answers_fit<F: Fn(&[u8]) -> Result<FullPath, i32>>(
    root: Seq<u8>,
    resolve: F,
) -> bool {
    ||| root.len() >= MIN_ROOT_LEN
    ||| forall|p: &[u8], a: FullPath| #[trigger]
        call_ensures(resolve, (p,), Ok::<FullPath, i32>(a)) ==> host_name_fits(
            root,
            a.text(),
            PATH_ROOM as int,
        )
}

/// Where the last slash of `s` is.
fn find_last_slash(s: &[u8]) -> (r: Option<usize>)
    ensures
        match r {
            Some(i) => i < s@.len() && last_slash(s@) == i,
            None => last_slash(s@) == -1,
        },
{
    let mut len: usize = s.len();
    proof {
        assert(s@.take(len as int) =~= s@);
    }
    while len > 0
        invariant
            len <= s@.len(),
            last_slash(s@.take(len as int)) == last_slash(s@),
        decreases len,
    {
        proof {
            assert(s@.take(len as int).drop_last() =~= s@.take(len - 1));
        }
        if s[len - 1] == SLASH {
            return Some(len - 1);
        }
        len = len - 1;
    }
    None
}

/// `/`
const ROOT_DIR: [u8; 1] = [SLASH];

/// The textual parent of an absolute path with no trailing slash, as paths
/// that the kernel resolved are. The parent of `/` is `/`.
pub fn textual_parent<'a>(path: &'a [u8]) -> (r: &'a [u8])
    ensures
        r@ == parent_of(path@),
{
    match find_last_slash(path) {
        Some(0) => &path[0..1],
        Some(i) => &path[0..i],
        None => {
            proof {
                assert(ROOT_DIR@ =~= seq![SLASH]);
            }
            &ROOT_DIR
        },
    }
}

impl TempRoot {
    /// Its location below the workspace root.
    pub fn sub(self) -> (r: &'static [u8])
        ensures
            r@ == self.below_root(),
    {
        match self {
            TempRoot::Tmp => &ROOT_TMP,
            TempRoot::VarTmp => &ROOT_VAR_TMP,
        }
    }
}

/// Whether three lengths add up to less than `cap`.
fn sum_below(a: usize, b: usize, c: usize, cap: usize) -> (r: bool)
    ensures
        r == (a + b + c < cap),
{
    a < cap && b < cap - a && c < cap - a - b
}

/// Write `a`, `b` and `c` to the start of `out`, one after another.
fn write_parts(out: &mut [u8], a: &[u8], b: &[u8], c: &[u8])
    requires
        a@.len() + b@.len() + c@.len() <= old(out)@.len(),
    ensures
        final(out)@ == splice(old(out)@, 0, a@ + b@ + c@),
{
    let ghost before = out@;
    let total = out.len();
    copy_at(out, 0, a);
    copy_at(out, a.len(), b);
    copy_at(out, a.len() + b.len(), c);
    proof {
        assert(out@ =~= splice(before, 0, a@ + b@ + c@));
    }
}

/// Write the text `a`, `b`, `c` and a terminator, when they fit.
pub(crate) fn write_location(
    platform: Platform,
    out: &mut [u8],
    a: &[u8],
    b: &[u8],
    c: &[u8],
) -> (r: Result<Option<usize>, i32>)
    ensures
        final(out)@.len() == old(out)@.len(),
        written(final(out)@, r) == fitted(platform, a@ + b@ + c@, old(out)@.len() as int),
        terminated(final(out)@, r),
        kept(old(out)@, final(out)@, r),
{
    let ghost before = out@;
    if !sum_below(a.len(), b.len(), c.len(), out.len()) {
        return Err(too_long(platform));
    }
    write_parts(out, a, b, c);
    let n = a.len() + b.len() + c.len();
    out[n] = 0;
    proof {
        assert(out@.take(n as int) =~= a@ + b@ + c@);
        assert(out@.skip(n + 1) =~= before.skip(n + 1));
    }
    Ok(Some(n))
}

/// The text that a rewriting leaves: `answer` under its host name, its parent,
/// and what follows the `..` that ends at `end` in `s`.
fn rewrite(
    platform: Platform,
    root: &[u8],
    s: &[u8],
    answer: FullPath,
    end: usize,
) -> (r: Result<FullPath, i32>)
    requires
        end <= s@.len() < PATH_ROOM,
        host_name_fits(root@, answer.text(), PATH_ROOM as int),
    ensures
        answer_text(r) == rewritten(platform, root@, s@, answer.text(), end as int),
{
    proof {
        use_type_invariant(&answer);
    }
    let ghost text = answer.text();
    if dotdot_count(answer.as_bytes()) > 0 {
        return Err(too_many_links(platform));
    }
    let len = answer.len;
    let mut resolved = answer.bytes;
    let host_len = match unmap_in_place(root, &mut resolved, len) {
        Some(n) => n,
        None => len,
    };
    let host = &resolved[0..host_len];
    proof {
        assert(host@ =~= reported_name(root@, text));
    }
    let parent = textual_parent(host);
    let rest = if end < s.len() {
        &s[end + 1..s.len()]
    } else {
        &s[0..0]
    };
    proof {
        assert(rest@ =~= after(s@, end as int));
    }
    let top = parent.len() == 1 && parent[0] == SLASH;
    let slash = if top {
        &ROOT_DIR[0..0]
    } else {
        &ROOT_DIR[0..1]
    };
    let ghost next = joined(parent_of(host@), after(s@, end as int));
    proof {
        if top {
            assert(parent@ =~= seq![SLASH]);
        }
        assert(parent@ + slash@ + rest@ =~= next);
    }
    if !sum_below(parent.len(), slash.len(), rest.len(), path_max(platform)) {
        return Err(too_long(platform));
    }
    let mut bytes = [0u8; PATH_ROOM];
    write_parts(&mut bytes, parent, slash, rest);
    let n = parent.len() + slash.len() + rest.len();
    proof {
        assert(bytes@.take(n as int) =~= next);
    }
    if dotdot_count(&bytes[0..n]) >= dotdot_count(s) {
        return Err(too_many_links(platform));
    }
    Ok(FullPath { bytes, len: n })
}

/// One scan of an absolute path: the result, or the text to scan next and
/// whether that text has to be used in place of the one given.
enum Pass {
    Over(Result<Option<usize>, i32>),
    Again { next: FullPath, forced: bool },
}

/// Scan `s` once. When a `..` needs the kernel, the question is built in `out`.
fn map_pass<F: Fn(&[u8]) -> Result<FullPath, i32>>(
    platform: Platform,
    root: &[u8],
    s: &[u8],
    forced: bool,
    out: &mut [u8],
    resolve: &F,
) -> (r: Pass)
    requires
        s@.len() < PATH_ROOM,
        forall|p: &[u8]| call_requires(*resolve, (p,)),
        answers_fit(root@, *resolve),
    ensures
        final(out)@.len() == old(out)@.len(),
        match r {
            Pass::Over(result) => {
                &&& leads_to(
                    platform,
                    kernel_of(*resolve),
                    root@,
                    s@,
                    forced,
                    old(out)@.len() as int,
                    written(final(out)@, result),
                )
                &&& terminated(final(out)@, result)
                &&& !scan_asks(root@, s@, old(out)@.len() as int) ==> kept(
                    old(out)@,
                    final(out)@,
                    result,
                )
            },
            Pass::Again { next, forced: and_forced } => {
                &&& next.text().len() < PATH_ROOM
                &&& dotdots(next.text()) < dotdots(s@)
                &&& scan_asks(root@, s@, old(out)@.len() as int)
                &&& forall|result: Result<Option<Seq<u8>>, i32>|
                    leads_to(
                        platform,
                        kernel_of(*resolve),
                        root@,
                        next.text(),
                        and_forced,
                        old(out)@.len() as int,
                        result,
                    ) ==> #[trigger] leads_to(
                        platform,
                        kernel_of(*resolve),
                        root@,
                        s@,
                        forced,
                        old(out)@.len() as int,
                        result,
                    )
            },
        },
{
    let ghost kernel = kernel_of(*resolve);
    let ghost cap = out@.len() as int;
    proof {
        lemma_read_from_bounds(s@, Place::Base(Base::Root), 0);
    }
    match scan_path(s) {
        Outcome::Done(Scan::Temp { sub, start, .. }) => {
            Pass::Over(write_location(platform, out, root, sub.sub(), &s[start..s.len()]))
        },
        Outcome::Done(_) => {
            if !forced {
                return Pass::Over(Ok(None));
            }
            let r = write_location(platform, out, s, &s[0..0], &s[0..0]);
            proof {
                assert(s@ + s@.subrange(0, 0) + s@.subrange(0, 0) =~= s@);
            }
            Pass::Over(r)
        },
        Outcome::Ask { head, start, at, end } => {
            let prefix = &s[start..at];
            let (above, sub): (&[u8], &[u8]) = match head {
                Some(sub) => (root, sub.sub()),
                None => (&s[0..0], &s[0..0]),
            };
            let ghost text = above@ + sub@ + prefix@;
            let ghost q = question(root@, s@, head, start as int, at as int);
            proof {
                assert(above@ + sub@ =~= question_head(root@, head));
                assert(q =~= text + seq![SLASH, 0u8]);
            }
            // Room for the slash and the terminator.
            if out.len() < 2 || !sum_below(above.len(), sub.len(), prefix.len(), out.len() - 1) {
                return Pass::Over(Err(too_long(platform)));
            }
            write_parts(out, above, sub, prefix);
            let total = above.len() + sub.len() + prefix.len();
            out[total] = SLASH;
            out[total + 1] = 0;
            let asked = &out[0..total + 2];
            proof {
                assert(asked@ =~= q);
            }
            let reply = resolve(asked);
            proof {
                assert(kernel(q, answer_text(reply)));
            }
            match reply {
                Err(errno) => Pass::Over(Err(errno)),
                Ok(answer) => {
                    let ghost answered = answer.text();
                    proof {
                        use_type_invariant(&answer);
                        lemma_host_name_length(root@, answered);
                        assert(answered.len() <= PATH_ROOM);
                        assert(kernel(q, Ok(answered)));
                    }
                    match rewrite(platform, root, s, answer, end) {
                        Err(errno) => {
                            proof {
                                assert(kernel(q, Ok(answered)));
                            }
                            Pass::Over(Err(errno))
                        },
                        Ok(next) => {
                            proof {
                                assert(rewritten(platform, root@, s@, answered, end as int) == Ok::<
                                    Seq<u8>,
                                    i32,
                                >(next.text()));
                            }
                            Pass::Again { next, forced: forced || head.is_some() }
                        },
                    }
                },
            }
        },
    }
}

/// Write the World location for `path` into `out` as a NUL-terminated string.
/// Ok(None) means that the path is used unchanged. Only the leading components
/// decide redirection, as the kernel resolves them one at a time. Below a temp
/// root the remainder is normally copied verbatim: a `..` that may cross a
/// symlink is left for the kernel. But a `..` that leaves a temp root after a
/// name was read below it would have the caller's text walk the host's temp
/// root, not the redirected one. `resolve` is asked where the physical prefix
/// up to that `..` leads, and the scan starts again. It ends, as each rewriting
/// leaves fewer `..` than there were: a resolver whose answer contains `..` gets
/// `ELOOP`. The question is built in `out`; where none is asked, `out` changes
/// only by the location and its terminator.
pub fn map_with<F: Fn(&[u8]) -> Result<FullPath, i32>>(
    platform: Platform,
    root: &[u8],
    path: &[u8],
    out: &mut [u8],
    resolve: &F,
) -> (r: Result<Option<usize>, i32>)
    requires
        forall|p: &[u8]| call_requires(*resolve, (p,)),
        answers_fit(root@, *resolve),
    ensures
        maps_in(platform, kernel_of(*resolve), root@, path@, old(out)@, final(out)@, r),
{
    // An overlong path is rejected by the kernel as the caller wrote it.
    if path.len() == 0 || path[0] != SLASH || path.len() >= path_max(platform) {
        return Ok(None);
    }
    let ghost kernel = kernel_of(*resolve);
    let ghost cap = out@.len() as int;
    let mut cur = match FullPath::new(path) {
        Some(cur) => cur,
        None => {
            return Ok(None);
        },
    };
    let mut forced = false;
    loop
        invariant
            forall|p: &[u8]| call_requires(*resolve, (p,)),
            answers_fit(root@, *resolve),
            kernel == kernel_of(*resolve),
            out@.len() == cap,
            cap == old(out)@.len(),
            0 < path@.len() < path_max(platform),
            path@[0] == SLASH,
            cur.text().len() < PATH_ROOM,
            asks(platform, root@, path@, cap) || (cur.text() == path@ && out@ == old(out)@),
            forall|result: Result<Option<Seq<u8>>, i32>|
                leads_to(platform, kernel, root@, cur.text(), forced, cap, result)
                    ==> #[trigger] leads_to(
                    platform,
                    kernel,
                    root@,
                    path@,
                    false,
                    cap,
                    result,
                ),
        decreases dotdots(cur.text()),
    {
        match map_pass(platform, root, cur.as_bytes(), forced, out, resolve) {
            Pass::Over(result) => {
                return result;
            },
            Pass::Again { next, forced: and_forced } => {
                proof {
                    let before = cur.text();
                    assert forall|result: Result<Option<Seq<u8>>, i32>|
                        leads_to(
                        platform,
                        kernel,
                        root@,
                        next.text(),
                        and_forced,
                        cap,
                        result,
                    ) implies #[trigger] leads_to(platform, kernel, root@, path@, false, cap, result) by {
                        assert(leads_to(platform, kernel, root@, before, forced, cap, result));
                    }
                }
                cur = next;
                forced = and_forced;
            },
        }
    }
}

} // verus!
