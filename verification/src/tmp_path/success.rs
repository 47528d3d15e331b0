//! When mapping succeeds.
use vstd::prelude::*;
use crate::bytes::{component_end, components, lemma_component_end, lemma_component_end_is, SLASH};
use crate::sys::{path_max, Platform};
use crate::tmp_path::{is_name, Base, TempRoot, DOT, DOTDOT, ROOT_TMP, ROOT_VAR_TMP};
use crate::tmp_path::host::{is_stack, lemma_components_single, lemma_components_split, lemma_parent_of_slashed, lemma_slashed_components, slash_free, slashed};
use crate::tmp_path::laws::{lemma_dotdot_read, lemma_joined_dotdots, lemma_last_slash_parts, lemma_parent_dotdots, lemma_reported_dotdots};
use crate::tmp_path::map::{after, fitted, joined, leads_to, maps_to, parent_of, question, rewritten, written, Kernel};
use crate::tmp_path::map_at::{below_dir, descend, maps_from, popped, DOTDOT_SLASH, DOT_SLASH};
use crate::tmp_path::scan::{count_dotdots, dotdots, lemma_read_from_bounds, move_by, read_from, read_path, tmp_after, Move, Place, Reading};
use crate::tmp_path::unmap::{host_name_of, lemma_host_name_length, reported_name};

verus! {

/// A component that is asked about begins the path or follows a slash.
proof fn lemma_asked_after_slash(s: Seq<u8>, place: Place, pos: int)
    requires
        0 <= pos <= s.len(),
        pos > 0 ==> s[pos - 1] == SLASH,
    ensures
        read_from(s, place, pos) matches Reading::Ask { at, .. } ==> (at > 0 ==> s[at - 1]
            == SLASH),
    decreases s.len() - pos,
{
    lemma_component_end(s, pos);
    let end = component_end(s, pos);
    match move_by(place, s.subrange(pos, end), end, tmp_after(s, end)) {
        Move::Ask { .. } => {},
        Move::To(next) => {
            if end < s.len() {
                lemma_asked_after_slash(s, next, end + 1);
            }
        },
    }
}

/// Components that hold a `..` count at least one.
proof fn lemma_dotdot_counts(cs: Seq<Seq<u8>>, i: int)
    requires
        0 <= i < cs.len(),
        cs[i] == DOTDOT@,
    ensures
        count_dotdots(cs) > 0,
    decreases cs.len(),
{
    if i > 0 {
        assert(cs.drop_first()[i - 1] == cs[i]);
        lemma_dotdot_counts(cs.drop_first(), i - 1);
    }
}

/// Where the first part of a path has no `..`, one that the path has stands in
/// the second.
proof fn lemma_dotdot_behind(a: Seq<u8>, b: Seq<u8>, at: int, end: int)
    requires
        dotdots(a) == 0,
        ({
            let s = a + seq![SLASH] + b;
            &&& 0 <= at <= end <= s.len()
            &&& at > 0 ==> s[at - 1] == SLASH
            &&& end == component_end(s, at)
            &&& s.subrange(at, end) == DOTDOT@
        }),
    ensures
        at > a.len(),
{
    let s = a + seq![SLASH] + b;
    if at <= a.len() {
        lemma_component_end(s, at);
        assert(s[a.len() as int] == SLASH);
        assert(end <= a.len());
        let c = a.skip(at);
        assert forall|i: int| 0 <= i < end - at implies #[trigger] c[i] != SLASH by {
            assert(c[i] == s[at + i]);
        }
        lemma_component_end_is(c, 0, end - at);
        assert(c.subrange(0, end - at) =~= s.subrange(at, end));
        assert(components(c)[0] == DOTDOT@);
        if at > 0 {
            assert(s[at - 1] == a[at - 1]);
            assert(a =~= a.take(at - 1) + seq![SLASH] + c);
            lemma_components_split(a.take(at - 1), c);
            let n = components(a.take(at - 1)).len() as int;
            assert(components(a)[n] == components(c)[0]);
            lemma_dotdot_counts(components(a), n);
        } else {
            assert(c =~= a);
            lemma_dotdot_counts(components(a), 0);
        }
    }
}

/// The kernel answers with names of at most `longest` bytes, and none of them
/// holds a `..`.
pub open spec fn answers_briefly(kernel: Kernel, longest: nat) -> bool {
    forall|q: Seq<u8>, t: Seq<u8>| #[trigger]
        kernel(q, Ok::<Seq<u8>, i32>(t)) ==> t.len() <= longest && dotdots(t) == 0
}

/// The kernel answers some question with the error.
pub open spec fn may_fail(kernel: Kernel, errno: i32) -> bool {
    exists|q: Seq<u8>| #[trigger] kernel(q, Err::<Seq<u8>, i32>(errno))
}

/// A parent is no longer than its path, but for that of a name in no directory.
proof fn lemma_parent_length(s: Seq<u8>)
    ensures
        parent_of(s).len() <= s.len() || parent_of(s).len() == 1,
{
    lemma_last_slash_parts(s);
}

#[verifier::spinoff_prover]
proof fn lemma_leads_somewhere(
    platform: Platform,
    kernel: Kernel,
    root: Seq<u8>,
    a: Seq<u8>,
    b: Seq<u8>,
    forced: bool,
    cap: int,
    longest: nat,
    most: nat,
    result: Result<Option<Seq<u8>>, i32>,
)
    requires
        root.len() >= 8,
        longest >= 1,
        answers_briefly(kernel, longest),
        longest + most + 1 < path_max(platform),
        root.len() + longest + most + 11 < cap,
        dotdots(a) == 0,
        a.len() <= longest,
        b.len() <= most,
        leads_to(platform, kernel, root, a + seq![SLASH] + b, forced, cap, result),
    ensures
        result is Err ==> may_fail(kernel, result->Err_0),
    decreases dotdots(a + seq![SLASH] + b),
{
    let s = a + seq![SLASH] + b;
    lemma_read_from_bounds(s, Place::Base(Base::Root), 0);
    lemma_asked_after_slash(s, Place::Base(Base::Root), 0);
    match read_path(s) {
        Reading::Done(place) => {
            if let Place::Temp { sub, start, .. } = place {
                assert(sub.below_root().len() <= 8);
                assert(s.skip(start).len() <= s.len());
            }
        },
        Reading::Ask { head, start, at, end } => {
            let q = question(root, s, head, start, at);
            assert(q.len() <= cap) by {
                if let Some(sub) = head {
                    assert(sub.below_root().len() <= 8);
                }
            }
            let answer = choose|answer: Result<Seq<u8>, i32>| #[trigger]
                kernel(q, answer) && match answer {
                    Err(errno) => result == Err::<Option<Seq<u8>>, i32>(errno),
                    Ok(text) => match rewritten(platform, root, s, text, end) {
                        Err(errno) => result == Err::<Option<Seq<u8>>, i32>(errno),
                        Ok(next) => leads_to(
                            platform,
                            kernel,
                            root,
                            next,
                            forced || head is Some,
                            cap,
                            result,
                        ),
                    },
                };
            if let Err(errno) = answer {
                assert(kernel(q, Err::<Seq<u8>, i32>(errno)));
                assert(may_fail(kernel, errno));
            }
            if let Ok(text) = answer {
                assert(kernel(q, Ok::<Seq<u8>, i32>(text)));
                let host = reported_name(root, text);
                let dir = parent_of(host);
                let rest = after(s, end);
                let next = joined(dir, rest);
                lemma_host_name_length(root, text);
                lemma_parent_length(host);
                lemma_dotdot_behind(a, b, at, end);
                assert(rest.len() <= most);
                lemma_reported_dotdots(root, text);
                lemma_parent_dotdots(host);
                lemma_joined_dotdots(dir, rest);
                lemma_dotdot_read(s, at, end);
                assert(rewritten(platform, root, s, text, end) == Ok::<Seq<u8>, i32>(next));
                let none = Seq::<u8>::empty();
                let above = if dir == seq![SLASH] {
                    none
                } else {
                    dir
                };
                assert(next =~= above + seq![SLASH] + rest);
                assert(dotdots(none) == 0) by {
                    assert(!none.contains(SLASH));
                    lemma_components_single(none);
                    assert(DOTDOT@.len() == 2);
                    reveal_with_fuel(count_dotdots, 2);
                    assert(seq![none].drop_first() =~= Seq::<Seq<u8>>::empty());
                }
                lemma_leads_somewhere(
                    platform,
                    kernel,
                    root,
                    above,
                    rest,
                    forced || head is Some,
                    cap,
                    longest,
                    most,
                    result,
                );
            }
        },
    }
}

/// Mapping fails only where the kernel does: where its answers are short enough
/// to go before what is left of the path, and the buffer has room for that below
/// the workspace root, every path is mapped, however many `..` it has, unless the
/// kernel answers a question with an error; that error is then the result.
pub proof fn law_mapping_succeeds(
    platform: Platform,
    kernel: Kernel,
    root: Seq<u8>,
    path: Seq<u8>,
    cap: int,
    longest: nat,
    result: Result<Option<Seq<u8>>, i32>,
)
    requires
        root.len() >= 8,
        longest >= 1,
        answers_briefly(kernel, longest),
        longest + path.len() < path_max(platform),
        root.len() + longest + path.len() + 10 < cap,
        maps_to(platform, kernel, root, path, cap, result),
    ensures
        result is Err ==> may_fail(kernel, result->Err_0),
{
    if path.len() > 0 && path[0] == SLASH {
        let none = Seq::<u8>::empty();
        let rest = path.skip(1);
        assert(path =~= none + seq![SLASH] + rest);
        assert(dotdots(none) == 0) by {
            assert(!none.contains(SLASH));
            lemma_components_single(none);
            assert(DOTDOT@.len() == 2);
            reveal_with_fuel(count_dotdots, 2);
            assert(seq![none].drop_first() =~= Seq::<Seq<u8>>::empty());
        }
        lemma_leads_somewhere(
            platform,
            kernel,
            root,
            none,
            rest,
            false,
            cap,
            longest,
            (path.len() - 1) as nat,
            result,
        );
    }
}

/// The longest path that the kernel takes, and the error where one is longer.
pub open spec fn limits(platform: Platform) -> (int, i32) {
    match platform {
        Platform::Mac => (1024, 63),
        _ => (4096, 36),
    }
}

/// A location is handed out exactly where it and its terminator fit, and a path
/// that is not absolute, or that the kernel will not take anyway, is used
/// unchanged.
pub proof fn law_only_length_is_an_error(
    platform: Platform,
    kernel: Kernel,
    root: Seq<u8>,
    path: Seq<u8>,
    text: Seq<u8>,
    cap: int,
    result: Result<Option<Seq<u8>>, i32>,
)
    ensures
        text.len() + 1 <= cap ==> fitted(platform, text, cap) == Ok::<Option<Seq<u8>>, i32>(
            Some(text),
        ),
        text.len() + 1 > cap ==> fitted(platform, text, cap) == Err::<Option<Seq<u8>>, i32>(
            limits(platform).1,
        ),
        path.len() == 0 || path[0] != 47 || path.len() + 1 > limits(platform).0 ==> (maps_to(
            platform,
            kernel,
            root,
            path,
            cap,
            result,
        ) <==> result == Ok::<Option<Seq<u8>>, i32>(None)),
{
}

/// A question is asked exactly where it fits with a slash and its terminator, and
/// an error that is answered is the result.
pub proof fn law_question_is_asked(
    platform: Platform,
    kernel: Kernel,
    root: Seq<u8>,
    path: Seq<u8>,
    cap: int,
    errno: i32,
    result: Result<Option<Seq<u8>>, i32>,
)
    requires
        path.len() > 0,
        path[0] == 47,
        path.len() < limits(platform).0,
        read_path(path) is Ask,
        forall|q: Seq<u8>, answer: Result<Seq<u8>, i32>| #[trigger]
            kernel(q, answer) ==> answer == Err::<Seq<u8>, i32>(errno),
        maps_to(platform, kernel, root, path, cap, result),
    ensures
        read_path(path) matches Reading::Ask { head, start, at, .. } ==> {
            let before = match head {
                Some(TempRoot::Tmp) => root.len() + 4,
                Some(TempRoot::VarTmp) => root.len() + 8,
                None => 0,
            };
            result == if before + (at - start) + 2 <= cap {
                Err::<Option<Seq<u8>>, i32>(errno)
            } else {
                Err::<Option<Seq<u8>>, i32>(limits(platform).1)
            }
        },
{
    lemma_read_from_bounds(path, Place::Base(Base::Root), 0);
    if let Reading::Ask { head, start, at, end } = read_path(path) {
        let q = question(root, path, head, start, at);
        assert(ROOT_TMP@.len() == 4 && ROOT_VAR_TMP@.len() == 8);
        if q.len() <= cap {
            let answer = choose|answer: Result<Seq<u8>, i32>| #[trigger]
                kernel(q, answer) && match answer {
                    Err(errno) => result == Err::<Option<Seq<u8>>, i32>(errno),
                    Ok(text) => match rewritten(platform, root, path, text, end) {
                        Err(errno) => result == Err::<Option<Seq<u8>>, i32>(errno),
                        Ok(next) => leads_to(
                            platform,
                            kernel,
                            root,
                            next,
                            false || head is Some,
                            cap,
                            result,
                        ),
                    },
                };
            assert(kernel(q, answer));
        }
    }
}

/// Names are no `..`.
proof fn lemma_names_dotdots(names: Seq<Seq<u8>>)
    requires
        is_stack(names),
    ensures
        dotdots(slashed(names)) == 0,
{
    assert(slash_free(names)) by {
        assert forall|i: int| 0 <= i < names.len() implies !(#[trigger] names[i]).contains(
            SLASH,
        ) by {
            assert(is_name(names[i]));
        }
    }
    lemma_slashed_components(names);
    let cs = seq![Seq::<u8>::empty()] + names;
    assert(DOTDOT@.len() == 2);
    assert forall|i: int| 0 <= i < cs.len() implies #[trigger] cs[i] != DOTDOT@ by {
        if i > 0 {
            assert(cs[i] == names[i - 1]);
            assert(is_name(names[i - 1]));
        }
    }
    lemma_no_dotdot_counts(cs);
}

proof fn lemma_no_dotdot_counts(cs: Seq<Seq<u8>>)
    requires
        forall|i: int| 0 <= i < cs.len() ==> #[trigger] cs[i] != DOTDOT@,
    ensures
        count_dotdots(cs) == 0,
    decreases cs.len(),
{
    if cs.len() > 0 {
        assert(cs[0] != DOTDOT@);
        let tail = cs.drop_first();
        assert forall|i: int| 0 <= i < tail.len() implies #[trigger] tail[i] != DOTDOT@ by {
            assert(tail[i] == cs[i + 1]);
        }
        lemma_no_dotdot_counts(tail);
    }
}

/// An answer takes the place of what was asked about and its `..`: what is left of
/// the path goes on from the directory that holds the answer, unless the kernel
/// would not take such a path.
pub proof fn law_answer_takes_its_place(
    platform: Platform,
    root: Seq<u8>,
    s: Seq<u8>,
    names: Seq<Seq<u8>>,
    rest: Seq<u8>,
)
    requires
        read_path(s) is Ask,
        is_stack(names),
        names.len() > 1,
        reported_name(root, slashed(names)) == slashed(names),
        s.skip(read_path(s)->end) == seq![47u8] + rest,
    ensures
        ({
            let next = slashed(names.drop_last()) + seq![47u8] + rest;
            rewritten(platform, root, s, slashed(names), read_path(s)->end) == if next.len()
                < limits(platform).0 {
                Ok::<Seq<u8>, i32>(next)
            } else {
                Err::<Seq<u8>, i32>(limits(platform).1)
            }
        }),
{
    lemma_read_from_bounds(s, Place::Base(Base::Root), 0);
    lemma_asked_after_slash(s, Place::Base(Base::Root), 0);
    if let Reading::Ask { head, start, at, end } = read_path(s) {
        let answer = slashed(names);
        assert(s.skip(end).len() == 1 + rest.len());
        assert(after(s, end) =~= rest) by {
            assert(s.skip(end + 1) =~= s.skip(end).skip(1));
            assert((seq![47u8] + rest).skip(1) =~= rest);
        }
        lemma_parent_of_slashed(names);
        let dir = parent_of(answer);
        let above = names.drop_last();
        assert(dir == slashed(above));
        lemma_names_dotdots(names);
        lemma_reported_dotdots(root, answer);
        lemma_parent_dotdots(answer);
        lemma_joined_dotdots(dir, rest);
        lemma_dotdot_read(s, at, end);
        assert(is_name(names[names.len() - 2]));
        assert(above.last() == names[names.len() - 2]);
        assert(dir.len() > 1);
        assert(joined(dir, rest) =~= slashed(above) + seq![47u8] + rest);
    }
}

/// Resolving leading components makes neither part longer.
proof fn lemma_descended_length(dir: Seq<u8>, path: Seq<u8>)
    ensures
        descend(dir, path).0.len() <= dir.len(),
        descend(dir, path).1.len() <= path.len(),
    decreases path.len(),
{
    assert(DOT_SLASH@.len() == 2 && DOTDOT_SLASH@.len() == 3);
    lemma_last_slash_parts(dir);
    if path == DOT@ || path == DOTDOT@ {
    } else if DOT_SLASH@.is_prefix_of(path) {
        lemma_descended_length(dir, path.skip(2));
    } else if DOTDOT_SLASH@.is_prefix_of(path) {
        lemma_descended_length(popped(dir), path.skip(3));
    }
}

/// Mapping a relative path fails only where the kernel does, as mapping an
/// absolute one: where its directory, the path and the kernel's answers are short
/// enough, it succeeds unless a question is answered with an error, which is then
/// the result.
pub proof fn law_relative_mapping_succeeds(
    platform: Platform,
    kernel: Kernel,
    root: Seq<u8>,
    dir: Seq<u8>,
    path: Seq<u8>,
    before: Seq<u8>,
    out: Seq<u8>,
    longest: nat,
    r: Result<Option<usize>, i32>,
)
    requires
        root.len() >= 8,
        longest >= 1,
        answers_briefly(kernel, longest),
        longest + dir.len() + path.len() + 1 < limits(platform).0,
        root.len() + longest + dir.len() + path.len() + 11 < before.len(),
        maps_from(platform, kernel, root, dir, path, before, out, r),
    ensures
        r is Err ==> may_fail(kernel, r->Err_0),
{
    let cap = before.len() as int;
    let named = reported_name(root, dir);
    let full = below_dir(named, path);
    lemma_host_name_length(root, dir);
    lemma_descended_length(named, path);
    assert(full.len() <= dir.len() + 1 + path.len());
    if host_name_of(root, dir) is Some {
        let inner = choose|inner: Result<Option<Seq<u8>>, i32>| #[trigger]
            maps_to(platform, kernel, root, full, cap, inner) && written(out, r) == (if inner
                == Ok::<Option<Seq<u8>>, i32>(None) {
                fitted(platform, full, cap)
            } else {
                inner
            });
        law_mapping_succeeds(platform, kernel, root, full, cap, longest, inner);
    } else {
        law_mapping_succeeds(platform, kernel, root, full, cap, longest, written(out, r));
    }
}

} // verus!
