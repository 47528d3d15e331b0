//! Where relative paths lead, and that mapping them agrees with that.
use vstd::prelude::*;
use crate::bytes::{component_end, components, components_from, lemma_component_end, SLASH};
use crate::sys::{path_max, Platform};
use crate::tmp_path::{is_name, is_valid_root, Base, TempRoot, DOT, DOTDOT, PRIVATE, TMP, VAR};
use crate::tmp_path::host::{host_stack, is_host_stack, is_stack, lemma_components_single, lemma_components_slash_free, lemma_components_split, lemma_joined_rendered, lemma_last_slash, lemma_names, lemma_slashed_components, lemma_slashed_starts, lemma_walk_append, lemma_walk_down, lemma_walk_first, lemma_walk_host, normalized_host, rendered, slash_free, slashed, step, walk};
use crate::tmp_path::laws::{climbs_from, climbs_out, is_own_temp, is_plain_host, law_agrees_with_host, law_unchanged_is_outside, lemma_walk_deeper, outside, relocated, sub_stack};
use crate::tmp_path::map::{fitted, last_slash, maps_to, written, Kernel};
use crate::tmp_path::map_at::{below_dir, descend, maps_at_to, maps_from, needs_base, popped, DOTDOT_SLASH, DOT_SLASH};
use crate::tmp_path::round_trip::lemma_read_plain;
use crate::tmp_path::scan::{first_real_from, lemma_read_from_bounds, read_path, Place, Reading};
use crate::tmp_path::unmap::{host_name_of, lemma_host_name_length, reported_name};

verus! {

/// The stack that a `..` leaves.
spec fn above(stack: Seq<Seq<u8>>) -> Seq<Seq<u8>> {
    if stack.len() > 0 {
        stack.drop_last()
    } else {
        stack
    }
}

proof fn lemma_stack_free(stack: Seq<Seq<u8>>)
    requires
        is_stack(stack),
    ensures
        slash_free(stack),
        !stack.contains(DOTDOT@),
{
    assert forall|i: int| 0 <= i < stack.len() implies !(#[trigger] stack[i]).contains(SLASH) by {
        assert(is_name(stack[i]) && !stack[i].contains(SLASH));
    }
    if stack.contains(DOTDOT@) {
        let i = choose|i: int| 0 <= i < stack.len() && stack[i] == DOTDOT@;
        assert(is_name(stack[i]));
    }
}

proof fn lemma_above_host(stack: Seq<Seq<u8>>)
    requires
        is_host_stack(stack),
    ensures
        is_host_stack(above(stack)),
{
    let up = above(stack);
    assert forall|i: int| 0 <= i < up.len() implies is_name(#[trigger] up[i])
        && !up[i].contains(SLASH) by {
        assert(is_name(stack[i]) && !stack[i].contains(SLASH));
    }
}

/// A directory's text leads to the directory, by names alone.
proof fn lemma_rendered(stack: Seq<Seq<u8>>)
    requires
        is_host_stack(stack),
    ensures
        host_stack(rendered(stack)) == stack,
        !components(rendered(stack)).contains(DOTDOT@),
        rendered(stack).len() > 0,
        rendered(stack)[0] == SLASH,
{
    let e = Seq::<u8>::empty();
    let none = Seq::<Seq<u8>>::empty();
    lemma_stack_free(stack);
    assert(!e.contains(SLASH));
    lemma_components_single(e);
    assert(DOTDOT@.len() == 2);
    if stack.len() == 0 {
        lemma_components_split(e, e);
        assert(e + seq![SLASH] + e =~= seq![SLASH]);
        assert(components(seq![SLASH]) == seq![e] + seq![e]);
        lemma_walk_first(none, e, seq![e]);
        lemma_walk_first(none, e, none);
        assert(!(seq![e] + seq![e]).contains(DOTDOT@));
        assert(host_stack(rendered(stack)) =~= stack);
    } else {
        lemma_slashed_components(stack);
        lemma_slashed_starts(stack);
        lemma_walk_first(none, e, stack);
        lemma_walk_down(stack);
        let cs = seq![e] + stack;
        if cs.contains(DOTDOT@) {
            let i = choose|i: int| 0 <= i < cs.len() && cs[i] == DOTDOT@;
            if i > 0 {
                assert(stack[i - 1] == DOTDOT@);
            }
        }
    }
}

/// A directory's text without its last component is the text of its parent.
proof fn lemma_popped(stack: Seq<Seq<u8>>)
    requires
        is_host_stack(stack),
    ensures
        popped(rendered(stack)) == rendered(above(stack)),
{
    if stack.len() > 0 {
        let up = slashed(stack.drop_last());
        let c = stack.last();
        assert(is_name(stack[stack.len() - 1]) && !stack[stack.len() - 1].contains(SLASH));
        lemma_last_slash(up, c);
        let s = slashed(stack);
        assert(s.len() == up.len() + 1 + c.len());
        if stack.len() > 1 {
            lemma_slashed_starts(stack.drop_last());
            assert(s.take(up.len() as int) =~= up);
        } else {
            assert(stack.drop_last() =~= Seq::<Seq<u8>>::empty());
            assert(up =~= Seq::<u8>::empty());
            assert(s.take(1) =~= seq![SLASH]);
        }
    }
}

/// What climbs out after one more component climbs out with it.
proof fn lemma_climbs_prepend(
    top: Seq<Seq<u8>>,
    stack: Seq<Seq<u8>>,
    c: Seq<u8>,
    cs: Seq<Seq<u8>>,
)
    ensures
        climbs_from(top, step(stack, c), cs) ==> climbs_from(top, stack, seq![c] + cs),
{
    if climbs_from(top, step(stack, c), cs) {
        let k = choose|k: int|
            0 <= k < cs.len() && #[trigger] cs[k] == DOTDOT@ && is_own_temp(
                top,
                walk(step(stack, c), cs.take(k)),
            );
        let all = seq![c] + cs;
        assert(all.take(k + 1) =~= seq![c] + cs.take(k));
        lemma_walk_first(stack, c, cs.take(k));
        assert(all[k + 1] == DOTDOT@);
    }
}

/// Names that lead to a directory first do not climb out.
proof fn lemma_climbs_after(
    top: Seq<Seq<u8>>,
    head: Seq<Seq<u8>>,
    cs: Seq<Seq<u8>>,
)
    requires
        !head.contains(DOTDOT@),
    ensures
        climbs_from(top, Seq::empty(), head + cs) <==> climbs_from(
            top,
            walk(Seq::empty(), head),
            cs,
        ),
{
    let none = Seq::<Seq<u8>>::empty();
    let all = head + cs;
    let n = head.len() as int;
    if climbs_from(top, none, all) {
        let k = choose|k: int|
            0 <= k < all.len() && #[trigger] all[k] == DOTDOT@ && is_own_temp(
                top,
                walk(none, all.take(k)),
            );
        if k < n {
            assert(head[k] == DOTDOT@);
        } else {
            assert(all.take(k) =~= head + cs.take(k - n));
            lemma_walk_append(none, head, cs.take(k - n));
            assert(cs[k - n] == DOTDOT@);
        }
    }
    if climbs_from(top, walk(none, head), cs) {
        let k = choose|k: int|
            0 <= k < cs.len() && #[trigger] cs[k] == DOTDOT@ && is_own_temp(
                top,
                walk(walk(none, head), cs.take(k)),
            );
        assert(all.take(n + k) =~= head + cs.take(k));
        lemma_walk_append(none, head, cs.take(k));
        assert(all[n + k] == DOTDOT@);
    }
}

/// Where the absolute text of a relative path leads.
proof fn lemma_below(top: Seq<Seq<u8>>, stack: Seq<Seq<u8>>, path: Seq<u8>)
    requires
        is_host_stack(stack),
    ensures
        ({
            let full = below_dir(rendered(stack), path);
            &&& host_stack(full) == walk(stack, components(path))
            &&& full.len() > 0 && full[0] == SLASH
            &&& climbs_from(top, Seq::empty(), components(full)) ==> climbs_from(
                top,
                stack,
                components(path),
            )
        }),
    decreases path.len(),
{
    let none = Seq::<Seq<u8>>::empty();
    let e = Seq::<u8>::empty();
    assert(DOT@.len() == 1 && DOTDOT@.len() == 2);
    assert(!e.contains(SLASH));
    lemma_rendered(stack);
    lemma_above_host(stack);
    lemma_rendered(above(stack));
    lemma_popped(stack);
    assert(!DOT@.contains(SLASH));
    assert(!DOTDOT@.contains(SLASH));
    lemma_components_single(DOT@);
    lemma_components_single(DOTDOT@);
    lemma_components_single(e);
    if path == DOT@ {
        lemma_walk_first(stack, DOT@, none);
        lemma_no_climb(top, components(rendered(stack)));
    } else if path == DOTDOT@ {
        lemma_walk_first(stack, DOTDOT@, none);
        lemma_no_climb(top, components(rendered(above(stack))));
    } else if DOT_SLASH@.is_prefix_of(path) {
        let rest = path.skip(2);
        assert(path.subrange(0, 2) =~= DOT_SLASH@);
        assert(path =~= DOT@ + seq![SLASH] + rest) by {
            assert(path[0] == path.subrange(0, 2)[0] && path[1] == path.subrange(0, 2)[1]);
        }
        lemma_components_split(DOT@, rest);
        lemma_below(top, stack, rest);
        lemma_walk_first(stack, DOT@, components(rest));
        lemma_climbs_prepend(top, stack, DOT@, components(rest));
    } else if DOTDOT_SLASH@.is_prefix_of(path) {
        let rest = path.skip(3);
        assert(path.subrange(0, 3) =~= DOTDOT_SLASH@);
        assert(path =~= DOTDOT@ + seq![SLASH] + rest) by {
            let head = path.subrange(0, 3);
            assert(path[0] == head[0] && path[1] == head[1] && path[2] == head[2]);
        }
        lemma_components_split(DOTDOT@, rest);
        lemma_below(top, above(stack), rest);
        lemma_walk_first(stack, DOTDOT@, components(rest));
        lemma_climbs_prepend(top, stack, DOTDOT@, components(rest));
    } else if path.len() == 0 {
        assert(path =~= e);
        lemma_walk_first(stack, e, none);
        lemma_no_climb(top, components(rendered(stack)));
    } else {
        let head = seq![e] + stack;
        lemma_joined_rendered(stack, path);
        lemma_walk_first(none, e, stack);
        lemma_walk_down(stack);
        lemma_walk_append(none, head, components(path));
        lemma_stack_free(stack);
        assert(!head.contains(DOTDOT@)) by {
            if head.contains(DOTDOT@) {
                let i = choose|i: int| 0 <= i < head.len() && head[i] == DOTDOT@;
                if i > 0 {
                    assert(stack[i - 1] == DOTDOT@);
                }
            }
        }
        lemma_climbs_after(top, head, components(path));
        if stack.len() > 0 {
            lemma_slashed_starts(stack);
        }
    }
}

proof fn lemma_no_climb(top: Seq<Seq<u8>>, cs: Seq<Seq<u8>>)
    requires
        !cs.contains(DOTDOT@),
    ensures
        !climbs_from(top, Seq::empty(), cs),
{
}

/// Where a path leads that continues a canonical directory.
proof fn lemma_continued(top: Seq<Seq<u8>>, dir: Seq<u8>, path: Seq<u8>)
    requires
        normalized_host(dir) == dir,
    ensures
        is_host_stack(host_stack(dir)),
        host_stack(dir + seq![SLASH] + path) == walk(host_stack(dir), components(path)),
        climbs_from(top, host_stack(dir), components(path)) ==> climbs_from(
            top,
            Seq::empty(),
            components(dir + seq![SLASH] + path),
        ),
{
    let none = Seq::<Seq<u8>>::empty();
    lemma_components_slash_free(dir);
    lemma_walk_host(none, components(dir));
    let stack = host_stack(dir);
    lemma_rendered(stack);
    lemma_components_split(dir, path);
    lemma_walk_append(none, components(dir), components(path));
    lemma_climbs_after(top, components(dir), components(path));
}

/// A relative path names what the text of its directory, a slash and the whole
/// path name. In particular a `..` names the directory without its last name,
/// and a `.` the directory itself.
pub proof fn law_relative_path_continues(dir: Seq<u8>, path: Seq<u8>)
    requires
        normalized_host(dir) == dir,
    ensures
        host_stack(below_dir(dir, path)) == host_stack(dir + seq![SLASH] + path),
        path == DOTDOT@ && host_stack(dir).len() > 0 ==> host_stack(below_dir(dir, path))
            == host_stack(dir).drop_last(),
        path == DOT@ ==> host_stack(below_dir(dir, path)) == host_stack(dir),
{
    let none = Seq::<Seq<u8>>::empty();
    let stack = host_stack(dir);
    lemma_continued(none, dir, path);
    lemma_below(none, stack, path);
    assert(DOT@.len() == 1 && DOTDOT@.len() == 2);
    if path == DOTDOT@ || path == DOT@ {
        assert(!path.contains(SLASH));
        lemma_components_single(path);
        lemma_walk_first(stack, path, none);
    }
}

/// Resolving leading components makes no directory longer.
proof fn lemma_descend_len(dir: Seq<u8>, path: Seq<u8>)
    ensures
        descend(dir, path).0.len() <= dir.len(),
    decreases path.len(),
{
    if path == DOT@ || path == DOTDOT@ {
    } else if DOT_SLASH@.is_prefix_of(path) {
        lemma_descend_len(dir, path.skip(2));
    } else if DOTDOT_SLASH@.is_prefix_of(path) {
        lemma_descend_len(popped(dir), path.skip(3));
    }
    lemma_popped_len(dir);
}

proof fn lemma_popped_len(dir: Seq<u8>)
    ensures
        popped(dir).len() <= dir.len(),
{
    lemma_last_slash_within(dir);
}

proof fn lemma_last_slash_within(s: Seq<u8>)
    ensures
        -1 <= last_slash(s) < s.len(),
    decreases s.len(),
{
    if s.len() > 0 && s.last() != SLASH {
        lemma_last_slash_within(s.drop_last());
    }
}

/// Mapping a relative path agrees with the host, as mapping an absolute one does:
/// what the caller is handed leads to where the reported name of the directory,
/// a slash and the path lead, relocated below the workspace root when that is in
/// a temp root. Where the path is used unchanged, it leads into no temp root, and
/// its directory is none of the workspace's own.
pub proof fn law_relative_agrees_with_host(
    platform: Platform,
    kernel: Kernel,
    root: Seq<u8>,
    dir: Seq<u8>,
    path: Seq<u8>,
    before: Seq<u8>,
    out: Seq<u8>,
    r: Result<Option<usize>, i32>,
)
    requires
        is_valid_root(root),
        normalized_host(root) == root,
        is_plain_host(kernel),
        normalized_host(reported_name(root, dir)) == reported_name(root, dir),
        dir.len() < path_max(platform),
        path.len() > 0 ==> path[0] != SLASH,
        needs_base(path),
        !climbs_out(root, reported_name(root, dir) + seq![SLASH] + path),
        maps_at_to(
            platform,
            kernel,
            |answer: Result<Seq<u8>, i32>| answer == Ok::<Seq<u8>, i32>(dir),
            root,
            path,
            before,
            out,
            r,
        ),
    ensures
        ({
            let place = host_stack(reported_name(root, dir) + seq![SLASH] + path);
            match r {
                Ok(Some(n)) => host_stack(out.take(n as int)) == relocated(host_stack(root), place),
                Ok(None) => outside(place) && host_name_of(root, dir) is None,
                Err(_) => true,
            }
        }),
{
    let host = reported_name(root, dir);
    let stack = host_stack(host);
    let top = host_stack(root);
    let full = below_dir(host, path);
    let cap = before.len() as int;
    lemma_host_name_length(root, dir);
    lemma_continued(top, host, path);
    lemma_below(top, stack, path);
    lemma_descend_len(host, path);
    assert(maps_from(platform, kernel, root, dir, path, before, out, r));
    if descend(host, path).1.len() == 0 || full.len() < path_max(platform) {
        assert(!climbs_out(root, full));
        let location = match r {
            Ok(Some(n)) => Some(out.take(n as int)),
            _ => None,
        };
        if r is Ok {
            if host_name_of(root, dir) is Some {
                let inner = choose|inner: Result<Option<Seq<u8>>, i32>| #[trigger]
                    maps_to(platform, kernel, root, full, cap, inner) && written(out, r) == (
                    if inner == Ok::<Option<Seq<u8>>, i32>(None) {
                        fitted(platform, full, cap)
                    } else {
                        inner
                    });
                assert(inner is Ok);
                law_agrees_with_host(platform, kernel, root, full, cap, inner->Ok_0);
            } else {
                law_agrees_with_host(platform, kernel, root, full, cap, location);
                law_unchanged_is_outside(platform, kernel, root, full, cap, location);
            }
        }
    }
}

/// A walk without a `..` leads where it starts, or first down by the first
/// component that is neither empty nor `.`.
proof fn lemma_first_step(stack: Seq<Seq<u8>>, s: Seq<u8>, pos: int)
    requires
        0 <= pos <= s.len(),
        !components_from(s, pos).contains(DOTDOT@),
    ensures
        ({
            let first = first_real_from(s, pos);
            let end = walk(stack, components_from(s, pos));
            if first.len() == 0 {
                end == stack
            } else {
                is_name(first) && step(stack, first).is_prefix_of(end)
            }
        }),
    decreases s.len() - pos,
{
    lemma_component_end(s, pos);
    let end = component_end(s, pos);
    let c = s.subrange(pos, end);
    let none = Seq::<Seq<u8>>::empty();
    let all = components_from(s, pos);
    let tail = if end < s.len() {
        components_from(s, end + 1)
    } else {
        none
    };
    assert(all =~= seq![c] + tail);
    assert(all[0] == c);
    assert(all.contains(all[0]));
    assert(!tail.contains(DOTDOT@)) by {
        if tail.contains(DOTDOT@) {
            let i = choose|i: int| 0 <= i < tail.len() && tail[i] == DOTDOT@;
            assert(all[i + 1] == DOTDOT@);
        }
    }
    lemma_walk_first(stack, c, tail);
    if c.len() > 0 && c != DOT@ {
        lemma_walk_deeper(step(stack, c), tail);
    } else if end < s.len() {
        lemma_first_step(stack, s, end + 1);
    }
}

/// A relative path that needs no directory leads into no temp root from a
/// directory outside them, so that it may be used unchanged.
pub proof fn law_unmapped_relative_is_outside(dir: Seq<u8>, path: Seq<u8>)
    requires
        normalized_host(dir) == dir,
        outside(host_stack(dir)),
        !needs_base(path),
    ensures
        outside(host_stack(dir + seq![SLASH] + path)),
{
    let stack = host_stack(dir);
    let none = Seq::<Seq<u8>>::empty();
    lemma_names();
    lemma_continued(none, dir, path);
    lemma_first_step(stack, path, 0);
    let first = first_real_from(path, 0);
    let end = walk(stack, components(path));
    if first.len() > 0 {
        let next = step(stack, first);
        assert(next == stack.push(first));
        assert forall|x: TempRoot| !(#[trigger] sub_stack(x)).is_prefix_of(end) by {
            let deep = sub_stack(x);
            assert(sub_stack(TempRoot::VarTmp) =~= seq![PRIVATE@, VAR@, TMP@]);
            assert(sub_stack(TempRoot::Tmp) =~= seq![PRIVATE@, TMP@]);
            if deep.is_prefix_of(end) {
                let n = stack.len() as int;
                assert forall|i: int| 0 <= i < deep.len() && i <= n implies next[i] == deep[i] by {
                    assert(end.subrange(0, deep.len() as int)[i] == deep[i]);
                    assert(end.subrange(0, n + 1)[i] == next[i]);
                }
                if n >= deep.len() {
                    assert(stack.subrange(0, deep.len() as int) =~= deep);
                    assert(deep.is_prefix_of(stack));
                    match x {
                        TempRoot::Tmp => {},
                        TempRoot::VarTmp => {},
                    }
                } else {
                    assert(next[n] == first);
                    assert(deep[n] == first);
                    assert(deep[n] == PRIVATE@ || deep[n] == VAR@ || deep[n] == TMP@);
                }
                assert(false);
            }
        }
    }
}

/// A path with no `..` is mapped without fail, where the buffer has room for the
/// workspace root, the path and what a temp root's name adds.
pub proof fn law_plain_path_succeeds(
    platform: Platform,
    kernel: Kernel,
    root: Seq<u8>,
    path: Seq<u8>,
    cap: int,
    result: Result<Option<Seq<u8>>, i32>,
)
    requires
        !components(path).contains(DOTDOT@),
        root.len() + path.len() + 8 < cap,
        maps_to(platform, kernel, root, path, cap, result),
    ensures
        result is Ok,
{
    if path.len() > 0 {
        lemma_read_plain(path, Place::Base(Base::Root), 0);
        lemma_read_from_bounds(path, Place::Base(Base::Root), 0);
        if let Reading::Done(Place::Temp { sub, start, .. }) = read_path(path) {
            assert(sub.below_root().len() <= 8);
            assert(path.skip(start).len() <= path.len());
        }
    }
}

} // verus!
