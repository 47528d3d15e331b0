//! What mapping does to paths without a `..`, and how reporting undoes it.
use vstd::prelude::*;
use crate::bytes::{component_end, components, components_from, lemma_component_end, lemma_component_end_is, SLASH};
use crate::sys::{path_max, too_long, Platform};
use crate::tmp_path::{is_name, is_valid_root, rest_after, Base, TempRoot, DOT, DOTDOT, PRIVATE, ROOT_PRIVATE_TMP, ROOT_PRIVATE_VAR_TMP, ROOT_TMP, ROOT_VAR_TMP, TMP, VAR};
use crate::tmp_path::host::{lemma_components_single, lemma_components_split, lemma_components_suffix, lemma_names, lemma_rest_after_slashed, lemma_slashed_components, lemma_slashed_starts, slash_free, slashed};
use crate::tmp_path::map::{asks, fitted, kept, maps_in, maps_to, terminated, written, Kernel};
use crate::tmp_path::map_at::{lexical_location, maps_lexically};
use crate::tmp_path::scan::{move_by, read_from, read_path, tmp_after, Move, Place, Reading};
use crate::tmp_path::unmap::host_name_of;

verus! {

/// `name` is one of the names that a host has for a temp root.
pub open spec fn names_temp_root(name: Seq<u8>, sub: TempRoot) -> bool {
    match sub {
        TempRoot::Tmp => name == ROOT_TMP@ || name == ROOT_PRIVATE_TMP@,
        TempRoot::VarTmp => name == ROOT_VAR_TMP@ || name == ROOT_PRIVATE_VAR_TMP@,
    }
}

/// The scan of a component that ends before the path does.
proof fn lemma_read_one(s: Seq<u8>, place: Place, pos: int, end: int)
    requires
        0 <= pos <= end < s.len(),
        s[end] == SLASH,
        forall|i: int| pos <= i < end ==> s[i] != SLASH,
    ensures
        move_by(place, s.subrange(pos, end), end, tmp_after(s, end)) matches Move::To(next)
            ==> read_from(s, place, pos) == read_from(s, next, end + 1),
{
    lemma_component_end_is(s, pos, end);
}

/// The scan of the last component.
proof fn lemma_read_last(s: Seq<u8>, place: Place, pos: int)
    requires
        0 <= pos <= s.len(),
        forall|i: int| pos <= i < s.len() ==> s[i] != SLASH,
    ensures
        move_by(
            place,
            s.subrange(pos, s.len() as int),
            s.len() as int,
            tmp_after(s, s.len() as int),
        ) matches Move::To(next) ==> read_from(s, place, pos) == Reading::Done(next),
{
    lemma_component_end_is(s, pos, s.len() as int);
}

/// Components without a `..` need no kernel, and leave a temp root alone.
pub proof fn lemma_read_plain(s: Seq<u8>, place: Place, pos: int)
    requires
        0 <= pos <= s.len(),
        !components_from(s, pos).contains(DOTDOT@),
    ensures
        read_from(s, place, pos) is Done,
        place matches Place::Temp { sub, start, .. } ==> (read_from(s, place, pos)->Done_0
            matches Place::Temp { sub: sub2, start: start2, .. } && sub2 == sub && start2 == start),
        place is Other ==> read_from(s, place, pos)->Done_0 is Other,
    decreases s.len() - pos,
{
    lemma_component_end(s, pos);
    let end = component_end(s, pos);
    let all = components_from(s, pos);
    assert(all[0] == s.subrange(pos, end));
    assert(all.contains(all[0]));
    match move_by(place, s.subrange(pos, end), end, tmp_after(s, end)) {
        Move::Ask { .. } => {},
        Move::To(next) => {
            if end < s.len() {
                let tail = components_from(s, end + 1);
                assert(!tail.contains(DOTDOT@)) by {
                    if tail.contains(DOTDOT@) {
                        let i = choose|i: int| 0 <= i < tail.len() && tail[i] == DOTDOT@;
                        assert(all[i + 1] == DOTDOT@);
                    }
                }
                lemma_read_plain(s, next, end + 1);
            }
        },
    }
}

/// The scan from a temp root's own name to the end.
proof fn lemma_read_below(s: Seq<u8>, place: Place, pos: int, sub: TempRoot, rest: Seq<u8>)
    requires
        place == Place::Base(sub.parent()) || (place == Place::Base(Base::Root) && sub
            == TempRoot::Tmp),
        0 <= pos <= pos + 3 <= s.len(),
        s.subrange(pos, pos + 3) == TMP@,
        s.skip(pos + 3) == rest,
        rest.len() > 0 ==> rest[0] == SLASH,
        !components(rest).contains(DOTDOT@),
    ensures
        read_from(s, place, pos) matches Reading::Done(Place::Temp { sub: sub2, start, .. })
            && sub2 == sub && start == pos + 3,
{
    lemma_names();
    let end = pos + 3;
    assert forall|i: int| pos <= i < end implies s[i] != SLASH by {
        assert(s.subrange(pos, end)[i - pos] == TMP@[i - pos]);
    }
    let temp = Place::Temp { sub, start: end, depth: 0, named: false };
    if rest.len() == 0 {
        lemma_read_last(s, place, pos);
    } else {
        assert(s[end] == rest[0]);
        lemma_read_one(s, place, pos, end);
        assert(read_from(s, place, pos) == read_from(s, temp, end + 1));
        let tail = rest.skip(1);
        lemma_components_split(Seq::empty(), tail);
        assert(Seq::<u8>::empty() + seq![SLASH] + tail =~= rest);
        lemma_components_suffix(s, end + 1);
        assert(s.skip(end + 1) =~= tail);
        assert(!components(tail).contains(DOTDOT@)) by {
            if components(tail).contains(DOTDOT@) {
                let i = choose|i: int|
                    0 <= i < components(tail).len() && components(tail)[i] == DOTDOT@;
                let n = components(Seq::<u8>::empty()).len() as int;
                assert(components(rest)[n + i] == DOTDOT@);
            }
        }
        lemma_read_plain(s, temp, end + 1);
    }
}

proof fn lemma_read_named(name: Seq<u8>, sub: TempRoot, rest: Seq<u8>)
    requires
        names_temp_root(name, sub),
        rest.len() > 0 ==> rest[0] == SLASH,
        !components(rest).contains(DOTDOT@),
    ensures
        read_path(name + rest) matches Reading::Done(Place::Temp { sub: sub2, start, .. }) && sub2
            == sub && start == name.len(),
{
    lemma_names();
    let s = name + rest;
    let top = Place::Base(Base::Root);
    assert(s[0] == SLASH);
    assert(s.subrange(0, 0).len() == 0);
    lemma_read_one(s, top, 0, 0);
    assert(read_path(s) == read_from(s, top, 1));
    let n = name.len() as int;
    assert(s.skip(n) =~= rest);
    assert(s.subrange(n - 3, n) =~= TMP@);
    if name == ROOT_TMP@ {
        lemma_read_below(s, top, 1, sub, rest);
    } else if name == ROOT_VAR_TMP@ {
        assert(s.subrange(1, 4) =~= VAR@);
        lemma_read_one(s, top, 1, 4);
        lemma_read_below(s, Place::Base(Base::PrivVar), 5, sub, rest);
    } else {
        assert(s.subrange(1, 8) =~= PRIVATE@);
        lemma_read_one(s, top, 1, 8);
        let private = Place::Base(Base::Private);
        assert(read_from(s, top, 1) == read_from(s, private, 9));
        if name == ROOT_PRIVATE_TMP@ {
            lemma_read_below(s, private, 9, sub, rest);
        } else {
            assert(s.subrange(9, 12) =~= VAR@);
            lemma_read_one(s, private, 9, 12);
            lemma_read_below(s, Place::Base(Base::PrivVar), 13, sub, rest);
        }
    }
}

/// A path below any name of a temp root, with no `..` after it, is redirected
/// to the same names below the workspace root, without a question, whatever the
/// kernel; and what is reported for that location is the host's canonical name
/// of the path.
pub proof fn law_map_then_unmap(
    platform: Platform,
    kernel: Kernel,
    root: Seq<u8>,
    name: Seq<u8>,
    sub: TempRoot,
    rest: Seq<u8>,
    cap: int,
    unanswered: Result<Option<Seq<u8>>, i32>,
    result: Result<Option<Seq<u8>>, i32>,
)
    requires
        names_temp_root(name, sub),
        rest.len() > 0 ==> rest[0] == SLASH,
        !components(rest).contains(DOTDOT@),
        name.len() + rest.len() < path_max(platform),
    ensures
        !asks(platform, root, name + rest, cap),
        maps_to(platform, kernel, root, name + rest, cap, result) ==> result == fitted(
            platform,
            root + sub.below_root() + rest,
            cap,
        ),
        lexical_location(platform, root, name + rest, cap, unanswered) == fitted(
            platform,
            root + sub.below_root() + rest,
            cap,
        ),
        host_name_of(root, root + sub.below_root() + rest) == Some(sub.host_name() + rest),
{
    lemma_read_named(name, sub, rest);
    let s = name + rest;
    assert(s[0] == SLASH);
    assert(s.skip(name.len() as int) =~= rest);
    let location = root + sub.below_root() + rest;
    let below = location.skip(root.len() as int);
    assert(below =~= sub.below_root() + rest);
    assert(root.is_prefix_of(location));
    assert(location[root.len() as int] == SLASH);
    assert(rest_after(location, root) == Some(below));
    assert(sub.below_root().is_prefix_of(below));
    let tail = below.skip(sub.below_root().len() as int);
    assert(tail =~= rest);
    assert(rest_after(below, sub.below_root()) == Some(rest));
    if sub == TempRoot::Tmp {
        assert(below[1] == 116);
        assert(ROOT_VAR_TMP@[1] == 118);
        if ROOT_VAR_TMP@.is_prefix_of(below) {
            assert(below.subrange(0, 8)[1] == ROOT_VAR_TMP@[1]);
        }
    }
}

/// A path with no `..` is mapped without a question.
pub proof fn law_plain_asks_nothing(platform: Platform, root: Seq<u8>, path: Seq<u8>, cap: int)
    requires
        !components(path).contains(DOTDOT@),
    ensures
        !asks(platform, root, path, cap),
{
    lemma_read_plain(path, Place::Base(Base::Root), 0);
}

/// Components without a `tmp` need no kernel and reach no temp root.
proof fn lemma_read_without_tmp(s: Seq<u8>, place: Place, pos: int)
    requires
        0 <= pos <= s.len(),
        place !is Temp,
        !components_from(s, pos).contains(TMP@),
    ensures
        read_from(s, place, pos) is Done,
        read_from(s, place, pos)->Done_0 !is Temp,
    decreases s.len() - pos,
{
    lemma_component_end(s, pos);
    let end = component_end(s, pos);
    let all = components_from(s, pos);
    assert(all[0] == s.subrange(pos, end));
    assert(all.contains(all[0]));
    if end < s.len() {
        let tail = components_from(s, end + 1);
        assert(!tail.contains(TMP@)) by {
            if tail.contains(TMP@) {
                let i = choose|i: int| 0 <= i < tail.len() && tail[i] == TMP@;
                assert(all[i + 1] == TMP@);
            }
        }
    }
    match move_by(place, s.subrange(pos, end), end, tmp_after(s, end)) {
        Move::Ask { .. } => {},
        Move::To(next) => {
            if end < s.len() {
                lemma_read_without_tmp(s, next, end + 1);
            }
        },
    }
}

/// A path with no component `tmp` is used unchanged, without a question.
pub proof fn law_no_tmp_unchanged(
    platform: Platform,
    kernel: Kernel,
    root: Seq<u8>,
    path: Seq<u8>,
    cap: int,
    result: Result<Option<Seq<u8>>, i32>,
)
    requires
        !components(path).contains(TMP@),
        maps_to(platform, kernel, root, path, cap, result),
    ensures
        result == Ok::<Option<Seq<u8>>, i32>(None),
        !asks(platform, root, path, cap),
{
    lemma_read_without_tmp(path, Place::Base(Base::Root), 0);
}

/// One location written to equal buffers leaves equal buffers, where nothing
/// else is written.
proof fn lemma_one_buffer(
    before: Seq<u8>,
    a: Seq<u8>,
    ra: Result<Option<usize>, i32>,
    b: Seq<u8>,
    rb: Result<Option<usize>, i32>,
)
    requires
        a.len() == before.len(),
        b.len() == before.len(),
        written(a, ra) == written(b, rb),
        terminated(a, ra),
        terminated(b, rb),
        kept(before, a, ra),
        kept(before, b, rb),
    ensures
        ra == rb,
        a == b,
{
    if let Ok(Some(n)) = ra {
        let m = rb->Ok_0->Some_0;
        assert(a.take(n as int).len() == b.take(m as int).len());
        assert forall|i: int| 0 <= i < a.len() implies a[i] == b[i] by {
            if i < n {
                assert(a.take(n as int)[i] == b.take(n as int)[i]);
            } else if i > n {
                assert(a.skip(n + 1)[i - n - 1] == b.skip(n + 1)[i - n - 1]);
            }
        }
        assert(a =~= b);
    }
}

/// Both names of a temp root lead to one World location: whatever the kernel,
/// mapping the same path below either returns the same and leaves equal buffers
/// equal.
pub proof fn law_both_names(
    platform: Platform,
    kernel: Kernel,
    root: Seq<u8>,
    sub: TempRoot,
    one: Seq<u8>,
    other: Seq<u8>,
    rest: Seq<u8>,
    before: Seq<u8>,
    out1: Seq<u8>,
    r1: Result<Option<usize>, i32>,
    out2: Seq<u8>,
    r2: Result<Option<usize>, i32>,
)
    requires
        names_temp_root(one, sub),
        names_temp_root(other, sub),
        rest.len() > 0 ==> rest[0] == SLASH,
        !components(rest).contains(DOTDOT@),
        one.len() + rest.len() < path_max(platform),
        other.len() + rest.len() < path_max(platform),
        maps_in(platform, kernel, root, one + rest, before, out1, r1),
        maps_in(platform, kernel, root, other + rest, before, out2, r2),
    ensures
        r1 == r2,
        out1 == out2,
{
    lemma_read_named(one, sub, rest);
    lemma_read_named(other, sub, rest);
    assert((one + rest)[0] == SLASH && (other + rest)[0] == SLASH);
    assert((one + rest).skip(one.len() as int) =~= rest);
    assert((other + rest).skip(other.len() as int) =~= rest);
    lemma_one_buffer(before, out1, r1, out2, r2);
}

/// A symlink target about which no kernel is asked is mapped as any other path
/// is, whatever the kernel; one about which it would be asked is stored
/// verbatim. Too long a text is the only error.
pub proof fn law_target_agrees(
    platform: Platform,
    kernel: Kernel,
    root: Seq<u8>,
    target: Seq<u8>,
    before: Seq<u8>,
    out0: Seq<u8>,
    r0: Result<Option<usize>, i32>,
    out: Seq<u8>,
    r: Result<Option<usize>, i32>,
)
    requires
        maps_in(platform, kernel, root, target, before, out0, r0),
        maps_lexically(platform, root, target, Ok(None), before, out, r),
    ensures
        asks(platform, root, target, before.len() as int) ==> r == Ok::<Option<usize>, i32>(None),
        !asks(platform, root, target, before.len() as int) ==> r == r0 && out == out0,
        r matches Err(errno) ==> errno == too_long(platform),
{
    if !asks(platform, root, target, before.len() as int) {
        lemma_one_buffer(before, out0, r0, out, r);
    }
}

/// A directory may serve as a root exactly where the names that lead to it are
/// names, without a zero byte, of eight to five hundred and twelve bytes with
/// their slashes, and lead to neither of the host's temp directories or below,
/// under none of their names.
pub proof fn law_root_is_valid(names: Seq<Seq<u8>>)
    requires
        slash_free(names),
        names.len() > 0,
    ensures
        is_valid_root(slashed(names)) <==> {
            let starts = |top: Seq<Seq<u8>>|
                top.len() <= names.len() && forall|i: int|
                    0 <= i < top.len() ==> #[trigger] top[i] == names[i];
            let tmp = seq![116u8, 109, 112];
            let var = seq![118u8, 97, 114];
            let private = seq![112u8, 114, 105, 118, 97, 116, 101];
            &&& 8 <= slashed(names).len() <= 512
            &&& !slashed(names).contains(0u8)
            &&& forall|i: int|
                0 <= i < names.len() ==> (#[trigger] names[i]).len() > 0 && names[i] != seq![46u8]
                    && names[i] != seq![46u8, 46]
            &&& !starts(seq![tmp])
            &&& !starts(seq![var, tmp])
            &&& !starts(seq![private, tmp])
            &&& !starts(seq![private, var, tmp])
        },
{
    let root = slashed(names);
    let tmp = seq![116u8, 109, 112];
    let var = seq![118u8, 97, 114];
    let private = seq![112u8, 114, 105, 118, 97, 116, 101];
    assert(DOT@ =~= seq![46u8] && DOTDOT@ =~= seq![46u8, 46]);
    lemma_slashed_starts(names);
    lemma_slashed_components(names);
    lemma_components_suffix(root, 1);
    let none = Seq::<u8>::empty();
    assert(!none.contains(SLASH));
    lemma_components_single(none);
    lemma_components_split(none, root.skip(1));
    assert(none + seq![SLASH] + root.skip(1) =~= root);
    assert((seq![none] + components(root.skip(1))).skip(1) =~= components(root.skip(1)));
    assert((seq![none] + names).skip(1) =~= names);
    assert(components_from(root, 1) == names);
    lemma_starts_with_names(names, seq![tmp], ROOT_TMP@);
    lemma_starts_with_names(names, seq![var, tmp], ROOT_VAR_TMP@);
    lemma_starts_with_names(names, seq![private, tmp], ROOT_PRIVATE_TMP@);
    lemma_starts_with_names(names, seq![private, var, tmp], ROOT_PRIVATE_VAR_TMP@);
    let ok = forall|i: int|
        0 <= i < names.len() ==> (#[trigger] names[i]).len() > 0 && names[i] != seq![46u8]
            && names[i] != seq![46u8, 46];
    let all = forall|i: int| 0 <= i < names.len() ==> is_name(#[trigger] names[i]);
    assert(ok ==> all);
    if all {
        assert forall|i: int| 0 <= i < names.len() implies (#[trigger] names[i]).len() > 0
            && names[i] != seq![46u8] && names[i] != seq![46u8, 46] by {
            assert(is_name(names[i]));
        }
        assert(is_name(names[names.len() - 1]));
        let end = names.last();
        assert(!names[names.len() - 1].contains(SLASH));
        assert(root.last() == end.last());
        assert(end.contains(end.last()));
    }
}

proof fn lemma_starts_with_names(names: Seq<Seq<u8>>, top: Seq<Seq<u8>>, text: Seq<u8>)
    requires
        slash_free(names),
        0 < top.len() <= 3,
        forall|i: int|
            0 <= i < top.len() ==> #[trigger] top[i] == seq![116u8, 109, 112] || top[i]
                == seq![118u8, 97, 114] || top[i] == seq![112u8, 114, 105, 118, 97, 116, 101],
        top.len() == 1 ==> text =~= seq![47u8] + top[0],
        top.len() == 2 ==> text =~= seq![47u8] + top[0] + seq![47u8] + top[1],
        top.len() == 3 ==> text =~= seq![47u8] + top[0] + seq![47u8] + top[1] + seq![47u8] + top[2],
    ensures
        rest_after(slashed(names), text) is Some <==> top.len() <= names.len() && forall|i: int|
            0 <= i < top.len() ==> #[trigger] top[i] == names[i],
{
    assert(!seq![116u8, 109, 112].contains(SLASH) && !seq![118u8, 97, 114].contains(SLASH));
    assert(!seq![112u8, 114, 105, 118, 97, 116, 101].contains(SLASH));
    assert(slash_free(top));
    reveal_with_fuel(slashed, 4);
    let none = Seq::<Seq<u8>>::empty();
    if top.len() == 1 {
        assert(top.drop_last() =~= none);
    } else if top.len() == 2 {
        assert(top.drop_last().drop_last() =~= none);
    } else {
        assert(top.drop_last().drop_last().drop_last() =~= none);
    }
    assert(slashed(top) =~= text);
    lemma_rest_after_slashed(names, top);
    if top.is_prefix_of(names) {
        assert forall|i: int| 0 <= i < top.len() implies #[trigger] top[i] == names[i] by {
            assert(names.subrange(0, top.len() as int)[i] == top[i]);
        }
    } else if top.len() <= names.len() && (forall|i: int|
        0 <= i < top.len() ==> #[trigger] top[i] == names[i]) {
        assert(names.subrange(0, top.len() as int) =~= top);
    }
}

} // verus!
