//! What holds of mapping as a whole.
use vstd::prelude::*;
use crate::bytes::{component_end, components, components_from, lemma_component_end, SLASH};
use crate::tmp_path::{is_name, is_valid_root, rest_after, Base, TempRoot, DOT, DOTDOT, PRIVATE, ROOT_PRIVATE_TMP, ROOT_PRIVATE_VAR_TMP, ROOT_TMP, ROOT_VAR_TMP, TMP, VAR};
use crate::tmp_path::host::{host_stack, is_host_stack, is_stack, lemma_components_single, lemma_components_slash_free, lemma_components_split, lemma_components_suffix, lemma_joined_rendered, lemma_names, lemma_parent_of_slashed, lemma_rest_after_slashed, lemma_slashed_append, lemma_slashed_components, lemma_slashed_starts, lemma_walk_append, lemma_walk_down, lemma_walk_first, lemma_walk_host, lemma_walk_up, normalized_host, rendered, slash_free, slashed, step, walk};
use crate::sys::{path_max, too_many_links, Platform};
use crate::tmp_path::map::{after, joined, last_slash, leads_to, maps_to, parent_of, question, rewritten, Kernel};
use crate::tmp_path::round_trip::lemma_read_plain;
use crate::tmp_path::scan::{count_dotdots, dotdots, lemma_read_from_bounds, move_by, read_from, read_path, tmp_after, Move, Place, Reading};
use crate::tmp_path::unmap::{host_name_of, reported_name};

verus! {

/// The names that lead to an aliased directory.
pub open spec fn base_stack(base: Base) -> Seq<Seq<u8>> {
    match base {
        Base::Root => Seq::empty(),
        Base::Private => seq![PRIVATE@],
        Base::PrivVar => seq![PRIVATE@, VAR@],
    }
}

/// The names that lead to a temp root, from the workspace root.
pub open spec fn sub_names(sub: TempRoot) -> Seq<Seq<u8>> {
    match sub {
        TempRoot::Tmp => seq![TMP@],
        TempRoot::VarTmp => seq![VAR@, TMP@],
    }
}

/// The names that lead to a temp root of the host.
pub open spec fn sub_stack(sub: TempRoot) -> Seq<Seq<u8>> {
    seq![PRIVATE@] + sub_names(sub)
}

/// Where a World keeps what the host has at `stack`: below the workspace root
/// `top` when it lies in a temp root.
pub open spec fn relocated(top: Seq<Seq<u8>>, stack: Seq<Seq<u8>>) -> Seq<Seq<u8>> {
    if sub_stack(TempRoot::VarTmp).is_prefix_of(stack) {
        top + sub_names(TempRoot::VarTmp) + stack.skip(3)
    } else if sub_stack(TempRoot::Tmp).is_prefix_of(stack) {
        top + sub_names(TempRoot::Tmp) + stack.skip(2)
    } else {
        stack
    }
}

/// `place` is what the scan makes of a path that leads to `stack`.
spec fn stands(place: Place, stack: Seq<Seq<u8>>) -> bool {
    match place {
        Place::Base(b) => stack == base_stack(b),
        Place::Other { base, depth } => {
            let n = base_stack(base).len() as int;
            &&& depth >= 1
            &&& stack.len() == n + depth
            &&& base_stack(base).is_prefix_of(stack)
            &&& stack[n] != TMP@
            &&& base == Base::Root ==> stack[n] != PRIVATE@
            &&& base != Base::PrivVar ==> stack[n] != VAR@
        },
        Place::Temp { sub, start, depth, named } => {
            &&& sub_stack(sub).is_prefix_of(stack)
            &&& stack.len() == sub_stack(sub).len() + depth
        },
    }
}

proof fn lemma_stands_move(place: Place, stack: Seq<Seq<u8>>, c: Seq<u8>, end: int, tmp_follows: bool)
    requires
        stands(place, stack),
    ensures
        match move_by(place, c, end, tmp_follows) {
            Move::To(next) => stands(next, step(stack, c)),
            Move::Ask { head, start } => {
                &&& c == DOTDOT@
                &&& stack.len() > 0
                &&& match head {
                    Some(sub) => stack == sub_stack(sub) && (place matches Place::Temp {
                        start: from,
                        ..
                    } && from == start),
                    None => place is Other && start == 0,
                }
            },
        },
{
    lemma_names();
    let next = step(stack, c);
    if c.len() == 0 || c == DOT@ {
    } else {
        match place {
            Place::Base(b) => {
                match b {
                    Base::Root => {},
                    Base::Private => {
                        assert(next =~= if c == DOTDOT@ {
                            Seq::empty()
                        } else {
                            seq![PRIVATE@, c]
                        });
                    },
                    Base::PrivVar => {
                        assert(next =~= if c == DOTDOT@ {
                            seq![PRIVATE@]
                        } else {
                            seq![PRIVATE@, VAR@, c]
                        });
                    },
                }
                if b == Base::Root && is_name(c) && c != TMP@ && c != VAR@ {
                    assert(next =~= seq![c]);
                }
                assert(sub_stack(TempRoot::Tmp) =~= seq![PRIVATE@, TMP@]);
                assert(sub_stack(TempRoot::VarTmp) =~= seq![PRIVATE@, VAR@, TMP@]);
            },
            Place::Other { base, depth } => {
                if c == DOTDOT@ && depth <= 1 {
                    assert(next =~= base_stack(base));
                }
            },
            Place::Temp { sub, start, depth, named } => {
                if c == DOTDOT@ && depth == 0 {
                    assert(stack =~= sub_stack(sub));
                    assert(next =~= base_stack(sub.parent()));
                }
            },
        }
    }
}

/// The components of `s` up to `end`, where one of them ends.
spec fn read_all(s: Seq<u8>, end: int) -> Seq<Seq<u8>> {
    if end >= 0 {
        components(s.take(end))
    } else {
        Seq::empty()
    }
}

/// The components of `s` between `start` and `end`, where two of them end.
spec fn read_since(s: Seq<u8>, start: int, end: int) -> Seq<Seq<u8>> {
    if end > start {
        components(s.subrange(start + 1, end))
    } else {
        Seq::empty()
    }
}

proof fn lemma_read_more(s: Seq<u8>, start: int, pos: int, end: int)
    requires
        0 <= pos <= end <= s.len(),
        pos > 0 ==> s[pos - 1] == SLASH,
        end == component_end(s, pos),
        -1 <= start < pos,
        start >= 0 ==> s[start] == SLASH,
    ensures
        read_all(s, end) == read_all(s, pos - 1).push(s.subrange(pos, end)),
        start >= 0 ==> read_since(s, start, end) == read_since(s, start, pos - 1).push(
            s.subrange(pos, end),
        ),
{
    lemma_component_end(s, pos);
    let c = s.subrange(pos, end);
    assert(!c.contains(SLASH));
    lemma_components_single(c);
    if pos > 0 {
        assert(s.take(end) =~= s.take(pos - 1) + seq![SLASH] + c);
        lemma_components_split(s.take(pos - 1), c);
        assert(read_all(s, end) =~= read_all(s, pos - 1).push(c));
    } else {
        assert(s.take(end) =~= c);
        assert(read_all(s, end) =~= read_all(s, pos - 1).push(c));
    }
    if start >= 0 {
        if pos - 1 > start {
            let mid = s.subrange(start + 1, pos - 1);
            assert(s.subrange(start + 1, end) =~= mid + seq![SLASH] + c);
            lemma_components_split(mid, c);
            assert(read_since(s, start, end) =~= read_since(s, start, pos - 1).push(c));
        } else {
            assert(end > start);
            assert(s.subrange(start + 1, end) =~= c);
            assert(read_since(s, start, end) =~= read_since(s, start, pos - 1).push(c));
        }
    }
}

/// What was read below a temp root leads as far below `top`'s own temp root.
spec fn traced(top: Seq<Seq<u8>>, s: Seq<u8>, place: Place, end: int, stack: Seq<Seq<u8>>) -> bool {
    place matches Place::Temp { sub, start, .. } ==> {
        &&& 0 <= start <= end
        &&& start < s.len() ==> s[start] == SLASH
        &&& walk(top + sub_names(sub), read_since(s, start, end)) == top + sub_names(sub)
            + stack.skip(sub_stack(sub).len() as int)
    }
}

proof fn lemma_traced_move(
    top: Seq<Seq<u8>>,
    s: Seq<u8>,
    place: Place,
    pos: int,
    end: int,
    stack: Seq<Seq<u8>>,
)
    requires
        0 <= pos <= end <= s.len(),
        pos > 0 ==> s[pos - 1] == SLASH,
        end == component_end(s, pos),
        stands(place, stack),
        traced(top, s, place, pos - 1, stack),
    ensures
        ({
            let c = s.subrange(pos, end);
            move_by(place, c, end, tmp_after(s, end)) matches Move::To(next) ==> traced(
                top,
                s,
                next,
                end,
                step(stack, c),
            )
        }),
{
    lemma_component_end(s, pos);
    let c = s.subrange(pos, end);
    match move_by(place, c, end, tmp_after(s, end)) {
        Move::Ask { .. } => {},
        Move::To(next) => {
            lemma_stands_move(place, stack, c, end, tmp_after(s, end));
            if let Place::Temp { sub, start, .. } = next {
                let below = top + sub_names(sub);
                let n = sub_stack(sub).len() as int;
                if place is Temp {
                    lemma_read_more(s, start, pos, end);
                    let since = read_since(s, start, pos - 1);
                    let more = read_since(s, start, end);
                    assert(more.drop_last() =~= since);
                    assert(more.last() == c);
                    assert(walk(below, more) == step(below + stack.skip(n), c));
                    let t = stack.skip(n);
                    if c == DOTDOT@ {
                        assert((below + t).drop_last() =~= below + t.drop_last());
                        assert(stack.drop_last().skip(n) =~= t.drop_last());
                    } else if c.len() > 0 && c != DOT@ {
                        assert((below + t).push(c) =~= below + t.push(c));
                        assert(stack.push(c).skip(n) =~= t.push(c));
                    }
                } else {
                    assert(start == end);
                    assert(step(stack, c).skip(n) =~= Seq::<Seq<u8>>::empty());
                    assert(below + step(stack, c).skip(n) =~= below);
                }
            }
        },
    }
}

/// What a reading tells of where the host takes a path.
spec fn means(top: Seq<Seq<u8>>, s: Seq<u8>, reading: Reading) -> bool {
    match reading {
        Reading::Done(last) => stands(last, host_stack(s)) && traced(
            top,
            s,
            last,
            s.len() as int,
            host_stack(s),
        ),
        Reading::Ask { head, start, at, end } => {
            let here = walk(Seq::empty(), read_all(s, at - 1));
            &&& at > 0 ==> s[at - 1] == SLASH
            &&& here.len() > 0
            &&& match head {
                Some(sub) => {
                    &&& here == sub_stack(sub)
                    &&& 0 <= start < at
                    &&& s[start] == SLASH
                    &&& walk(top + sub_names(sub), read_since(s, start, at - 1)) == top + sub_names(
                        sub,
                    )
                },
                None => start == 0 && is_other(here),
            }
        },
    }
}

/// `stack` lies outside every temp root.
spec fn is_other(stack: Seq<Seq<u8>>) -> bool {
    exists|other: Place| other is Other && #[trigger] stands(other, stack)
}

/// What a scan ends with is what the host makes of the path.
proof fn lemma_read_host(top: Seq<Seq<u8>>, s: Seq<u8>, place: Place, pos: int)
    requires
        0 <= pos <= s.len(),
        pos > 0 ==> s[pos - 1] == SLASH,
        stands(place, walk(Seq::empty(), read_all(s, pos - 1))),
        traced(top, s, place, pos - 1, walk(Seq::empty(), read_all(s, pos - 1))),
    ensures
        means(top, s, read_from(s, place, pos)),
    decreases s.len() - pos,
{
    lemma_component_end(s, pos);
    let end = component_end(s, pos);
    let c = s.subrange(pos, end);
    let stack = walk(Seq::empty(), read_all(s, pos - 1));
    lemma_read_more(s, -1, pos, end);
    lemma_stands_move(place, stack, c, end, tmp_after(s, end));
    lemma_traced_move(top, s, place, pos, end, stack);
    let all = read_all(s, end);
    assert(all.drop_last() =~= read_all(s, pos - 1));
    assert(walk(Seq::empty(), all) == step(stack, c));
    match move_by(place, c, end, tmp_after(s, end)) {
        Move::Ask { head, start } => {
            if let Some(sub) = head {
                assert(stack.skip(sub_stack(sub).len() as int) =~= Seq::<Seq<u8>>::empty());
                assert(top + sub_names(sub) + stack.skip(sub_stack(sub).len() as int) =~= top
                    + sub_names(sub));
                assert(0 <= start < pos);
                assert(walk(top + sub_names(sub), read_since(s, start, pos - 1)) == top
                    + sub_names(sub));
            } else {
                assert(place is Other && stands(place, stack));
                assert(is_other(stack));
            }
            assert(means(top, s, Reading::Ask { head, start, at: pos, end }));
        },
        Move::To(next) => {
            if end < s.len() {
                lemma_read_host(top, s, next, end + 1);
            } else {
                assert(s.take(end) =~= s);
            }
        },
    }
}

/// The stack that is reported for a physical one.
spec fn reported_stack(top: Seq<Seq<u8>>, stack: Seq<Seq<u8>>) -> Seq<Seq<u8>> {
    if (top + sub_names(TempRoot::VarTmp)).is_prefix_of(stack) {
        sub_stack(TempRoot::VarTmp) + stack.skip(top.len() as int + 2)
    } else if (top + sub_names(TempRoot::Tmp)).is_prefix_of(stack) {
        sub_stack(TempRoot::Tmp) + stack.skip(top.len() as int + 1)
    } else {
        stack
    }
}

proof fn lemma_texts()
    ensures
        slashed(sub_names(TempRoot::Tmp)) == ROOT_TMP@,
        slashed(sub_names(TempRoot::VarTmp)) == ROOT_VAR_TMP@,
        slashed(sub_stack(TempRoot::Tmp)) == ROOT_PRIVATE_TMP@,
        slashed(sub_stack(TempRoot::VarTmp)) == ROOT_PRIVATE_VAR_TMP@,
        slash_free(sub_names(TempRoot::Tmp)),
        slash_free(sub_names(TempRoot::VarTmp)),
        slash_free(sub_stack(TempRoot::Tmp)),
        slash_free(sub_stack(TempRoot::VarTmp)),
{
    lemma_names();
    let none = Seq::<Seq<u8>>::empty();
    assert(slashed(none) =~= Seq::<u8>::empty());
    let p = seq![PRIVATE@];
    assert(p.drop_last() =~= none);
    assert(slashed(p) =~= seq![SLASH] + PRIVATE@);
    let t = seq![TMP@];
    assert(t.drop_last() =~= none);
    assert(slashed(t) =~= ROOT_TMP@);
    let v = seq![VAR@];
    assert(v.drop_last() =~= none);
    assert(slashed(v) =~= seq![SLASH] + VAR@);
    let vt = seq![VAR@, TMP@];
    assert(vt.drop_last() =~= v);
    assert(slashed(vt) =~= ROOT_VAR_TMP@);
    lemma_slashed_append(p, t);
    lemma_slashed_append(p, vt);
    assert(slashed(p) + slashed(t) =~= ROOT_PRIVATE_TMP@);
    assert(slashed(p) + slashed(vt) =~= ROOT_PRIVATE_VAR_TMP@);
}

proof fn lemma_skip_slash_free(stack: Seq<Seq<u8>>, n: int)
    requires
        slash_free(stack),
        0 <= n <= stack.len(),
    ensures
        slash_free(stack.skip(n)),
{
    assert forall|i: int| 0 <= i < stack.skip(n).len() implies !(#[trigger] stack.skip(
        n,
    )[i]).contains(SLASH) by {
        assert(!stack[n + i].contains(SLASH));
    }
}

/// Reporting a stack's text reports the stack.
#[verifier::spinoff_prover]
proof fn lemma_reported(top: Seq<Seq<u8>>, stack: Seq<Seq<u8>>)
    requires
        slash_free(top),
        slash_free(stack),
    ensures
        reported_name(slashed(top), slashed(stack)) == slashed(reported_stack(top, stack)),
{
    lemma_texts();
    lemma_rest_after_slashed(stack, top);
    let long = sub_names(TempRoot::VarTmp);
    let short = sub_names(TempRoot::Tmp);
    if top.is_prefix_of(stack) {
        let n = top.len() as int;
        let below = stack.skip(n);
        lemma_skip_slash_free(stack, n);
        lemma_rest_after_slashed(below, long);
        lemma_rest_after_slashed(below, short);
        lemma_prefix_below(top, long, stack);
        lemma_prefix_below(top, short, stack);
        if long.is_prefix_of(below) {
            assert(below.skip(2) =~= stack.skip(n + 2));
            lemma_slashed_append(sub_stack(TempRoot::VarTmp), stack.skip(n + 2));
        } else if short.is_prefix_of(below) {
            assert(below.skip(1) =~= stack.skip(n + 1));
            lemma_slashed_append(sub_stack(TempRoot::Tmp), stack.skip(n + 1));
        }
    } else {
        assert(!(top + long).is_prefix_of(stack)) by {
            if (top + long).is_prefix_of(stack) {
                lemma_prefix_of_prefix(top, long, stack);
            }
        }
        assert(!(top + short).is_prefix_of(stack)) by {
            if (top + short).is_prefix_of(stack) {
                lemma_prefix_of_prefix(top, short, stack);
            }
        }
    }
}

proof fn lemma_prefix_of_prefix(a: Seq<Seq<u8>>, b: Seq<Seq<u8>>, s: Seq<Seq<u8>>)
    requires
        (a + b).is_prefix_of(s),
    ensures
        a.is_prefix_of(s),
{
    assert(s.subrange(0, a.len() as int) =~= a) by {
        assert forall|i: int| 0 <= i < a.len() implies s[i] == a[i] by {
            assert(s.subrange(0, (a + b).len() as int)[i] == (a + b)[i]);
        }
    }
}

proof fn lemma_prefix_below(a: Seq<Seq<u8>>, b: Seq<Seq<u8>>, s: Seq<Seq<u8>>)
    requires
        a.is_prefix_of(s),
    ensures
        (a + b).is_prefix_of(s) <==> b.is_prefix_of(s.skip(a.len() as int)),
{
    let n = a.len() as int;
    if b.is_prefix_of(s.skip(n)) {
        assert(s.subrange(0, (a + b).len() as int) =~= a + b) by {
            assert forall|i: int| 0 <= i < (a + b).len() implies s[i] == (a + b)[i] by {
                if i < n {
                    assert(s.subrange(0, n)[i] == a[i]);
                } else {
                    assert(s.skip(n).subrange(0, b.len() as int)[i - n] == b[i - n]);
                }
            }
        }
    }
    if (a + b).is_prefix_of(s) {
        assert(s.skip(n).subrange(0, b.len() as int) =~= b) by {
            assert forall|i: int| 0 <= i < b.len() implies s.skip(n)[i] == b[i] by {
                assert(s.subrange(0, (a + b).len() as int)[i + n] == (a + b)[i + n]);
            }
        }
    }
}

/// `stack` is one of the two temp directories of the workspace root.
pub open spec fn is_own_temp(top: Seq<Seq<u8>>, stack: Seq<Seq<u8>>) -> bool {
    stack == top + sub_names(TempRoot::Tmp) || stack == top + sub_names(TempRoot::VarTmp)
}

/// A walk from `stack` along `cs` climbs out of a temp directory of the
/// workspace root with a `..`.
pub open spec fn climbs_from(top: Seq<Seq<u8>>, stack: Seq<Seq<u8>>, cs: Seq<Seq<u8>>) -> bool {
    exists|k: int|
        0 <= k < cs.len() && #[trigger] cs[k] == DOTDOT@ && is_own_temp(top, walk(stack, cs.take(k)))
}

/// `path` enters a temp directory of the workspace root by its physical name,
/// and climbs out of it again. (Of the root `/private` these are the host's own
/// temp directories.)
pub open spec fn climbs_out(root: Seq<u8>, path: Seq<u8>) -> bool {
    host_stack(root) != seq![PRIVATE@] && climbs_from(
        host_stack(root),
        Seq::empty(),
        components(path),
    )
}

/// Below two directories, the same components lead to the same names, as long
/// as no `..` leaves either.
proof fn lemma_walk_below(
    top: Seq<Seq<u8>>,
    sub: TempRoot,
    t: Seq<Seq<u8>>,
    cs: Seq<Seq<u8>>,
) -> (u: Seq<Seq<u8>>)
    requires
        !climbs_from(top, top + sub_names(sub) + t, cs),
    ensures
        walk(top + sub_names(sub) + t, cs) == top + sub_names(sub) + u,
        walk(sub_stack(sub) + t, cs) == sub_stack(sub) + u,
    decreases cs.len(),
{
    let a = top + sub_names(sub);
    let b = sub_stack(sub);
    if cs.len() == 0 {
        t
    } else {
        let shorter = cs.drop_last();
        let c = cs.last();
        assert(!climbs_from(top, a + t, shorter)) by {
            if climbs_from(top, a + t, shorter) {
                let k = choose|k: int|
                    0 <= k < shorter.len() && #[trigger] shorter[k] == DOTDOT@ && is_own_temp(
                        top,
                        walk(a + t, shorter.take(k)),
                    );
                assert(cs[k] == DOTDOT@);
                assert(shorter.take(k) =~= cs.take(k));
            }
        }
        let u = lemma_walk_below(top, sub, t, shorter);
        if c.len() == 0 || c == DOT@ {
            u
        } else if c == DOTDOT@ {
            if u.len() == 0 {
                let k = cs.len() - 1;
                assert(cs[k] == DOTDOT@);
                assert(cs.take(k) =~= shorter);
                assert(a + u =~= a);
                assert(is_own_temp(top, walk(a + t, cs.take(k))));
                assert(climbs_from(top, a + t, cs));
            }
            assert((a + u).drop_last() =~= a + u.drop_last());
            assert((b + u).drop_last() =~= b + u.drop_last());
            u.drop_last()
        } else {
            assert((a + u).push(c) =~= a + u.push(c));
            assert((b + u).push(c) =~= b + u.push(c));
            u.push(c)
        }
    }
}

/// `stack` lies in no temp root of the host.
pub open spec fn outside(stack: Seq<Seq<u8>>) -> bool {
    !sub_stack(TempRoot::VarTmp).is_prefix_of(stack) && !sub_stack(TempRoot::Tmp).is_prefix_of(
        stack,
    )
}

proof fn lemma_stands_relocated(top: Seq<Seq<u8>>, place: Place, stack: Seq<Seq<u8>>)
    requires
        stands(place, stack),
    ensures
        match place {
            Place::Temp { sub, .. } => relocated(top, stack) == top + sub_names(sub) + stack.skip(
                sub_stack(sub).len() as int,
            ),
            _ => outside(stack),
        },
{
    lemma_names();
    let long = sub_stack(TempRoot::VarTmp);
    let short = sub_stack(TempRoot::Tmp);
    assert(long =~= seq![PRIVATE@, VAR@, TMP@]);
    assert(short =~= seq![PRIVATE@, TMP@]);
    if long.is_prefix_of(stack) {
        assert(stack.subrange(0, 3)[0] == PRIVATE@);
        assert(stack.subrange(0, 3)[1] == VAR@);
        assert(stack.subrange(0, 3)[2] == TMP@);
    }
    if short.is_prefix_of(stack) {
        assert(stack.subrange(0, 2)[0] == PRIVATE@);
        assert(stack.subrange(0, 2)[1] == TMP@);
    }
    match place {
        Place::Base(b) => {},
        Place::Other { base, depth } => {
            let n = base_stack(base).len() as int;
            if base != Base::Root {
                assert(stack.subrange(0, n)[0] == base_stack(base)[0]);
            }
            if base == Base::PrivVar {
                assert(stack.subrange(0, n)[1] == base_stack(base)[1]);
            }
        },
        Place::Temp { sub, .. } => {},
    }
}

/// A `..` parts a path into what leads to it and what follows.
proof fn lemma_parted(s: Seq<u8>, at: int, end: int)
    requires
        0 < at <= end <= s.len(),
        s[at - 1] == SLASH,
        end == component_end(s, at),
        s.subrange(at, end) == DOTDOT@,
    ensures
        ({
            let before = read_all(s, at - 1);
            let rest = components(after(s, end));
            &&& host_stack(s) == walk(step(walk(Seq::empty(), before), DOTDOT@), rest)
            &&& components(s) == before.push(DOTDOT@) + if end < s.len() {
                rest
            } else {
                Seq::empty()
            }
            &&& end >= s.len() ==> rest == seq![Seq::<u8>::empty()]
        }),
{
    lemma_read_more(s, -1, at, end);
    let before = read_all(s, at - 1);
    let upto = before.push(DOTDOT@);
    assert(upto.drop_last() =~= before);
    let none = Seq::<Seq<u8>>::empty();
    assert(walk(none, upto) == step(walk(none, before), DOTDOT@));
    if end < s.len() {
        lemma_component_end(s, at);
        assert(s =~= s.take(end) + seq![SLASH] + s.skip(end + 1));
        lemma_components_split(s.take(end), s.skip(end + 1));
        lemma_walk_append(none, upto, components(s.skip(end + 1)));
    } else {
        assert(s.take(end) =~= s);
        let e = Seq::<u8>::empty();
        assert(!e.contains(SLASH));
        lemma_components_single(e);
        let w = walk(none, upto);
        lemma_walk_first(w, e, none);
        assert(upto + Seq::<Seq<u8>>::empty() =~= upto);
    }
}

/// Where the text leads that a rewriting leaves.
proof fn lemma_next(dir: Seq<Seq<u8>>, rest: Seq<u8>)
    requires
        is_host_stack(dir),
    ensures
        ({
            let next = joined(rendered(dir), rest);
            let head = seq![Seq::<u8>::empty()] + dir;
            &&& components(next) == head + components(rest)
            &&& walk(Seq::empty(), head) == dir
            &&& host_stack(next) == walk(dir, components(rest))
            &&& next.len() > 0
            &&& next[0] == SLASH
        }),
{
    lemma_joined_rendered(dir, rest);
    let none = Seq::<Seq<u8>>::empty();
    let e = Seq::<u8>::empty();
    let head = seq![e] + dir;
    lemma_walk_first(none, e, dir);
    lemma_walk_down(dir);
    lemma_walk_append(none, head, components(rest));
    if dir.len() > 0 {
        lemma_slashed_starts(dir);
    }
}

/// A rewriting adds no climb out of the workspace's own temp directories.
proof fn lemma_next_climbs(
    top: Seq<Seq<u8>>,
    cs: Seq<Seq<u8>>,
    before: Seq<Seq<u8>>,
    dir: Seq<Seq<u8>>,
    rest: Seq<Seq<u8>>,
    k: int,
)
    requires
        is_stack(dir),
        is_host_stack(dir),
        walk(Seq::empty(), before) == dir,
        cs == before + rest || (cs == before && rest == seq![Seq::<u8>::empty()]),
        0 <= k < (seq![Seq::<u8>::empty()] + dir + rest).len(),
        (seq![Seq::<u8>::empty()] + dir + rest)[k] == DOTDOT@,
        is_own_temp(
            top,
            walk(Seq::empty(), (seq![Seq::<u8>::empty()] + dir + rest).take(k)),
        ),
    ensures
        climbs_from(top, Seq::empty(), cs),
{
    let none = Seq::<Seq<u8>>::empty();
    let e = Seq::<u8>::empty();
    let head = seq![e] + dir;
    let n = head.len() as int;
    let all = head + rest;
    lemma_names();
    if k < n {
        if k > 0 {
            assert(all[k] == dir[k - 1]);
            assert(is_name(dir[k - 1]));
        }
        assert(false);
    }
    let j = k - n;
    assert(all[k] == rest[j]);
    if cs == before {
        assert(rest[j] == e);
        assert(false);
    }
    assert(all.take(k) =~= head + rest.take(j));
    lemma_walk_first(none, e, dir);
    lemma_walk_down(dir);
    lemma_walk_append(none, head, rest.take(j));
    let m = before.len() + j;
    assert(cs[m] == rest[j]);
    assert(cs.take(m) =~= before + rest.take(j));
    lemma_walk_append(none, before, rest.take(j));
}

/// A climb in what follows is a climb in the whole.
proof fn lemma_climbs_later(top: Seq<Seq<u8>>, before: Seq<Seq<u8>>, rest: Seq<Seq<u8>>)
    requires
        climbs_from(top, walk(Seq::empty(), before), rest),
    ensures
        climbs_from(top, Seq::empty(), before + rest),
{
    let here = walk(Seq::<Seq<u8>>::empty(), before);
    let k = choose|k: int|
        0 <= k < rest.len() && #[trigger] rest[k] == DOTDOT@ && is_own_temp(
            top,
            walk(here, rest.take(k)),
        );
    let cs = before + rest;
    let m = before.len() + k;
    assert(cs[m] == rest[k]);
    assert(cs.take(m) =~= before + rest.take(k));
    lemma_walk_append(Seq::empty(), before, rest.take(k));
}

/// A directory below a temp root of the host is no temp directory of the
/// workspace root, unless it is the temp root itself.
proof fn lemma_coincide(top: Seq<Seq<u8>>, sub: TempRoot, own: TempRoot, u: Seq<Seq<u8>>)
    requires
        sub_stack(sub) + u == top + sub_names(own),
        outside(top),
        top.len() > 0,
        top != seq![PRIVATE@],
    ensures
        u.len() == 0,
{
    lemma_names();
    let a = sub_stack(sub) + u;
    let b = top + sub_names(own);
    assert(sub_stack(TempRoot::VarTmp) =~= seq![PRIVATE@, VAR@, TMP@]);
    assert(sub_stack(TempRoot::Tmp) =~= seq![PRIVATE@, TMP@]);
    let n = sub_stack(sub).len() as int;
    if top.len() >= n {
        assert(top.subrange(0, n) =~= sub_stack(sub)) by {
            assert forall|i: int| 0 <= i < n implies top[i] == sub_stack(sub)[i] by {
                assert(a[i] == b[i]);
            }
        }
        assert(sub_stack(sub).is_prefix_of(top));
        assert(false) by {
            match sub {
                TempRoot::Tmp => {},
                TempRoot::VarTmp => {},
            }
        }
    } else if top.len() == 1 {
        assert(a[0] == b[0]);
        assert(top =~= seq![PRIVATE@]);
        assert(false);
    } else {
        assert(a.len() == n + u.len());
        assert(b.len() == top.len() + sub_names(own).len());
        assert(a[2] == b[2]);
        assert(own == TempRoot::Tmp);
        assert(a.len() == b.len());
        assert(sub_names(own).len() == 1);
        assert(n == 3);
    }
}

/// A question that was asked from within the workspace's own temp directories:
/// the rewritten text leads to the same place of the World, and climbs out of
/// none of them.
proof fn lemma_next_inside(
    top: Seq<Seq<u8>>,
    sub: TempRoot,
    t: Seq<Seq<u8>>,
    cs: Seq<Seq<u8>>,
    before: Seq<Seq<u8>>,
    rest: Seq<Seq<u8>>,
) -> (u: Seq<Seq<u8>>)
    requires
        is_stack(top),
        is_stack(t),
        outside(top),
        top.len() > 0,
        top != seq![PRIVATE@],
        walk(Seq::empty(), before) == top + sub_names(sub) + t,
        cs == before + rest || (cs == before && rest == seq![Seq::<u8>::empty()]),
        !climbs_from(top, Seq::empty(), cs),
    ensures
        walk(top + sub_names(sub) + t, rest) == top + sub_names(sub) + u,
        walk(sub_stack(sub) + t, rest) == sub_stack(sub) + u,
        !climbs_from(
            top,
            Seq::empty(),
            seq![Seq::<u8>::empty()] + (sub_stack(sub) + t) + rest,
        ),
{
    let none = Seq::<Seq<u8>>::empty();
    let e = Seq::<u8>::empty();
    let from = top + sub_names(sub) + t;
    let dir = sub_stack(sub) + t;
    let head = seq![e] + dir;
    let all = head + rest;
    lemma_names();
    assert(is_host_stack(dir)) by {
        assert(dir[0] == PRIVATE@);
        assert forall|i: int| 0 <= i < dir.len() implies is_name(#[trigger] dir[i])
            && !dir[i].contains(SLASH) by {
            let n = sub_stack(sub).len() as int;
            if i >= n {
                assert(dir[i] == t[i - n]);
            }
        }
    }
    assert(!climbs_from(top, from, rest)) by {
        if climbs_from(top, from, rest) {
            if cs == before {
                let k = choose|k: int|
                    0 <= k < rest.len() && #[trigger] rest[k] == DOTDOT@ && is_own_temp(
                        top,
                        walk(from, rest.take(k)),
                    );
                assert(rest[k] == e);
            } else {
                lemma_climbs_later(top, before, rest);
            }
        }
    }
    assert(!climbs_from(top, none, all)) by {
        if climbs_from(top, none, all) {
            let k = choose|k: int|
                0 <= k < all.len() && #[trigger] all[k] == DOTDOT@ && is_own_temp(
                    top,
                    walk(none, all.take(k)),
                );
            let n = head.len() as int;
            if k < n {
                if k > 0 {
                    assert(all[k] == dir[k - 1]);
                    assert(is_name(dir[k - 1]));
                }
                assert(false);
            }
            let j = k - n;
            assert(all[k] == rest[j]);
            assert(all.take(k) =~= head + rest.take(j));
            lemma_walk_first(none, e, dir);
            lemma_walk_down(dir);
            lemma_walk_append(none, head, rest.take(j));
            assert(!climbs_from(top, from, rest.take(j))) by {
                if climbs_from(top, from, rest.take(j)) {
                    let part = rest.take(j);
                    let i = choose|i: int|
                        0 <= i < part.len() && #[trigger] part[i] == DOTDOT@ && is_own_temp(
                            top,
                            walk(from, part.take(i)),
                        );
                    assert(rest[i] == DOTDOT@);
                    assert(part.take(i) =~= rest.take(i));
                }
            }
            let v = lemma_walk_below(top, sub, t, rest.take(j));
            if sub_stack(sub) + v == top + sub_names(TempRoot::Tmp) {
                lemma_coincide(top, sub, TempRoot::Tmp, v);
            } else {
                lemma_coincide(top, sub, TempRoot::VarTmp, v);
            }
            assert(top + sub_names(sub) + v =~= top + sub_names(sub));
            assert(is_own_temp(top, walk(from, rest.take(j))));
            assert(rest[j] == DOTDOT@);
        }
    }
    lemma_walk_below(top, sub, t, rest)
}

/// A host without symlinks of its own, but for those of `/tmp` and `/var`: what
/// it answers, if it does, is the canonical name of what it was asked about.
pub open spec fn is_plain_host(kernel: Kernel) -> bool {
    forall|q: Seq<u8>, t: Seq<u8>| #[trigger]
        kernel(q, Ok::<Seq<u8>, i32>(t)) ==> t == normalized_host(q.drop_last())
}

/// Slashes at the end of a path change nothing.
proof fn lemma_trailing_slash(a: Seq<u8>)
    ensures
        host_stack(a + seq![SLASH]) == host_stack(a),
{
    let e = Seq::<u8>::empty();
    let none = Seq::<Seq<u8>>::empty();
    assert(!e.contains(SLASH));
    lemma_components_single(e);
    lemma_components_split(a, e);
    assert(a + seq![SLASH] + e =~= a + seq![SLASH]);
    lemma_walk_append(none, components(a), seq![e]);
    lemma_walk_first(host_stack(a), e, none);
}

/// What a plain host answers about a `..` that leaves a name.
proof fn lemma_answer_other(root: Seq<u8>, s: Seq<u8>, at: int)
    requires
        0 < at <= s.len(),
        s[at - 1] == SLASH,
    ensures
        normalized_host(question(root, s, None, 0, at).drop_last()) == rendered(
            walk(Seq::empty(), read_all(s, at - 1)),
        ),
{
    let q = question(root, s, None, 0, at);
    let text = s.take(at - 1);
    assert(q.drop_last() =~= text + seq![SLASH] + seq![SLASH]);
    lemma_trailing_slash(text + seq![SLASH]);
    lemma_trailing_slash(text);
}

/// Where the text leads that lies below a temp directory of the workspace root.
proof fn lemma_below_own(root: Seq<u8>, sub: TempRoot, rest: Seq<u8>)
    requires
        is_host_stack(host_stack(root)),
        host_stack(root).len() > 0,
        root == slashed(host_stack(root)),
    ensures
        host_stack(root + sub.below_root()) == host_stack(root) + sub_names(sub),
        host_stack(root + sub.below_root() + seq![SLASH] + rest) == walk(
            host_stack(root) + sub_names(sub),
            components(rest),
        ),
{
    let top = host_stack(root);
    let none = Seq::<Seq<u8>>::empty();
    let e = Seq::<u8>::empty();
    let own = top + sub_names(sub);
    lemma_texts();
    lemma_names();
    lemma_slashed_append(top, sub_names(sub));
    assert(is_host_stack(own)) by {
        assert forall|i: int| 0 <= i < own.len() implies is_name(#[trigger] own[i])
            && !own[i].contains(SLASH) by {
            if i < top.len() {
                assert(is_name(top[i]) && !top[i].contains(SLASH));
            }
        }
        assert(own[0] == top[0]);
    }
    assert(slash_free(own)) by {
        assert forall|i: int| 0 <= i < own.len() implies !(#[trigger] own[i]).contains(SLASH) by {
            assert(is_name(own[i]) && !own[i].contains(SLASH));
        }
    }
    lemma_slashed_components(own);
    lemma_walk_first(none, e, own);
    lemma_walk_down(own);
    lemma_components_split(root + sub.below_root(), rest);
    lemma_walk_append(none, components(root + sub.below_root()), components(rest));
}

/// What a plain host answers about a `..` that leaves a temp root.
proof fn lemma_answer_temp(root: Seq<u8>, s: Seq<u8>, sub: TempRoot, start: int, at: int)
    requires
        is_host_stack(host_stack(root)),
        host_stack(root).len() > 0,
        root == slashed(host_stack(root)),
        0 <= start < at <= s.len(),
        s[start] == SLASH,
        s[at - 1] == SLASH,
        walk(host_stack(root) + sub_names(sub), read_since(s, start, at - 1)) == host_stack(root)
            + sub_names(sub),
    ensures
        normalized_host(question(root, s, Some(sub), start, at).drop_last()) == slashed(
            host_stack(root) + sub_names(sub),
        ),
{
    let q = question(root, s, Some(sub), start, at);
    let own = root + sub.below_root();
    if at - 1 > start {
        let mid = s.subrange(start + 1, at - 1);
        let text = own + seq![SLASH] + mid;
        assert(q.drop_last() =~= text + seq![SLASH] + seq![SLASH]);
        lemma_trailing_slash(text + seq![SLASH]);
        lemma_trailing_slash(text);
        lemma_below_own(root, sub, mid);
    } else {
        assert(q.drop_last() =~= own + seq![SLASH] + seq![SLASH]);
        lemma_trailing_slash(own + seq![SLASH]);
        lemma_trailing_slash(own);
        lemma_below_own(root, sub, Seq::empty());
    }
}

/// A valid root that is its own canonical name, as a stack.
proof fn lemma_root_stack(root: Seq<u8>)
    requires
        is_valid_root(root),
        normalized_host(root) == root,
    ensures
        is_host_stack(host_stack(root)),
        host_stack(root).len() > 0,
        root == slashed(host_stack(root)),
        slash_free(host_stack(root)),
        outside(host_stack(root)),
{
    let top = host_stack(root);
    lemma_components_slash_free(root);
    lemma_walk_host(Seq::empty(), components(root));
    if top.len() == 0 {
        assert(root.len() == 1);
    }
    assert(slash_free(top)) by {
        assert forall|i: int| 0 <= i < top.len() implies !(#[trigger] top[i]).contains(SLASH) by {
            assert(is_name(top[i]) && !top[i].contains(SLASH));
        }
    }
    lemma_texts();
    lemma_rest_after_slashed(top, sub_stack(TempRoot::Tmp));
    lemma_rest_after_slashed(top, sub_stack(TempRoot::VarTmp));
}

/// Every entry of a stack of names is free of slashes.
proof fn lemma_stack_slash_free(stack: Seq<Seq<u8>>)
    requires
        is_stack(stack),
    ensures
        slash_free(stack),
{
    assert forall|i: int| 0 <= i < stack.len() implies !(#[trigger] stack[i]).contains(SLASH) by {
        assert(is_name(stack[i]) && !stack[i].contains(SLASH));
    }
}

proof fn lemma_stack_drop_last(stack: Seq<Seq<u8>>)
    requires
        is_host_stack(stack),
        stack.len() > 0,
    ensures
        is_host_stack(stack.drop_last()),
{
    let up = stack.drop_last();
    assert forall|i: int| 0 <= i < up.len() implies is_name(#[trigger] up[i]) && !up[i].contains(
        SLASH,
    ) by {
        assert(is_name(stack[i]) && !stack[i].contains(SLASH));
    }
}

proof fn lemma_stack_join(a: Seq<Seq<u8>>, b: Seq<Seq<u8>>)
    requires
        is_host_stack(a),
        a.len() > 0,
        is_stack(b),
    ensures
        is_host_stack(a + b),
{
    let c = a + b;
    assert forall|i: int| 0 <= i < c.len() implies is_name(#[trigger] c[i]) && !c[i].contains(
        SLASH,
    ) by {
        if i < a.len() {
            assert(is_name(a[i]) && !a[i].contains(SLASH));
        } else {
            assert(is_name(b[i - a.len()]) && !b[i - a.len()].contains(SLASH));
        }
    }
    assert(c[0] == a[0]);
}

proof fn lemma_sub_stacks(sub: TempRoot)
    ensures
        is_stack(sub_names(sub)),
        is_host_stack(sub_stack(sub)),
        sub_stack(sub).len() == 1 + sub_names(sub).len(),
{
    lemma_names();
}

/// The physical place that a question is about.
spec fn asked_place(root: Seq<u8>, here: Seq<Seq<u8>>, head: Option<TempRoot>) -> Seq<Seq<u8>> {
    match head {
        Some(sub) => host_stack(root) + sub_names(sub),
        None => here,
    }
}

/// What a plain host answers is reported as the stack that was asked about.
proof fn lemma_answered(root: Seq<u8>, s: Seq<u8>, head: Option<TempRoot>, start: int, at: int, end: int)
    requires
        is_valid_root(root),
        normalized_host(root) == root,
        0 < at <= end <= s.len(),
        means(host_stack(root), s, Reading::Ask { head, start, at, end }),
    ensures
        ({
            let top = host_stack(root);
            let here = walk(Seq::empty(), read_all(s, at - 1));
            let answer = normalized_host(question(root, s, head, start, at).drop_last());
            &&& is_host_stack(here)
            &&& reported_name(root, answer) == slashed(
                reported_stack(top, asked_place(root, here, head)),
            )
        }),
{
    let none = Seq::<Seq<u8>>::empty();
    let top = host_stack(root);
    let before = read_all(s, at - 1);
    let here = walk(none, before);
    lemma_root_stack(root);
    lemma_components_slash_free(s.take(at - 1));
    lemma_walk_host(none, before);
    let physical = asked_place(root, here, head);
    match head {
        Some(sub) => {
            lemma_answer_temp(root, s, sub, start, at);
            lemma_sub_stacks(sub);
            lemma_stack_join(top, sub_names(sub));
        },
        None => {
            lemma_answer_other(root, s, at);
        },
    }
    lemma_stack_slash_free(physical);
    lemma_reported(top, physical);
}

/// A rewriting with a plain host's answer leads to the same place of the World.
proof fn lemma_rewriting(root: Seq<u8>, s: Seq<u8>, head: Option<TempRoot>, start: int, at: int, end: int)
    requires
        is_valid_root(root),
        normalized_host(root) == root,
        0 < at <= end <= s.len(),
        end == component_end(s, at),
        s.subrange(at, end) == DOTDOT@,
        means(host_stack(root), s, Reading::Ask { head, start, at, end }),
        !climbs_out(root, s),
    ensures
        ({
            let answer = normalized_host(question(root, s, head, start, at).drop_last());
            let next = joined(parent_of(reported_name(root, answer)), after(s, end));
            &&& next.len() > 0
            &&& next[0] == SLASH
            &&& !climbs_out(root, next)
            &&& same_place(root, s, next)
        }),
{
    let none = Seq::<Seq<u8>>::empty();
    let top = host_stack(root);
    let before = read_all(s, at - 1);
    let here = walk(none, before);
    lemma_answered(root, s, head, start, at, end);
    let host = reported_stack(top, asked_place(root, here, head));
    if host == here {
        lemma_parent_of_slashed(here);
        lemma_rewriting_same(root, s, at, end);
    } else {
        let sub = lemma_renamed(root, s, head, start, at, asked_place(root, here, head));
        lemma_rewriting_renamed(root, s, sub, at, end);
    }
}

/// Two paths lead to one place of the World, and if the second is not
/// redirected, neither is the first.
spec fn same_place(root: Seq<u8>, s: Seq<u8>, next: Seq<u8>) -> bool {
    &&& relocated(host_stack(root), host_stack(next)) == relocated(host_stack(root), host_stack(s))
    &&& outside(host_stack(next)) ==> outside(host_stack(s))
}

proof fn lemma_rewriting_same(root: Seq<u8>, s: Seq<u8>, at: int, end: int)
    requires
        0 < at <= end <= s.len(),
        s[at - 1] == SLASH,
        end == component_end(s, at),
        s.subrange(at, end) == DOTDOT@,
        is_host_stack(walk(Seq::empty(), read_all(s, at - 1))),
        walk(Seq::empty(), read_all(s, at - 1)).len() > 0,
        !climbs_out(root, s),
    ensures
        ({
            let up = walk(Seq::empty(), read_all(s, at - 1)).drop_last();
            let next = joined(rendered(up), after(s, end));
            &&& next.len() > 0
            &&& next[0] == SLASH
            &&& !climbs_out(root, next)
            &&& same_place(root, s, next)
        }),
{
    let none = Seq::<Seq<u8>>::empty();
    let top = host_stack(root);
    let before = read_all(s, at - 1);
    let here = walk(none, before);
    let up = here.drop_last();
    let cs = before.push(DOTDOT@);
    let rest = after(s, end);
    let parts = components(rest);
    lemma_names();
    lemma_parted(s, at, end);
    lemma_stack_drop_last(here);
    lemma_walk_up(none, before);
    assert(walk(none, cs) == up);
    lemma_next(up, rest);
    let next = joined(rendered(up), rest);
    let all = seq![Seq::<u8>::empty()] + up + parts;
    if climbs_out(root, next) {
        let k = choose|k: int|
            0 <= k < all.len() && #[trigger] all[k] == DOTDOT@ && is_own_temp(
                top,
                walk(none, all.take(k)),
            );
        if end >= s.len() {
            assert(cs + none =~= cs);
        }
        lemma_next_climbs(top, components(s), cs, up, parts, k);
    }
}

/// Where a question in a temp directory of the workspace root lies below it: a
/// path that climbs out of none has left its top behind.
proof fn lemma_deep_in_own(root: Seq<u8>, s: Seq<u8>, sub: TempRoot, at: int, end: int) -> (t: Seq<
    Seq<u8>,
>)
    requires
        host_stack(root) != seq![PRIVATE@],
        0 < at <= end <= s.len(),
        s[at - 1] == SLASH,
        end == component_end(s, at),
        s.subrange(at, end) == DOTDOT@,
        is_host_stack(walk(Seq::empty(), read_all(s, at - 1))),
        (host_stack(root) + sub_names(sub)).is_prefix_of(walk(Seq::empty(), read_all(s, at - 1))),
        !climbs_out(root, s),
    ensures
        ({
            let own = host_stack(root) + sub_names(sub);
            let here = walk(Seq::empty(), read_all(s, at - 1));
            let deep = here.skip(own.len() as int);
            &&& here == own + deep
            &&& is_stack(deep)
            &&& deep.len() > 0
            &&& t == deep.drop_last()
            &&& is_stack(t)
            &&& here.drop_last() == own + t
        }),
{
    let none = Seq::<Seq<u8>>::empty();
    let top = host_stack(root);
    let before = read_all(s, at - 1);
    let here = walk(none, before);
    let own = top + sub_names(sub);
    let n = own.len() as int;
    let deep = here.skip(n);
    lemma_parted(s, at, end);
    assert(own + deep =~= here);
    if deep.len() == 0 {
        assert(here =~= own);
        let all = components(s);
        let k = before.len() as int;
        assert(all[k] == DOTDOT@);
        assert(all.take(k) =~= before);
        assert(is_own_temp(top, walk(none, all.take(k))));
        assert(false);
    }
    assert forall|i: int| 0 <= i < deep.len() implies is_name(#[trigger] deep[i])
        && !deep[i].contains(SLASH) by {
        assert(is_name(here[n + i]) && !here[n + i].contains(SLASH));
    }
    let t = deep.drop_last();
    assert forall|i: int| 0 <= i < t.len() implies is_name(#[trigger] t[i])
        && !t[i].contains(SLASH) by {
        assert(is_name(deep[i]) && !deep[i].contains(SLASH));
    }
    assert(here.drop_last() =~= own + t);
    t
}

/// A place in a host temp root and the one in the workspace's that stands for it.
proof fn lemma_relocated_own(root: Seq<u8>, sub: TempRoot, u: Seq<Seq<u8>>)
    requires
        outside(host_stack(root) + sub_names(sub) + u),
    ensures
        relocated(host_stack(root), sub_stack(sub) + u) == relocated(
            host_stack(root),
            host_stack(root) + sub_names(sub) + u,
        ),
{
    let top = host_stack(root);
    let stack = sub_stack(sub) + u;
    let place = Place::Temp { sub, start: 0, depth: u.len(), named: true };
    assert(sub_stack(sub).is_prefix_of(stack));
    lemma_stands_relocated(top, place, stack);
    assert(stack.skip(sub_stack(sub).len() as int) =~= u);
}

#[verifier::spinoff_prover]
proof fn lemma_rewriting_renamed(root: Seq<u8>, s: Seq<u8>, sub: TempRoot, at: int, end: int)
    requires
        is_valid_root(root),
        normalized_host(root) == root,
        host_stack(root) != seq![PRIVATE@],
        0 < at <= end <= s.len(),
        s[at - 1] == SLASH,
        end == component_end(s, at),
        s.subrange(at, end) == DOTDOT@,
        is_host_stack(walk(Seq::empty(), read_all(s, at - 1))),
        is_other(walk(Seq::empty(), read_all(s, at - 1))),
        (host_stack(root) + sub_names(sub)).is_prefix_of(walk(Seq::empty(), read_all(s, at - 1))),
        !climbs_out(root, s),
    ensures
        ({
            let n = (host_stack(root) + sub_names(sub)).len() as int;
            let host = sub_stack(sub) + walk(Seq::empty(), read_all(s, at - 1)).skip(n);
            let next = joined(parent_of(slashed(host)), after(s, end));
            &&& next.len() > 0
            &&& next[0] == SLASH
            &&& !climbs_out(root, next)
            &&& same_place(root, s, next)
        }),
{
    let none = Seq::<Seq<u8>>::empty();
    let top = host_stack(root);
    let before = read_all(s, at - 1);
    let here = walk(none, before);
    let cs = before.push(DOTDOT@);
    let rest = after(s, end);
    let parts = components(rest);
    let own = top + sub_names(sub);
    let deep = here.skip(own.len() as int);
    let host = sub_stack(sub) + deep;
    let t = lemma_deep_in_own(root, s, sub, at, end);
    let dir = sub_stack(sub) + t;
    lemma_root_stack(root);
    lemma_parted(s, at, end);
    lemma_sub_stacks(sub);
    lemma_walk_up(none, before);
    lemma_stack_join(sub_stack(sub), deep);
    lemma_stack_join(sub_stack(sub), t);
    assert(host.drop_last() =~= dir);
    lemma_parent_of_slashed(host);
    lemma_next(dir, rest);
    if end >= s.len() {
        assert(cs + none =~= cs);
    }
    let u = lemma_next_inside(top, sub, t, components(s), cs, parts);
    let next = joined(rendered(dir), rest);
    assert(next == joined(parent_of(slashed(host)), rest));
    assert(host_stack(s) == walk(own + t, parts)) by {
        lemma_step_up(here);
    }
    lemma_own_outside(root, sub, here, u);
    lemma_relocated_own(root, sub, u);
    assert(host_stack(s) == own + u);
    assert(host_stack(next) == sub_stack(sub) + u);
    assert(!climbs_out(root, next));
    assert(same_place(root, s, next));
}

/// A `..` takes the last name away.
proof fn lemma_step_up(stack: Seq<Seq<u8>>)
    requires
        stack.len() > 0,
    ensures
        step(stack, DOTDOT@) == stack.drop_last(),
{
    assert(DOT@.len() == 1 && DOTDOT@.len() == 2);
}

/// Which temp directory of the workspace root a renamed answer lies in: only a
/// question outside the host's own temp roots gets one.
proof fn lemma_renamed(
    root: Seq<u8>,
    s: Seq<u8>,
    head: Option<TempRoot>,
    start: int,
    at: int,
    physical: Seq<Seq<u8>>,
) -> (sub: TempRoot)
    requires
        ({
            let here = walk(Seq::empty(), read_all(s, at - 1));
            &&& head matches Some(sub) ==> here == sub_stack(sub) && physical == host_stack(root)
                + sub_names(sub)
            &&& head is None ==> physical == here && is_other(here)
            &&& reported_stack(host_stack(root), physical) != here
        }),
    ensures
        ({
            let here = walk(Seq::empty(), read_all(s, at - 1));
            let top = host_stack(root);
            let own = top + sub_names(sub);
            &&& head is None
            &&& own.is_prefix_of(here)
            &&& reported_stack(top, physical) == sub_stack(sub) + here.skip(own.len() as int)
            &&& top != seq![PRIVATE@]
        }),
{
    lemma_names();
    let top = host_stack(root);
    let here = walk(Seq::<Seq<u8>>::empty(), read_all(s, at - 1));
    let long = top + sub_names(TempRoot::VarTmp);
    let short = top + sub_names(TempRoot::Tmp);
    if let Some(sub) = head {
        match sub {
            TempRoot::Tmp => {
                assert(physical.skip(top.len() as int + 1) =~= Seq::<Seq<u8>>::empty());
                assert(reported_stack(top, physical) =~= here);
            },
            TempRoot::VarTmp => {
                assert(long.is_prefix_of(physical));
                assert(physical.skip(top.len() as int + 2) =~= Seq::<Seq<u8>>::empty());
                assert(reported_stack(top, physical) =~= here);
            },
        }
        assert(false);
    }
    let sub = if long.is_prefix_of(here) {
        TempRoot::VarTmp
    } else {
        TempRoot::Tmp
    };
    if top == seq![PRIVATE@] {
        assert(top + sub_names(sub) =~= sub_stack(sub));
        let own = top + sub_names(sub);
        if own.is_prefix_of(here) {
            assert(own + here.skip(own.len() as int) =~= here);
        }
        assert(false);
    }
    sub
}

/// What lies in a temp directory of the workspace root lies in none of the
/// host's, when one such directory does.
proof fn lemma_own_outside(root: Seq<u8>, sub: TempRoot, here: Seq<Seq<u8>>, u: Seq<Seq<u8>>)
    requires
        is_other(here),
        host_stack(root).len() > 0,
        (host_stack(root) + sub_names(sub)).is_prefix_of(here),
    ensures
        outside(host_stack(root) + sub_names(sub) + u),
{
    lemma_names();
    let top = host_stack(root);
    let own = top + sub_names(sub);
    let stack = own + u;
    let other = choose|other: Place| other is Other && #[trigger] stands(other, here);
    lemma_stands_relocated(top, other, here);
    assert forall|x: TempRoot| !(#[trigger] sub_stack(x)).is_prefix_of(stack) by {
        let deep = sub_stack(x);
        if deep.is_prefix_of(stack) {
            assert(sub_stack(TempRoot::VarTmp) =~= seq![PRIVATE@, VAR@, TMP@]);
            assert(sub_stack(TempRoot::Tmp) =~= seq![PRIVATE@, TMP@]);
            if deep.len() <= own.len() {
                assert(here.subrange(0, deep.len() as int) =~= deep) by {
                    assert forall|i: int| 0 <= i < deep.len() implies here[i] == deep[i] by {
                        assert(stack.subrange(0, deep.len() as int)[i] == deep[i]);
                        assert(here.subrange(0, own.len() as int)[i] == own[i]);
                    }
                }
                assert(deep.is_prefix_of(here));
                match x {
                    TempRoot::Tmp => {},
                    TempRoot::VarTmp => {},
                }
                assert(false);
            } else {
                assert(top.len() == 1 && sub == TempRoot::Tmp);
                assert(stack.subrange(0, deep.len() as int)[1] == deep[1]);
                assert(own[1] == TMP@);
                assert(false);
            }
        }
    }
}

/// Where a path that was read to its end leads.
#[verifier::spinoff_prover]
proof fn lemma_arrived_place(root: Seq<u8>, s: Seq<u8>, place: Place)
    requires
        is_valid_root(root),
        normalized_host(root) == root,
        s.len() > 0,
        s[0] == SLASH,
        !climbs_out(root, s),
        read_path(s) == Reading::Done(place),
    ensures
        match place {
            Place::Temp { sub, start, .. } => host_stack(root + sub.below_root() + s.skip(start))
                == relocated(host_stack(root), host_stack(s)),
            _ => outside(host_stack(s)),
        },
{
    let top = host_stack(root);
    lemma_root_stack(root);
    lemma_read_from_bounds(s, Place::Base(Base::Root), 0);
    lemma_read_host(top, s, Place::Base(Base::Root), 0);
    lemma_stands_relocated(top, place, host_stack(s));
    if let Place::Temp { sub, start, .. } = place {
        let own = root + sub.below_root();
        if start < s.len() {
            let rest = s.skip(start + 1);
            assert(s.subrange(start + 1, s.len() as int) =~= rest);
            assert(own + s.skip(start) =~= own + seq![SLASH] + rest);
            lemma_below_own(root, sub, rest);
        } else {
            assert(own + s.skip(start) =~= own);
            lemma_below_own(root, sub, Seq::empty());
        }
    }
}

/// Where the mapped text leads, of a path that is scanned from its start.
#[verifier::spinoff_prover]
proof fn lemma_leads_to_place(
    platform: Platform,
    kernel: Kernel,
    root: Seq<u8>,
    s: Seq<u8>,
    forced: bool,
    cap: int,
    location: Option<Seq<u8>>,
)
    requires
        is_valid_root(root),
        normalized_host(root) == root,
        is_plain_host(kernel),
        s.len() > 0,
        s[0] == SLASH,
        !climbs_out(root, s),
        leads_to(platform, kernel, root, s, forced, cap, Ok(location)),
    ensures
        match location {
            Some(text) => host_stack(text) == relocated(host_stack(root), host_stack(s)),
            None => !forced && outside(host_stack(s)),
        },
    decreases dotdots(s),
{
    match read_path(s) {
        Reading::Done(place) => {
            lemma_arrived_place(root, s, place);
        },
        Reading::Ask { head, start, at, end } => {
            lemma_read_from_bounds(s, Place::Base(Base::Root), 0);
            lemma_read_host(host_stack(root), s, Place::Base(Base::Root), 0);
            lemma_first_empty(s);
            let q = question(root, s, head, start, at);
            let answer = choose|answer: Result<Seq<u8>, i32>| #[trigger]
                kernel(q, answer) && match answer {
                    Err(errno) => Ok::<Option<Seq<u8>>, i32>(location) == Err::<
                        Option<Seq<u8>>,
                        i32,
                    >(errno),
                    Ok(text) => match rewritten(platform, root, s, text, end) {
                        Err(errno) => Ok::<Option<Seq<u8>>, i32>(location) == Err::<
                            Option<Seq<u8>>,
                            i32,
                        >(errno),
                        Ok(next) => leads_to(
                            platform,
                            kernel,
                            root,
                            next,
                            forced || head is Some,
                            cap,
                            Ok(location),
                        ),
                    },
                };
            assert(answer is Ok);
            let text = answer->Ok_0;
            assert(kernel(q, Ok::<Seq<u8>, i32>(text)));
            assert(rewritten(platform, root, s, text, end) is Ok);
            let next = rewritten(platform, root, s, text, end)->Ok_0;
            lemma_rewriting(root, s, head, start, at, end);
            lemma_leads_to_place(
                platform,
                kernel,
                root,
                next,
                forced || head is Some,
                cap,
                location,
            );
        },
    }
}

/// The component before the first slash of an absolute path needs no kernel.
proof fn lemma_first_empty(s: Seq<u8>)
    requires
        s.len() > 0,
        s[0] == SLASH,
    ensures
        read_path(s) matches Reading::Ask { at, .. } ==> at > 0,
{
    lemma_read_from_bounds(s, Place::Base(Base::Root), 0);
    assert(component_end(s, 0) == 0);
    if let Reading::Ask { at, end, .. } = read_path(s) {
        if at == 0 {
            assert(s.subrange(at, end).len() == 0);
            assert(DOTDOT@.len() == 2);
        }
    }
}

/// What the kernel is handed: the location, or the path itself.
pub open spec fn effective(path: Seq<u8>, location: Option<Seq<u8>>) -> Seq<u8> {
    match location {
        Some(text) => text,
        None => path,
    }
}

/// Mapping agrees with the host: on a host without symlinks of its own, what is
/// handed to the kernel in place of `path` leads to where `path` itself leads,
/// relocated below the workspace root when that is in a temp root. The root has
/// to be its own canonical name; a path that enters the root's own temp
/// directories by their physical names may not climb out of them again.
pub proof fn law_agrees_with_host(
    platform: Platform,
    kernel: Kernel,
    root: Seq<u8>,
    path: Seq<u8>,
    cap: int,
    location: Option<Seq<u8>>,
)
    requires
        is_valid_root(root),
        normalized_host(root) == root,
        is_plain_host(kernel),
        path.len() > 0,
        path[0] == SLASH,
        path.len() < path_max(platform),
        !climbs_out(root, path),
        maps_to(platform, kernel, root, path, cap, Ok(location)),
    ensures
        host_stack(effective(path, location)) == relocated(host_stack(root), host_stack(path)),
{
    lemma_leads_to_place(platform, kernel, root, path, false, cap, location);
}

/// A path that is used unchanged leads into no temp root.
pub proof fn law_unchanged_is_outside(
    platform: Platform,
    kernel: Kernel,
    root: Seq<u8>,
    path: Seq<u8>,
    cap: int,
    location: Option<Seq<u8>>,
)
    requires
        is_valid_root(root),
        normalized_host(root) == root,
        is_plain_host(kernel),
        path.len() > 0,
        path[0] == SLASH,
        path.len() < path_max(platform),
        !climbs_out(root, path),
        maps_to(platform, kernel, root, path, cap, Ok(location)),
    ensures
        location is None ==> outside(host_stack(path)),
{
    lemma_leads_to_place(platform, kernel, root, path, false, cap, location);
}

proof fn lemma_count_append(a: Seq<Seq<u8>>, b: Seq<Seq<u8>>)
    ensures
        count_dotdots(a + b) == count_dotdots(a) + count_dotdots(b),
    decreases a.len(),
{
    if a.len() == 0 {
        assert(a + b =~= b);
    } else {
        assert((a + b).drop_first() =~= a.drop_first() + b);
        lemma_count_append(a.drop_first(), b);
    }
}

/// Where the last slash is, and what it parts.
pub proof fn lemma_last_slash_parts(s: Seq<u8>)
    ensures
        -1 <= last_slash(s) < s.len(),
        last_slash(s) >= 0 ==> s[last_slash(s)] == SLASH,
    decreases s.len(),
{
    if s.len() > 0 && s.last() != SLASH {
        lemma_last_slash_parts(s.drop_last());
    }
}

/// A parent has no more `..` than the path has.
pub proof fn lemma_parent_dotdots(s: Seq<u8>)
    ensures
        dotdots(parent_of(s)) <= dotdots(s),
        dotdots(joined(parent_of(s), Seq::empty())) <= dotdots(s),
{
    lemma_last_slash_parts(s);
    let e = Seq::<u8>::empty();
    let i = last_slash(s);
    assert(!e.contains(SLASH));
    lemma_components_single(e);
    lemma_components_split(e, e);
    let slash = seq![SLASH];
    assert(e + slash + e =~= slash);
    let ee = seq![e];
    assert(DOTDOT@.len() == 2);
    lemma_count_append(ee, ee);
    assert(ee.drop_first() =~= Seq::<Seq<u8>>::empty());
    reveal_with_fuel(count_dotdots, 2);
    assert(dotdots(slash) == 0);
    assert(slash + e =~= slash);
    if i > 0 {
        let a = s.take(i);
        let b = s.skip(i + 1);
        assert(s =~= a + slash + b);
        lemma_components_split(a, b);
        lemma_count_append(components(a), components(b));
        lemma_components_split(a, e);
        lemma_count_append(components(a), ee);
        if a != slash {
            assert(a.push(SLASH) + e =~= a + slash + e);
        } else {
            assert(a + e =~= slash);
        }
    } else if i == 0 {
        assert(s.take(1) =~= slash);
    }
}

/// Joining counts the `..` of both parts.
pub proof fn lemma_joined_dotdots(dir: Seq<u8>, rest: Seq<u8>)
    ensures
        dotdots(joined(dir, rest)) == dotdots(dir) + dotdots(rest),
{
    let e = Seq::<u8>::empty();
    let slash = seq![SLASH];
    assert(!e.contains(SLASH));
    lemma_components_single(e);
    assert(DOTDOT@.len() == 2);
    let ee = seq![e];
    assert(ee.drop_first() =~= Seq::<Seq<u8>>::empty());
    reveal_with_fuel(count_dotdots, 2);
    assert(count_dotdots(ee) == 0);
    if dir == slash {
        lemma_components_split(e, rest);
        assert(e + slash + rest =~= dir + rest);
        lemma_count_append(ee, components(rest));
        lemma_components_split(e, e);
        assert(e + slash + e =~= dir);
        lemma_count_append(ee, ee);
    } else {
        lemma_components_split(dir, rest);
        assert(dir + slash + rest =~= dir.push(SLASH) + rest);
        lemma_count_append(components(dir), components(rest));
    }
}

/// A reported name has no more `..` than the physical one.
pub proof fn lemma_reported_dotdots(root: Seq<u8>, physical: Seq<u8>)
    requires
        dotdots(physical) == 0,
    ensures
        dotdots(reported_name(root, physical)) == 0,
{
    if let Some(host) = host_name_of(root, physical) {
        lemma_texts();
        lemma_names();
        let below = physical.skip(root.len() as int);
        let (sub, rest) = match rest_after(below, ROOT_VAR_TMP@) {
            Some(rest) => (TempRoot::VarTmp, rest),
            None => (TempRoot::Tmp, below.skip(ROOT_TMP@.len() as int)),
        };
        let own = root + sub.below_root();
        assert(physical =~= own + rest);
        let named = sub_stack(sub);
        let e = Seq::<u8>::empty();
        lemma_slashed_components(named);
        let head = seq![e] + named;
        assert(DOTDOT@.len() == 2);
        assert(PRIVATE@.len() == 7 && TMP@.len() == 3 && VAR@.len() == 3);
        lemma_no_dotdots(head);
        if rest.len() > 0 {
            let tail = rest.skip(1);
            assert(rest =~= seq![SLASH] + tail);
            assert(physical =~= own + seq![SLASH] + tail);
            lemma_components_split(own, tail);
            lemma_count_append(components(own), components(tail));
            assert(host =~= sub.host_name() + seq![SLASH] + tail);
            lemma_components_split(sub.host_name(), tail);
            lemma_count_append(head, components(tail));
        } else {
            assert(host =~= sub.host_name());
        }
    }
}

proof fn lemma_no_dotdots(cs: Seq<Seq<u8>>)
    requires
        forall|i: int| 0 <= i < cs.len() ==> (#[trigger] cs[i]).len() != 2,
    ensures
        count_dotdots(cs) == 0,
    decreases cs.len(),
{
    if cs.len() > 0 {
        assert(DOTDOT@.len() == 2);
        assert(cs[0].len() != 2);
        let tail = cs.drop_first();
        assert forall|i: int| 0 <= i < tail.len() implies (#[trigger] tail[i]).len() != 2 by {
            assert(tail[i] == cs[i + 1]);
        }
        lemma_no_dotdots(tail);
    }
}

/// The kernel resolves: no answer of its own holds a `..`, and it does not
/// report a loop.
pub open spec fn resolves(platform: Platform, kernel: Kernel) -> bool {
    &&& forall|q: Seq<u8>, t: Seq<u8>| #[trigger]
        kernel(q, Ok::<Seq<u8>, i32>(t)) ==> dotdots(t) == 0
    &&& forall|q: Seq<u8>| !#[trigger] kernel(q, Err::<Seq<u8>, i32>(too_many_links(platform)))
}

proof fn lemma_leads_to_no_loop(
    platform: Platform,
    kernel: Kernel,
    root: Seq<u8>,
    s: Seq<u8>,
    forced: bool,
    cap: int,
    result: Result<Option<Seq<u8>>, i32>,
)
    requires
        resolves(platform, kernel),
        s.len() > 0,
        leads_to(platform, kernel, root, s, forced, cap, result),
    ensures
        result != Err::<Option<Seq<u8>>, i32>(too_many_links(platform)),
    decreases dotdots(s),
{
    lemma_read_from_bounds(s, Place::Base(Base::Root), 0);
    lemma_read_host(Seq::empty(), s, Place::Base(Base::Root), 0);
    if let Reading::Ask { head, start, at, end } = read_path(s) {
        let q = question(root, s, head, start, at);
        if q.len() <= cap {
            let answer = choose|answer: Result<Seq<u8>, i32>| #[trigger]
                kernel(q, answer) && match answer {
                    Err(errno) => result == Err::<Option<Seq<u8>>, i32>(errno),
                    Ok(text) => match rewritten(platform, root, s, text, end) {
                        Err(errno) => result == Err::<Option<Seq<u8>>, i32>(errno),
                        Ok(next) => leads_to(
                            platform,
                            kernel,
                            root,
                            next,
                            forced || head is Some,
                            cap,
                            result,
                        ),
                    },
                };
            match answer {
                Err(errno) => {
                    if errno == too_many_links(platform) {
                        assert(kernel(q, Err::<Seq<u8>, i32>(too_many_links(platform))));
                    }
                },
                Ok(text) => {
                    assert(kernel(q, Ok::<Seq<u8>, i32>(text)));
                    let host = reported_name(root, text);
                    let rest = after(s, end);
                    lemma_reported_dotdots(root, text);
                    lemma_parent_dotdots(host);
                    lemma_joined_dotdots(parent_of(host), rest);
                    lemma_dotdot_read(s, at, end);
                    if let Ok(next) = rewritten(platform, root, s, text, end) {
                        assert(next.len() > 0);
                        lemma_leads_to_no_loop(
                            platform,
                            kernel,
                            root,
                            next,
                            forced || head is Some,
                            cap,
                            result,
                        );
                    }
                },
            }
        }
    }
}

/// A `..` counts beside those that follow it.
pub proof fn lemma_dotdot_read(s: Seq<u8>, at: int, end: int)
    requires
        0 <= at <= end <= s.len(),
        at > 0 ==> s[at - 1] == SLASH,
        end == component_end(s, at),
        s.subrange(at, end) == DOTDOT@,
    ensures
        dotdots(after(s, end)) < dotdots(s),
{
    lemma_read_more(s, -1, at, end);
    let upto = read_all(s, at - 1).push(DOTDOT@);
    let one = seq![DOTDOT@];
    assert(upto =~= read_all(s, at - 1) + one);
    lemma_count_append(read_all(s, at - 1), one);
    assert(one.drop_first() =~= Seq::<Seq<u8>>::empty());
    reveal_with_fuel(count_dotdots, 2);
    if end < s.len() {
        lemma_component_end(s, at);
        assert(s =~= s.take(end) + seq![SLASH] + s.skip(end + 1));
        lemma_components_split(s.take(end), s.skip(end + 1));
        lemma_count_append(upto, components(s.skip(end + 1)));
    } else {
        assert(s.take(end) =~= s);
        let e = Seq::<u8>::empty();
        assert(!e.contains(SLASH));
        lemma_components_single(e);
        assert(seq![e].drop_first() =~= Seq::<Seq<u8>>::empty());
        assert(DOTDOT@.len() == 2);
    }
}

/// A kernel that resolves never makes mapping report a loop, however many `..`
/// a path has.
pub proof fn law_no_loop(
    platform: Platform,
    kernel: Kernel,
    root: Seq<u8>,
    path: Seq<u8>,
    cap: int,
    result: Result<Option<Seq<u8>>, i32>,
)
    requires
        resolves(platform, kernel),
        maps_to(platform, kernel, root, path, cap, result),
    ensures
        result != Err::<Option<Seq<u8>>, i32>(too_many_links(platform)),
{
    if path.len() > 0 && path[0] == SLASH && path.len() < path_max(platform) {
        lemma_leads_to_no_loop(platform, kernel, root, path, false, cap, result);
    }
}

/// A text is its components, with a slash before each.
proof fn lemma_text_of_components(t: Seq<u8>)
    ensures
        slashed(components(t)) == seq![SLASH] + t,
    decreases t.len(),
{
    lemma_component_end(t, 0);
    let end = component_end(t, 0);
    let c = t.subrange(0, end);
    let one = seq![c];
    assert(one.drop_last() =~= Seq::<Seq<u8>>::empty());
    assert(slashed(Seq::<Seq<u8>>::empty()) =~= Seq::<u8>::empty());
    assert(slashed(one) =~= seq![SLASH] + c);
    if end < t.len() {
        let rest = t.skip(end + 1);
        lemma_components_suffix(t, end + 1);
        lemma_text_of_components(rest);
        lemma_slashed_append(one, components(rest));
        assert(components(t) == one + components(rest));
        assert(seq![SLASH] + c + (seq![SLASH] + rest) =~= seq![SLASH] + t);
    } else {
        assert(c =~= t);
        assert(components(t) =~= one);
    }
}

/// The names of a valid root.
spec fn root_names(root: Seq<u8>) -> Seq<Seq<u8>> {
    components(root.skip(1))
}

/// The names of a valid root make up its text.
proof fn lemma_root_names(root: Seq<u8>)
    requires
        is_valid_root(root),
    ensures
        ({
            let names = root_names(root);
            &&& is_stack(names)
            &&& slash_free(names)
            &&& names.len() > 0
            &&& root == slashed(names)
            &&& components(root) == seq![Seq::<u8>::empty()] + names
        }),
{
    let names = root_names(root);
    lemma_components_suffix(root, 1);
    lemma_components_slash_free(root.skip(1));
    assert forall|i: int| 0 <= i < names.len() implies is_name(#[trigger] names[i])
        && !names[i].contains(SLASH) by {
        assert(names[i] == components_from(root, 1)[i]);
    }
    lemma_stack_slash_free(names);
    lemma_text_of_components(root.skip(1));
    assert(seq![SLASH] + root.skip(1) =~= root);
    lemma_slashed_components(names);
}

/// No name of a valid root leads into a temp root.
proof fn lemma_root_names_outside(root: Seq<u8>)
    requires
        is_valid_root(root),
    ensures
        ({
            let names = root_names(root);
            &&& names[0] != TMP@
            &&& outside(names)
            &&& !sub_names(TempRoot::VarTmp).is_prefix_of(names)
        }),
{
    let names = root_names(root);
    lemma_root_names(root);
    lemma_texts();
    lemma_rest_after_slashed(names, sub_stack(TempRoot::Tmp));
    lemma_rest_after_slashed(names, sub_stack(TempRoot::VarTmp));
    lemma_rest_after_slashed(names, sub_names(TempRoot::Tmp));
    lemma_rest_after_slashed(names, sub_names(TempRoot::VarTmp));
    if names[0] == TMP@ {
        assert(names.subrange(0, 1) =~= sub_names(TempRoot::Tmp));
    }
}

/// Where a valid root leads: along its own names, below `/private` when the
/// first of them is a symlink.
proof fn lemma_valid_root_stack(root: Seq<u8>)
    requires
        is_valid_root(root),
    ensures
        ({
            let names = root_names(root);
            &&& is_stack(names)
            &&& names.len() > 0
            &&& root == slashed(names)
            &&& names[0] != TMP@
            &&& outside(names)
            &&& !sub_names(TempRoot::VarTmp).is_prefix_of(names)
            &&& components(root) == seq![Seq::<u8>::empty()] + names
            &&& host_stack(root) == if names[0] == VAR@ {
                seq![PRIVATE@] + names
            } else {
                names
            }
        }),
{
    let names = root_names(root);
    lemma_root_names(root);
    lemma_root_names_outside(root);
    lemma_stack_of_names(names);
}

/// Where names lead from the root.
proof fn lemma_stack_of_names(names: Seq<Seq<u8>>)
    requires
        is_stack(names),
        names.len() > 0,
        names[0] != TMP@,
    ensures
        walk(Seq::empty(), seq![Seq::<u8>::empty()] + names) == if names[0] == VAR@ {
            seq![PRIVATE@] + names
        } else {
            names
        },
{
    let none = Seq::<Seq<u8>>::empty();
    let e = Seq::<u8>::empty();
    lemma_names();
    lemma_walk_first(none, e, names);
    if names[0] == VAR@ {
        let tail = names.skip(1);
        assert(seq![VAR@] + tail =~= names);
        lemma_walk_first(none, VAR@, tail);
        let start = seq![PRIVATE@, VAR@];
        assert forall|i: int| 0 <= i < tail.len() implies is_name(#[trigger] tail[i]) by {
            assert(is_name(names[i + 1]));
        }
        lemma_walk_names(start, tail);
        assert(start + tail =~= seq![PRIVATE@] + names);
    } else {
        lemma_walk_down(names);
    }
}

/// Names lead down.
proof fn lemma_walk_names(stack: Seq<Seq<u8>>, names: Seq<Seq<u8>>)
    requires
        stack.len() > 0,
        forall|i: int| 0 <= i < names.len() ==> is_name(#[trigger] names[i]),
    ensures
        walk(stack, names) == stack + names,
    decreases names.len(),
{
    if names.len() == 0 {
        assert(stack + names =~= stack);
    } else {
        let shorter = names.drop_last();
        assert forall|i: int| 0 <= i < shorter.len() implies is_name(#[trigger] shorter[i]) by {
            assert(is_name(names[i]));
        }
        lemma_walk_names(stack, shorter);
        assert(is_name(names[names.len() - 1]));
        assert((stack + shorter).push(names.last()) =~= stack + names);
    }
}

/// Components without a `..` lead down.
pub proof fn lemma_walk_deeper(stack: Seq<Seq<u8>>, cs: Seq<Seq<u8>>)
    requires
        stack.len() > 0,
        !cs.contains(DOTDOT@),
    ensures
        stack.is_prefix_of(walk(stack, cs)),
    decreases cs.len(),
{
    if cs.len() > 0 {
        let shorter = cs.drop_last();
        assert(!shorter.contains(DOTDOT@)) by {
            if shorter.contains(DOTDOT@) {
                let i = choose|i: int| 0 <= i < shorter.len() && shorter[i] == DOTDOT@;
                assert(cs[i] == DOTDOT@);
            }
        }
        lemma_walk_deeper(stack, shorter);
        assert(cs.contains(cs.last()));
        let w = walk(stack, shorter);
        assert(w.push(cs.last()).subrange(0, stack.len() as int) =~= w.subrange(
            0,
            stack.len() as int,
        ));
    }
}

/// The workspace root is one of the two directories that hold the host's own
/// temp roots.
pub open spec fn holds_temp_roots(root: Seq<u8>) -> bool {
    host_stack(root) == base_stack(Base::Private) || host_stack(root) == base_stack(Base::PrivVar)
}

proof fn lemma_below_root_outside(root: Seq<u8>, stack: Seq<Seq<u8>>)
    requires
        is_valid_root(root),
        stack == host_stack(root) || !holds_temp_roots(root),
        host_stack(root).is_prefix_of(stack),
    ensures
        outside(stack),
        host_stack(root).len() > 0,
{
    lemma_names();
    lemma_valid_root_stack(root);
    let top = host_stack(root);
    let names = root_names(root);
    assert forall|x: TempRoot| !(#[trigger] sub_stack(x)).is_prefix_of(stack) by {
        let deep = sub_stack(x);
        assert(sub_stack(TempRoot::VarTmp) =~= seq![PRIVATE@, VAR@, TMP@]);
        assert(sub_stack(TempRoot::Tmp) =~= seq![PRIVATE@, TMP@]);
        if deep.is_prefix_of(stack) {
            assert forall|i: int| 0 <= i < deep.len() && i < top.len() implies top[i] == deep[i] by {
                assert(stack.subrange(0, deep.len() as int)[i] == deep[i]);
                assert(stack.subrange(0, top.len() as int)[i] == top[i]);
            }
            if top.len() >= deep.len() {
                assert(top.subrange(0, deep.len() as int) =~= deep);
                if names[0] == VAR@ {
                    assert(names[0] == top[1]);
                    assert(x == TempRoot::VarTmp);
                    assert(names[1] == top[2]);
                    assert(names.subrange(0, 2) =~= sub_names(TempRoot::VarTmp));
                    assert(sub_names(TempRoot::VarTmp).is_prefix_of(names));
                } else {
                    assert(deep.is_prefix_of(names));
                    match x {
                        TempRoot::Tmp => {},
                        TempRoot::VarTmp => {},
                    }
                }
                assert(false);
            } else if top.len() == 1 {
                assert(top =~= base_stack(Base::Private));
                assert(false);
            } else {
                assert(top =~= base_stack(Base::PrivVar));
                assert(false);
            }
        }
    }
}

/// The components of a valid root have no `..` among them.
proof fn lemma_valid_root_plain(root: Seq<u8>)
    requires
        is_valid_root(root),
    ensures
        components(root) == seq![Seq::<u8>::empty()] + root_names(root),
        !components(root).contains(DOTDOT@),
{
    lemma_names();
    lemma_valid_root_stack(root);
    let names = root_names(root);
    let head = seq![Seq::<u8>::empty()] + names;
    if head.contains(DOTDOT@) {
        let i = choose|i: int| 0 <= i < head.len() && head[i] == DOTDOT@;
        if i > 0 {
            assert(is_name(names[i - 1]));
        }
    }
}

/// A path with no `..` that leads outside every temp root is used unchanged.
proof fn lemma_outside_unchanged(
    platform: Platform,
    kernel: Kernel,
    root: Seq<u8>,
    s: Seq<u8>,
    cap: int,
    result: Result<Option<Seq<u8>>, i32>,
)
    requires
        !components(s).contains(DOTDOT@),
        outside(host_stack(s)),
        maps_to(platform, kernel, root, s, cap, result),
    ensures
        result == Ok::<Option<Seq<u8>>, i32>(None),
{
    let none = Seq::<Seq<u8>>::empty();
    lemma_read_plain(s, Place::Base(Base::Root), 0);
    lemma_read_host(none, s, Place::Base(Base::Root), 0);
    if let Reading::Done(Place::Temp { sub, .. }) = read_path(s) {
        match sub {
            TempRoot::Tmp => {},
            TempRoot::VarTmp => {},
        }
    }
}

/// The kernel resolves a physical path component by component, and no prefix
/// of a workspace root is itself redirected: every leading component sequence
/// of a valid root is used unchanged.
pub proof fn law_root_prefix_unchanged(
    platform: Platform,
    kernel: Kernel,
    root: Seq<u8>,
    prefix: Seq<u8>,
    cap: int,
    result: Result<Option<Seq<u8>>, i32>,
)
    requires
        is_valid_root(root),
        rest_after(root, prefix) is Some,
        maps_to(platform, kernel, root, prefix, cap, result),
    ensures
        result == Ok::<Option<Seq<u8>>, i32>(None),
{
    lemma_names();
    lemma_valid_root_plain(root);
    let top = host_stack(root);
    assert(top.is_prefix_of(top));
    lemma_below_root_outside(root, top);
    let none = Seq::<Seq<u8>>::empty();
    let n = prefix.len() as int;
    assert(root.subrange(0, n) =~= root.take(n));
    if n == root.len() {
        assert(prefix =~= root);
    } else {
        let tail = root.skip(n + 1);
        assert(root =~= prefix + seq![SLASH] + tail);
        lemma_components_split(prefix, tail);
        let head = components(prefix);
        let parts = components(tail);
        assert(!head.contains(DOTDOT@) && !parts.contains(DOTDOT@)) by {
            if head.contains(DOTDOT@) {
                let i = choose|i: int| 0 <= i < head.len() && head[i] == DOTDOT@;
                assert(components(root)[i] == DOTDOT@);
            }
            if parts.contains(DOTDOT@) {
                let i = choose|i: int| 0 <= i < parts.len() && parts[i] == DOTDOT@;
                assert(components(root)[head.len() + i] == DOTDOT@);
            }
        }
        lemma_walk_append(none, head, parts);
        let above = host_stack(prefix);
        if above.len() > 0 {
            lemma_walk_deeper(above, parts);
        }
        assert(above.is_prefix_of(top));
        assert forall|x: TempRoot| !(#[trigger] sub_stack(x)).is_prefix_of(above) by {
            let deep = sub_stack(x);
            if deep.is_prefix_of(above) {
                assert(top.subrange(0, deep.len() as int) =~= above.subrange(
                    0,
                    deep.len() as int,
                ));
                assert(deep.is_prefix_of(top));
            }
        }
    }
    lemma_outside_unchanged(platform, kernel, root, prefix, cap, result);
}

/// A physical path at or below the workspace root, with no `..` below it, is
/// used unchanged. The roots that hold the host's own temp roots are left out:
/// below them lie paths that are redirected.
pub proof fn law_physical_unchanged(
    platform: Platform,
    kernel: Kernel,
    root: Seq<u8>,
    rest: Seq<u8>,
    cap: int,
    result: Result<Option<Seq<u8>>, i32>,
)
    requires
        is_valid_root(root),
        !holds_temp_roots(root),
        rest.len() > 0 ==> rest[0] == SLASH,
        !components(rest).contains(DOTDOT@),
        maps_to(platform, kernel, root, root + rest, cap, result),
    ensures
        result == Ok::<Option<Seq<u8>>, i32>(None),
{
    let s = root + rest;
    let top = host_stack(root);
    lemma_names();
    lemma_valid_root_stack(root);
    lemma_valid_root_plain(root);
    let none = Seq::<Seq<u8>>::empty();
    let e = Seq::<u8>::empty();
    let cs = components(s);
    let head = components(root);
    if rest.len() > 0 {
        let tail = rest.skip(1);
        assert(s =~= root + seq![SLASH] + tail);
        lemma_components_split(root, tail);
        lemma_components_split(e, tail);
        assert(e + seq![SLASH] + tail =~= rest);
        let parts = components(tail);
        let n = components(e).len() as int;
        assert(!parts.contains(DOTDOT@)) by {
            if parts.contains(DOTDOT@) {
                let i = choose|i: int| 0 <= i < parts.len() && parts[i] == DOTDOT@;
                assert(components(rest)[n + i] == DOTDOT@);
            }
        }
        assert(!cs.contains(DOTDOT@)) by {
            if cs.contains(DOTDOT@) {
                let i = choose|i: int| 0 <= i < cs.len() && cs[i] == DOTDOT@;
                if i < head.len() {
                    assert(head[i] == DOTDOT@);
                } else {
                    assert(parts[i - head.len()] == DOTDOT@);
                }
            }
        }
        lemma_walk_append(none, head, parts);
        lemma_walk_deeper(top, parts);
    } else {
        assert(s =~= root);
        assert(top.is_prefix_of(top));
    }
    lemma_below_root_outside(root, host_stack(s));
    lemma_outside_unchanged(platform, kernel, root, s, cap, result);
}

} // verus!
