//! Where paths lead on a host without symlinks of its own: the directory
//! stack that a path's components build up.
use vstd::prelude::*;
use crate::bytes::{component_end, components, components_from, lemma_component_end, lemma_component_end_is, SLASH};
use crate::tmp_path::{is_name, rest_after, DOT, DOTDOT, PRIVATE, TMP, VAR};
use crate::tmp_path::map::{joined, last_slash, parent_of};

verus! {

/// What follows `pos` in a path has the components that follow `pos`.
pub proof fn lemma_components_suffix(s: Seq<u8>, pos: int)
    requires
        0 <= pos <= s.len(),
    ensures
        components_from(s, pos) == components(s.skip(pos)),
    decreases s.len() - pos,
{
    let t = s.skip(pos);
    lemma_component_end(s, pos);
    let end = component_end(s, pos);
    lemma_component_end_is(t, 0, end - pos);
    assert(t.subrange(0, end - pos) =~= s.subrange(pos, end));
    if end < s.len() {
        lemma_components_suffix(s, end + 1);
        lemma_components_suffix(t, end - pos + 1);
        assert(t.skip(end - pos + 1) =~= s.skip(end + 1));
    }
}

/// A slash separates the components before it from those after it.
pub proof fn lemma_components_split(a: Seq<u8>, b: Seq<u8>)
    ensures
        components(a + seq![SLASH] + b) == components(a) + components(b),
    decreases a.len(),
{
    let s = a + seq![SLASH] + b;
    lemma_component_end(a, 0);
    let end = component_end(a, 0);
    assert(forall|i: int| 0 <= i < a.len() ==> s[i] == a[i]);
    lemma_component_end_is(s, 0, end);
    assert(s.subrange(0, end) =~= a.subrange(0, end));
    lemma_components_suffix(s, end + 1);
    if end < a.len() {
        let rest = a.skip(end + 1);
        lemma_components_suffix(a, end + 1);
        lemma_components_split(rest, b);
        assert(s.skip(end + 1) =~= rest + seq![SLASH] + b);
        assert(components(s) =~= components(a) + components(b));
    } else {
        assert(s.skip(end + 1) =~= b);
        assert(components(s) =~= components(a) + components(b));
    }
}

/// A text without a slash is one component.
pub proof fn lemma_components_single(c: Seq<u8>)
    requires
        !c.contains(SLASH),
    ensures
        components(c) == seq![c],
{
    lemma_component_end_is(c, 0, c.len() as int);
    assert(c.subrange(0, c.len() as int) =~= c);
}

/// No component holds a slash.
pub proof fn lemma_components_slash_free(s: Seq<u8>)
    ensures
        components(s).len() > 0,
        forall|i: int| 0 <= i < components(s).len() ==> !(#[trigger] components(s)[i]).contains(SLASH),
    decreases s.len(),
{
    lemma_component_end(s, 0);
    let end = component_end(s, 0);
    let c = s.subrange(0, end);
    assert(!c.contains(SLASH));
    if end < s.len() {
        lemma_components_suffix(s, end + 1);
        lemma_components_slash_free(s.skip(end + 1));
        let tail = components(s.skip(end + 1));
        assert(components(s) == seq![c] + tail);
        assert forall|i: int| 0 <= i < components(s).len() implies !(#[trigger] components(
            s,
        )[i]).contains(SLASH) by {
            if i > 0 {
                assert(components(s)[i] == tail[i - 1]);
            }
        }
    }
}

/// The directory that component `c` leads to from `stack`. `/tmp` and `/var`
/// are symlinks to their `/private` forms.
pub open spec fn step(stack: Seq<Seq<u8>>, c: Seq<u8>) -> Seq<Seq<u8>> {
    if c.len() == 0 || c == DOT@ {
        stack
    } else if c == DOTDOT@ {
        if stack.len() > 0 {
            stack.drop_last()
        } else {
            stack
        }
    } else if stack.len() == 0 && (c == TMP@ || c == VAR@) {
        seq![PRIVATE@, c]
    } else {
        stack.push(c)
    }
}

/// The directory that the components `cs` lead to from `stack`.
pub open spec fn walk(stack: Seq<Seq<u8>>, cs: Seq<Seq<u8>>) -> Seq<Seq<u8>>
    decreases cs.len(),
{
    if cs.len() == 0 {
        stack
    } else {
        step(walk(stack, cs.drop_last()), cs.last())
    }
}

/// The names from the root down of where an absolute path leads.
pub open spec fn host_stack(path: Seq<u8>) -> Seq<Seq<u8>> {
    walk(Seq::empty(), components(path))
}

/// The text of a stack, without the slash that names the root itself.
pub open spec fn slashed(stack: Seq<Seq<u8>>) -> Seq<u8>
    decreases stack.len(),
{
    if stack.len() == 0 {
        Seq::empty()
    } else {
        slashed(stack.drop_last()) + seq![SLASH] + stack.last()
    }
}

/// The canonical text of a stack.
pub open spec fn rendered(stack: Seq<Seq<u8>>) -> Seq<u8> {
    if stack.len() == 0 {
        seq![SLASH]
    } else {
        slashed(stack)
    }
}

/// The canonical name of where an absolute path leads.
pub open spec fn normalized_host(path: Seq<u8>) -> Seq<u8> {
    rendered(host_stack(path))
}

/// Every entry is a single name.
pub open spec fn is_stack(stack: Seq<Seq<u8>>) -> bool {
    forall|i: int|
        0 <= i < stack.len() ==> is_name(#[trigger] stack[i]) && !stack[i].contains(SLASH)
}

/// A stack that no symlink at the root leads away from.
pub open spec fn is_host_stack(stack: Seq<Seq<u8>>) -> bool {
    is_stack(stack) && (stack.len() > 0 ==> stack[0] != TMP@ && stack[0] != VAR@)
}

/// No component holds a slash.
pub open spec fn slash_free(cs: Seq<Seq<u8>>) -> bool {
    forall|i: int| 0 <= i < cs.len() ==> !(#[trigger] cs[i]).contains(SLASH)
}

/// The four names are different names.
pub proof fn lemma_names()
    ensures
        is_name(PRIVATE@) && is_name(VAR@) && is_name(TMP@),
        !PRIVATE@.contains(SLASH) && !VAR@.contains(SLASH) && !TMP@.contains(SLASH),
        PRIVATE@ != VAR@ && PRIVATE@ != TMP@ && VAR@ != TMP@,
{
    assert(PRIVATE@.len() == 7 && VAR@.len() == 3 && TMP@.len() == 3);
    assert(DOT@.len() == 1 && DOTDOT@.len() == 2);
    assert(VAR@[0] == 118 && TMP@[0] == 116);
    assert(forall|i: int| 0 <= i < 7 ==> PRIVATE@[i] != SLASH);
}

/// A `..` leads one directory up.
pub proof fn lemma_walk_up(stack: Seq<Seq<u8>>, cs: Seq<Seq<u8>>)
    requires
        walk(stack, cs).len() > 0,
    ensures
        walk(stack, cs.push(DOTDOT@)) == walk(stack, cs).drop_last(),
{
    let all = cs.push(DOTDOT@);
    assert(all.drop_last() =~= cs);
    assert(all.last() == DOTDOT@);
    assert(DOT@.len() == 1 && DOTDOT@.len() == 2);
}

/// Walking in two parts.
pub proof fn lemma_walk_append(stack: Seq<Seq<u8>>, a: Seq<Seq<u8>>, b: Seq<Seq<u8>>)
    ensures
        walk(stack, a + b) == walk(walk(stack, a), b),
    decreases b.len(),
{
    if b.len() == 0 {
        assert(a + b =~= a);
    } else {
        assert((a + b).drop_last() =~= a + b.drop_last());
        lemma_walk_append(stack, a, b.drop_last());
    }
}

/// Walking one component first.
pub proof fn lemma_walk_first(stack: Seq<Seq<u8>>, c: Seq<u8>, cs: Seq<Seq<u8>>)
    ensures
        walk(stack, seq![c] + cs) == walk(step(stack, c), cs),
        walk(stack, seq![c]) == step(stack, c),
{
    lemma_walk_append(stack, seq![c], cs);
    assert(seq![c].drop_last() =~= Seq::<Seq<u8>>::empty());
    reveal_with_fuel(walk, 2);
}

/// A walk from a host stack leads to one.
pub proof fn lemma_walk_host(stack: Seq<Seq<u8>>, cs: Seq<Seq<u8>>)
    requires
        is_host_stack(stack),
        slash_free(cs),
    ensures
        is_host_stack(walk(stack, cs)),
    decreases cs.len(),
{
    lemma_names();
    if cs.len() > 0 {
        lemma_walk_host(stack, cs.drop_last());
        let w = walk(stack, cs.drop_last());
        let c = cs.last();
        assert(!cs[cs.len() - 1].contains(SLASH));
        assert forall|i: int| 0 <= i < step(w, c).len() implies is_name(#[trigger] step(w, c)[i])
            && !step(w, c)[i].contains(SLASH) by {
            if i < w.len() {
                assert(is_name(w[i]) && !w[i].contains(SLASH));
            }
        }
    }
}

/// Walking down a host stack from the root builds it up.
pub proof fn lemma_walk_down(stack: Seq<Seq<u8>>)
    requires
        is_host_stack(stack),
    ensures
        walk(Seq::empty(), stack) == stack,
    decreases stack.len(),
{
    if stack.len() > 0 {
        let above = stack.drop_last();
        assert forall|i: int| 0 <= i < above.len() implies is_name(#[trigger] above[i])
            && !above[i].contains(SLASH) by {
            assert(is_name(stack[i]));
        }
        lemma_walk_down(above);
        assert(is_name(stack[stack.len() - 1]));
        if above.len() == 0 {
            assert(stack.last() == stack[0]);
        }
        assert(above.push(stack.last()) =~= stack);
    }
}

/// Texts of stacks join.
pub proof fn lemma_slashed_append(a: Seq<Seq<u8>>, b: Seq<Seq<u8>>)
    ensures
        slashed(a + b) == slashed(a) + slashed(b),
    decreases b.len(),
{
    if b.len() == 0 {
        assert(a + b =~= a);
        assert(slashed(a) + slashed(b) =~= slashed(a));
    } else {
        assert((a + b).drop_last() =~= a + b.drop_last());
        lemma_slashed_append(a, b.drop_last());
        assert(slashed(a + b) =~= slashed(a) + slashed(b));
    }
}

/// The components of a stack's text: the empty one before the first slash, and
/// the names.
pub proof fn lemma_slashed_components(stack: Seq<Seq<u8>>)
    requires
        slash_free(stack),
    ensures
        components(slashed(stack)) == seq![Seq::<u8>::empty()] + stack,
    decreases stack.len(),
{
    if stack.len() == 0 {
        assert(!Seq::<u8>::empty().contains(SLASH));
        lemma_components_single(Seq::<u8>::empty());
        assert(seq![Seq::<u8>::empty()] + stack =~= seq![Seq::<u8>::empty()]);
    } else {
        let above = stack.drop_last();
        assert(slash_free(above)) by {
            assert forall|i: int| 0 <= i < above.len() implies !(#[trigger] above[i]).contains(
                SLASH,
            ) by {
                assert(!stack[i].contains(SLASH));
            }
        }
        lemma_slashed_components(above);
        assert(!stack[stack.len() - 1].contains(SLASH));
        lemma_components_single(stack.last());
        lemma_components_split(slashed(above), stack.last());
        assert(seq![Seq::<u8>::empty()] + above + seq![stack.last()] =~= seq![Seq::<u8>::empty()]
            + stack);
    }
}

/// A stack's text starts with a slash.
pub proof fn lemma_slashed_starts(stack: Seq<Seq<u8>>)
    requires
        stack.len() > 0,
    ensures
        slashed(stack).len() > 0,
        slashed(stack)[0] == SLASH,
    decreases stack.len(),
{
    if stack.len() > 1 {
        lemma_slashed_starts(stack.drop_last());
    } else {
        assert(stack.drop_last() =~= Seq::<Seq<u8>>::empty());
        assert(slashed(stack.drop_last()) =~= Seq::<u8>::empty());
    }
}

/// One stack's text continues another's as the stacks do.
pub proof fn lemma_rest_after_slashed(stack: Seq<Seq<u8>>, top: Seq<Seq<u8>>)
    requires
        slash_free(stack),
        slash_free(top),
    ensures
        rest_after(slashed(stack), slashed(top)) == if top.is_prefix_of(stack) {
            Some(slashed(stack.skip(top.len() as int)))
        } else {
            None
        },
{
    let s = slashed(stack);
    let p = slashed(top);
    if top.is_prefix_of(stack) {
        let u = stack.skip(top.len() as int);
        assert(top + u =~= stack);
        lemma_slashed_append(top, u);
        assert(p.is_prefix_of(s));
        if u.len() > 0 {
            lemma_slashed_starts(u);
            assert(s[p.len() as int] == slashed(u)[0]);
        }
        assert(s.skip(p.len() as int) =~= slashed(u));
    } else if rest_after(s, p) is Some {
        lemma_slashed_components(stack);
        lemma_slashed_components(top);
        let e = seq![Seq::<u8>::empty()];
        if s.len() == p.len() {
            assert(s =~= p);
            assert(e + stack == e + top);
            assert((e + stack).skip(1) =~= stack);
            assert((e + top).skip(1) =~= top);
        } else {
            let rest = s.skip(p.len() as int + 1);
            assert(s =~= p + seq![SLASH] + rest);
            lemma_components_split(p, rest);
            assert(e + stack == e + top + components(rest));
            assert((e + stack).skip(1) =~= stack);
            assert((e + top + components(rest)).skip(1) =~= top + components(rest));
        }
        assert(false);
    }
}

/// The parent of a stack's text is the text of the parent.
pub proof fn lemma_parent_of_slashed(stack: Seq<Seq<u8>>)
    requires
        stack.len() > 0,
        is_stack(stack),
    ensures
        parent_of(slashed(stack)) == rendered(stack.drop_last()),
{
    let above = slashed(stack.drop_last());
    let c = stack.last();
    assert(!stack[stack.len() - 1].contains(SLASH));
    let s = slashed(stack);
    lemma_last_slash(above, c);
    if stack.len() > 1 {
        lemma_slashed_starts(stack.drop_last());
        assert(s.take(above.len() as int) =~= above);
    } else {
        assert(stack.drop_last() =~= Seq::<Seq<u8>>::empty());
        assert(above =~= Seq::<u8>::empty());
        assert(s.take(1) =~= seq![SLASH]);
    }
}

/// The last slash is the one before a text without slashes.
pub proof fn lemma_last_slash(a: Seq<u8>, c: Seq<u8>)
    requires
        !c.contains(SLASH),
    ensures
        last_slash(a + seq![SLASH] + c) == a.len(),
    decreases c.len(),
{
    let s = a + seq![SLASH] + c;
    if c.len() > 0 {
        assert(c.contains(c.last()));
        assert(s.last() == c.last());
        assert(s.drop_last() =~= a + seq![SLASH] + c.drop_last());
        assert(!c.drop_last().contains(SLASH)) by {
            if c.drop_last().contains(SLASH) {
                let i = choose|i: int| 0 <= i < c.drop_last().len() && c.drop_last()[i] == SLASH;
                assert(c[i] == SLASH);
            }
        }
        lemma_last_slash(a, c.drop_last());
    } else {
        assert(s.last() == SLASH);
    }
}

/// What follows a directory's text follows it in the joined text.
pub proof fn lemma_joined_rendered(dir: Seq<Seq<u8>>, rest: Seq<u8>)
    requires
        is_stack(dir),
    ensures
        joined(rendered(dir), rest) == slashed(dir) + seq![SLASH] + rest,
        components(joined(rendered(dir), rest)) == seq![Seq::<u8>::empty()] + dir + components(rest),
{
    assert(slash_free(dir)) by {
        assert forall|i: int| 0 <= i < dir.len() implies !(#[trigger] dir[i]).contains(SLASH) by {
            assert(is_name(dir[i]) && !dir[i].contains(SLASH));
        }
    }
    lemma_slashed_components(dir);
    lemma_components_split(slashed(dir), rest);
    if dir.len() == 0 {
        assert(slashed(dir) + seq![SLASH] + rest =~= seq![SLASH] + rest);
    } else {
        assert(is_name(dir[dir.len() - 1]));
        assert(slashed(dir).len() >= 2);
        assert(slashed(dir) != seq![SLASH]);
        assert(slashed(dir).push(SLASH) + rest =~= slashed(dir) + seq![SLASH] + rest);
    }
}

} // verus!
