//! Paths as sequences of parts, the way they are compared and joined.
use vstd::prelude::*;
use crate::bytes::{components, components_from, equal, find_component_end, SLASH};
use crate::tmp_path::host::{lemma_components_single, lemma_components_slash_free, lemma_components_split, lemma_slashed_components, lemma_slashed_starts, rendered, slash_free, slashed};

verus! {

/// `.`
pub const PERIOD: u8 = 46;

/// Whether a component counts: an empty one or a `.` says nothing.
pub open spec fn counts(c: Seq<u8>) -> bool {
    c.len() > 0 && c != seq![PERIOD]
}

/// The components that count.
pub open spec fn counted(cs: Seq<Seq<u8>>) -> Seq<Seq<u8>>
    decreases cs.len(),
{
    if cs.len() == 0 {
        Seq::empty()
    } else {
        (if counts(cs[0]) {
            seq![cs[0]]
        } else {
            Seq::empty()
        }) + counted(cs.skip(1))
    }
}

/// What a path starts from: the root, the current directory where it says so,
/// or nothing.
pub open spec fn origin(p: Seq<u8>) -> Seq<Seq<u8>> {
    if p.len() > 0 && p[0] == SLASH {
        seq![seq![SLASH]]
    } else if components(p)[0] == seq![PERIOD] {
        seq![seq![PERIOD]]
    } else {
        Seq::empty()
    }
}

/// The parts of a path. Repeated and trailing slashes make no difference, nor
/// does a `.` behind the first part.
pub open spec fn parts(p: Seq<u8>) -> Seq<Seq<u8>> {
    origin(p) + counted(components(p))
}

/// Whether a path is `dir` or lies below it.
pub open spec fn is_within(path: Seq<u8>, dir: Seq<u8>) -> bool {
    parts(dir).is_prefix_of(parts(path))
}

/// What some slices hold.
pub open spec fn slices(r: Seq<&[u8]>) -> Seq<Seq<u8>> {
    Seq::new(r.len(), |i: int| r[i]@)
}

proof fn lemma_step(s: Seq<u8>, pos: int, end: int)
    requires
        0 <= pos <= end <= s.len(),
        end == crate::bytes::component_end(s, pos),
    ensures
        counted(components_from(s, pos)) == (if counts(s.subrange(pos, end)) {
            seq![s.subrange(pos, end)]
        } else {
            Seq::empty()
        }) + (if end < s.len() {
            counted(components_from(s, end + 1))
        } else {
            Seq::empty()
        }),
{
    let all = components_from(s, pos);
    assert(all[0] == s.subrange(pos, end));
    if end < s.len() {
        assert(all.skip(1) =~= components_from(s, end + 1));
    } else {
        assert(all.skip(1) =~= Seq::<Seq<u8>>::empty());
        assert(counted(all.skip(1)) =~= Seq::<Seq<u8>>::empty());
    }
}

/// The parts of a path.
pub fn parts_of<'a>(p: &'a [u8]) -> (r: Vec<&'a [u8]>)
    ensures
        slices(r@) == parts(p@),
{
    let mut r: Vec<&'a [u8]> = Vec::new();
    let first = find_component_end(p, 0);
    proof {
        assert(components(p@)[0] == p@.subrange(0, first as int));
    }
    if p.len() > 0 && p[0] == SLASH {
        r.push(&p[0..1]);
        proof {
            assert(r@[0]@ =~= seq![SLASH]);
        }
    } else if first == 1 && p[0] == PERIOD {
        r.push(&p[0..1]);
        proof {
            assert(p@.subrange(0, 1) =~= seq![PERIOD]);
            assert(r@[0]@ =~= seq![PERIOD]);
        }
    } else {
        proof {
            if components(p@)[0] == seq![PERIOD] {
                assert(p@.subrange(0, first as int)[0] == PERIOD);
            }
        }
    }
    proof {
        assert(slices(r@) =~= origin(p@));
    }
    let mut pos: usize = 0;
    let mut more = true;
    while more
        invariant
            more ==> pos <= p@.len(),
            slices(r@) + (if more {
                counted(components_from(p@, pos as int))
            } else {
                Seq::empty()
            }) == parts(p@),
        decreases (if more { p@.len() - pos + 1 } else { 0 }),
    {
        let end = find_component_end(p, pos);
        let c = &p[pos..end];
        let ghost before = slices(r@);
        proof {
            lemma_step(p@, pos as int, end as int);
            if counts(c@) && c@.len() == 1 {
                assert(c@ =~= seq![c@[0]]);
            }
            if c@.len() == 1 && c@[0] == PERIOD {
                assert(c@ =~= seq![PERIOD]);
            }
        }
        if c.len() > 1 || (c.len() == 1 && c[0] != PERIOD) {
            r.push(c);
            proof {
                assert(slices(r@) =~= before.push(c@));
                assert(counts(c@));
            }
        }
        proof {
            let tail = if end < p@.len() {
                counted(components_from(p@, end + 1))
            } else {
                Seq::empty()
            };
            assert(slices(r@) + tail =~= before + counted(components_from(p@, pos as int)));
        }
        if end < p.len() {
            pos = end + 1;
        } else {
            more = false;
        }
    }
    proof {
        assert(slices(r@) =~= parts(p@));
    }
    r
}

/// Whether a path is `dir` or lies below it.
pub fn within(path: &[u8], dir: &[u8]) -> (r: bool)
    ensures
        r == is_within(path@, dir@),
{
    let outer = parts_of(dir);
    let inner = parts_of(path);
    proof {
        assert(parts(dir@).len() == outer@.len());
        assert(parts(path@).len() == inner@.len());
    }
    if outer.len() > inner.len() {
        return false;
    }
    let mut i: usize = 0;
    while i < outer.len()
        invariant
            i <= outer@.len() <= inner@.len(),
            slices(outer@) == parts(dir@),
            slices(inner@) == parts(path@),
            forall|j: int| 0 <= j < i ==> parts(dir@)[j] == parts(path@)[j],
        decreases outer@.len() - i,
    {
        proof {
            assert(slices(outer@)[i as int] == outer@[i as int]@);
            assert(slices(inner@)[i as int] == inner@[i as int]@);
        }
        if !equal(outer[i], inner[i]) {
            return false;
        }
        i = i + 1;
    }
    true
}

/// Whether two paths have the same parts.
pub fn same(a: &[u8], b: &[u8]) -> (r: bool)
    ensures
        r == (parts(a@) == parts(b@)),
{
    let r = within(a, b) && within(b, a);
    proof {
        if r {
            assert(parts(a@) =~= parts(b@));
        } else if parts(a@) == parts(b@) {
            assert(is_within(a@, b@));
        }
    }
    r
}

/// A path in a directory. An absolute one replaces the directory.
pub open spec fn joined(base: Seq<u8>, path: Seq<u8>) -> Seq<u8> {
    if path.len() > 0 && path[0] == SLASH {
        path
    } else if base.len() > 0 && base.last() != SLASH {
        base.push(SLASH) + path
    } else {
        base + path
    }
}

/// A path in a directory.
pub fn join(base: &[u8], path: &[u8]) -> (r: Vec<u8>)
    ensures
        r@ == joined(base@, path@),
{
    let mut r: Vec<u8> = Vec::new();
    if path.len() > 0 && path[0] == SLASH {
        r.extend_from_slice(path);
        proof {
            assert(r@ =~= path@);
        }
        return r;
    }
    r.extend_from_slice(base);
    proof {
        assert(r@ =~= base@);
    }
    if base.len() > 0 && base[base.len() - 1] != SLASH {
        r.push(SLASH);
    }
    let ghost stem = r@;
    r.extend_from_slice(path);
    proof {
        assert(r@ =~= stem + path@);
    }
    r
}

/// A name of an entry of a directory, as a path spells it.
pub open spec fn is_entry_name(c: Seq<u8>) -> bool {
    c.len() > 0 && !c.contains(47u8) && c != seq![46u8]
}

/// Names of entries, each in the one before.
pub open spec fn are_entry_names(names: Seq<Seq<u8>>) -> bool {
    forall|i: int| 0 <= i < names.len() ==> is_entry_name(#[trigger] names[i])
}

proof fn lemma_counted_append(a: Seq<Seq<u8>>, b: Seq<Seq<u8>>)
    ensures
        counted(a + b) == counted(a) + counted(b),
    decreases a.len(),
{
    if a.len() == 0 {
        assert(a + b =~= b);
        assert(counted(a) + counted(b) =~= counted(b));
    } else {
        assert((a + b).skip(1) =~= a.skip(1) + b);
        lemma_counted_append(a.skip(1), b);
        assert(counted(a + b) =~= counted(a) + counted(b));
    }
}

proof fn lemma_counted_names(names: Seq<Seq<u8>>)
    requires
        are_entry_names(names),
    ensures
        counted(names) == names,
    decreases names.len(),
{
    if names.len() > 0 {
        assert forall|i: int| 0 <= i < names.skip(1).len() implies is_entry_name(
            #[trigger] names.skip(1)[i],
        ) by {
            assert(is_entry_name(names[i + 1]));
        }
        lemma_counted_names(names.skip(1));
        assert(is_entry_name(names[0]));
        assert(seq![names[0]] + names.skip(1) =~= names);
    }
}

/// The parts of an absolute path are the root and the names that it spells.
pub proof fn law_names_are_parts(names: Seq<Seq<u8>>)
    requires
        are_entry_names(names),
    ensures
        parts(rendered(names)) == seq![seq![47u8]] + names,
{
    let slash = seq![47u8];
    if names.len() == 0 {
        let none = Seq::<u8>::empty();
        assert(!none.contains(SLASH));
        lemma_components_single(none);
        lemma_components_split(none, none);
        assert(none + seq![SLASH] + none =~= slash);
        let twice = seq![none] + seq![none];
        lemma_counted_append(seq![none], seq![none]);
        reveal_with_fuel(counted, 2);
        assert(counted(seq![none]) =~= Seq::empty());
        assert(counted(twice) =~= Seq::empty());
        assert(parts(slash) =~= seq![slash] + names);
    } else {
        assert(slash_free(names)) by {
            assert forall|i: int| 0 <= i < names.len() implies !(#[trigger] names[i]).contains(
                SLASH,
            ) by {
                assert(is_entry_name(names[i]));
            }
        }
        lemma_slashed_components(names);
        lemma_slashed_starts(names);
        let none = seq![Seq::<u8>::empty()];
        lemma_counted_append(none, names);
        lemma_counted_names(names);
        reveal_with_fuel(counted, 2);
        assert(counted(none) =~= Seq::empty());
        assert(counted(none + names) =~= names);
    }
}

/// The parts of a relative path are the names that it spells.
pub proof fn law_relative_names_are_parts(names: Seq<Seq<u8>>)
    requires
        are_entry_names(names),
        names.len() > 0,
    ensures
        parts(slashed(names).skip(1)) == names,
{
    law_names_are_parts(names);
    lemma_slashed_starts(names);
    let t = slashed(names);
    let rest = t.skip(1);
    let none = Seq::<u8>::empty();
    assert(slash_free(names)) by {
        assert forall|i: int| 0 <= i < names.len() implies !(#[trigger] names[i]).contains(
            SLASH,
        ) by {
            assert(is_entry_name(names[i]));
        }
    }
    lemma_slashed_components(names);
    assert(!none.contains(SLASH));
    lemma_components_single(none);
    lemma_components_split(none, rest);
    assert(none + seq![SLASH] + rest =~= t);
    assert(components(rest) =~= (seq![none] + components(rest)).skip(1));
    assert((seq![none] + names).skip(1) =~= names);
    assert(components(rest) == names);
    lemma_counted_names(names);
    assert(is_entry_name(names[0]));
    if rest.len() > 0 && rest[0] == SLASH {
        lemma_components_split(none, rest.skip(1));
        assert(none + seq![SLASH] + rest.skip(1) =~= rest);
        assert(components(rest)[0] == none);
    }
    assert(parts(rest) =~= names);
}

/// How often a slash is written makes no difference, nor does a `.` between two
/// slashes, nor a slash at the end.
pub proof fn law_slashes_make_no_difference(a: Seq<u8>, b: Seq<u8>)
    requires
        a.len() > 0,
    ensures
        parts(a + seq![47u8] + seq![47u8] + b) == parts(a + seq![47u8] + b),
        parts(a + seq![47u8] + seq![46u8, 47] + b) == parts(a + seq![47u8] + b),
        parts(a + seq![47u8]) == parts(a),
{
    let none = Seq::<u8>::empty();
    let dot = seq![46u8];
    assert(!none.contains(SLASH) && !dot.contains(SLASH));
    lemma_components_single(none);
    lemma_components_single(dot);
    lemma_components_split(a, b);
    lemma_components_split(a, none);
    lemma_components_split(none, b);
    lemma_components_split(dot, b);
    lemma_components_split(a, none + seq![SLASH] + b);
    lemma_components_split(a, dot + seq![SLASH] + b);
    assert(a + seq![SLASH] + (none + seq![SLASH] + b) =~= a + seq![47u8] + seq![47u8] + b);
    assert(a + seq![SLASH] + (dot + seq![SLASH] + b) =~= a + seq![47u8] + seq![46u8, 47] + b);
    assert(a + seq![SLASH] + none =~= a + seq![47u8]);
    lemma_components_slash_free(a);
    let first = components(a)[0];
    lemma_counted_append(components(a), components(b));
    lemma_counted_append(components(a), seq![none]);
    lemma_counted_append(components(a), seq![none] + components(b));
    lemma_counted_append(components(a), seq![dot] + components(b));
    lemma_counted_append(seq![none], components(b));
    lemma_counted_append(seq![dot], components(b));
    reveal_with_fuel(counted, 2);
    assert(counted(seq![none]) =~= Seq::empty());
    assert(counted(seq![dot]) =~= Seq::empty());
    let once = a + seq![47u8] + b;
    let twice = a + seq![47u8] + seq![47u8] + b;
    let dotted = a + seq![47u8] + seq![46u8, 47] + b;
    let ended = a + seq![47u8];
    assert(components(once)[0] == first && components(twice)[0] == first);
    assert(components(dotted)[0] == first && components(ended)[0] == first);
    assert(once[0] == a[0] && twice[0] == a[0] && dotted[0] == a[0] && ended[0] == a[0]);
    assert(counted(components(twice)) =~= counted(components(once)));
    assert(counted(components(dotted)) =~= counted(components(once)));
    assert(counted(components(ended)) =~= counted(components(a)));
}

/// One directory lies within another exactly where the names that lead to the
/// second begin those that lead to the first: a name is compared as a whole.
pub proof fn law_within_by_names(names: Seq<Seq<u8>>, dir: Seq<Seq<u8>>)
    requires
        are_entry_names(names),
        are_entry_names(dir),
    ensures
        is_within(rendered(names), rendered(dir)) <==> dir.len() <= names.len() && forall|i: int|
            0 <= i < dir.len() ==> #[trigger] dir[i] == names[i],
        parts(rendered(names)) == parts(rendered(dir)) <==> names == dir,
{
    law_names_are_parts(names);
    law_names_are_parts(dir);
    let root = seq![seq![47u8]];
    let p = root + names;
    let d = root + dir;
    if d.is_prefix_of(p) {
        assert forall|i: int| 0 <= i < dir.len() implies #[trigger] dir[i] == names[i] by {
            assert(d[i + 1] == p.subrange(0, d.len() as int)[i + 1]);
        }
    }
    if dir.len() <= names.len() && (forall|i: int|
        0 <= i < dir.len() ==> #[trigger] dir[i] == names[i]) {
        assert(d =~= p.subrange(0, d.len() as int)) by {
            assert forall|i: int| 0 <= i < d.len() implies d[i] == p[i] by {
                if i > 0 {
                    assert(d[i] == dir[i - 1]);
                }
            }
        }
    }
    assert(p.skip(1) =~= names);
    assert(d.skip(1) =~= dir);
}

/// A path in a directory has the directory's parts and then its own; an absolute
/// one stays as it is.
pub proof fn law_joined_parts(base: Seq<u8>, path: Seq<u8>)
    requires
        base.len() > 0,
    ensures
        path.len() > 0 && path[0] == 47 ==> joined(base, path) == path,
        !(path.len() > 0 && path[0] == 47) ==> {
            &&& base.is_prefix_of(joined(base, path))
            &&& joined(base, path).len() <= base.len() + path.len() + 1
            &&& components(path)[0] != seq![46u8] ==> parts(joined(base, path)) == parts(base)
                + parts(path)
        },
{
    if !(path.len() > 0 && path[0] == 47) {
        let r = joined(base, path);
        assert(r.subrange(0, base.len() as int) =~= base);
        let none = Seq::<u8>::empty();
        if base.last() != SLASH {
            lemma_components_split(base, path);
            assert(base.push(SLASH) + path =~= base + seq![SLASH] + path);
            lemma_counted_append(components(base), components(path));
            lemma_components_slash_free(base);
        } else {
            let stem = base.drop_last();
            assert(base =~= stem + seq![SLASH] + none);
            assert(r =~= stem + seq![SLASH] + path);
            assert(!none.contains(SLASH));
            lemma_components_single(none);
            lemma_components_split(stem, path);
            lemma_components_split(stem, none);
            lemma_components_slash_free(stem);
            lemma_counted_append(components(stem), components(path));
            lemma_counted_append(components(stem), seq![none]);
            reveal_with_fuel(counted, 2);
            assert(counted(seq![none]) =~= Seq::empty());
            assert(counted(components(base)) =~= counted(components(stem)));
        }
        assert(r[0] == base[0]);
        assert(components(r)[0] == components(base)[0]);
        if components(path)[0] != seq![46u8] {
            assert(parts(path) =~= counted(components(path)));
            assert(parts(r) =~= parts(base) + parts(path));
        }
    }
}

} // verus!
