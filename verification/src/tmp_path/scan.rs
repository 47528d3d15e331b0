//! Where the leading components of a path lead, read one at a time as the
//! kernel resolves them.
use vstd::prelude::*;
use crate::bytes::{component_end, components, components_from, equal, find_component_end, lemma_component_end};
use crate::tmp_path::{Base, TempRoot, DOT, DOTDOT, PATH_ROOM, PRIVATE, TMP, VAR};

verus! {

/// Where a path stands after some of its components.
pub enum Place {
    /// In one of the aliased directories that lead to a temp root.
    Base(Base),
    /// `depth` named components below `base`, outside every temp root.
    Other { base: Base, depth: nat },
    /// `depth` components below a temp root whose own name ends at `start`.
    /// `named` once a name was read below the root: from then on a `..` may
    /// be crossing a symlink.
    Temp { sub: TempRoot, start: int, depth: nat, named: bool },
}

/// What one more component does to a place.
pub enum Move {
    /// It leads to another place.
    To(Place),
    /// It is a `..` whose meaning only the kernel knows. `head` is the temp
    /// root that the text from `start` on lies below, if there is one.
    Ask { head: Option<TempRoot>, start: int },
}

/// What reading a whole path ends with.
pub enum Reading {
    /// Every component was read.
    Done(Place),
    /// The component `at..end` is a `..` that only the kernel can resolve.
    Ask { head: Option<TempRoot>, start: int, at: int, end: int },
}

/// Read component `c`, which ends at `end`. `tmp_follows` tells whether a
/// later component is `tmp`: without one, a `..` that leaves a name cannot
/// reach a temp root and needs no kernel.
pub open spec fn move_by(place: Place, c: Seq<u8>, end: int, tmp_follows: bool) -> Move {
    if c.len() == 0 || c == DOT@ {
        Move::To(place)
    } else {
        match place {
            Place::Base(b) => Move::To(
                if c == DOTDOT@ {
                    Place::Base(b.above())
                } else if c == PRIVATE@ && b == Base::Root {
                    Place::Base(Base::Private)
                } else if c == VAR@ && b != Base::PrivVar {
                    Place::Base(Base::PrivVar)
                } else if c == TMP@ {
                    Place::Temp {
                        sub: if b == Base::PrivVar {
                            TempRoot::VarTmp
                        } else {
                            TempRoot::Tmp
                        },
                        start: end,
                        depth: 0,
                        named: false,
                    }
                } else {
                    Place::Other { base: b, depth: 1 }
                },
            ),
            Place::Other { base, depth } => if c != DOTDOT@ {
                Move::To(Place::Other { base, depth: depth + 1 })
            } else if tmp_follows {
                Move::Ask { head: None, start: 0 }
            } else if depth <= 1 {
                Move::To(Place::Base(base))
            } else {
                Move::To(Place::Other { base, depth: (depth - 1) as nat })
            },
            Place::Temp { sub, start, depth, named } => if c != DOTDOT@ {
                Move::To(Place::Temp { sub, start, depth: depth + 1, named: true })
            } else if depth > 0 {
                Move::To(Place::Temp { sub, start, depth: (depth - 1) as nat, named })
            } else if named {
                Move::Ask { head: Some(sub), start }
            } else {
                Move::To(Place::Base(sub.parent()))
            },
        }
    }
}

/// Whether a component after the one that ends at `end` is `tmp`.
pub open spec fn tmp_after(s: Seq<u8>, end: int) -> bool {
    end < s.len() && components_from(s, end + 1).contains(TMP@)
}

/// Read the components of `s` from `pos` on, starting in `place`.
pub open spec fn read_from(s: Seq<u8>, place: Place, pos: int) -> Reading
    decreases s.len() - pos,
    when 0 <= pos <= s.len()
    via read_from_decreases
{
    let end = component_end(s, pos);
    match move_by(place, s.subrange(pos, end), end, tmp_after(s, end)) {
        Move::Ask { head, start } => Reading::Ask { head, start, at: pos, end },
        Move::To(next) => if end < s.len() {
            read_from(s, next, end + 1)
        } else {
            Reading::Done(next)
        },
    }
}

#[via_fn]
proof fn read_from_decreases(s: Seq<u8>, place: Place, pos: int) {
    lemma_component_end(s, pos);
}

/// Read a whole absolute path.
pub open spec fn read_path(s: Seq<u8>) -> Reading {
    read_from(s, Place::Base(Base::Root), 0)
}

/// A temp root's name ends within the part of the path that was read.
pub open spec fn place_within(place: Place, pos: int) -> bool {
    place matches Place::Temp { start, .. } ==> 0 <= start <= pos
}

/// The offsets of a reading lie within the path, in order, and a component
/// that has to be asked about is a `..`.
pub proof fn lemma_read_from_bounds(s: Seq<u8>, place: Place, pos: int)
    requires
        0 <= pos <= s.len(),
        place_within(place, pos),
    ensures
        match read_from(s, place, pos) {
            Reading::Done(last) => place_within(last, s.len() as int),
            Reading::Ask { head, start, at, end } => {
                &&& 0 <= start <= at <= end <= s.len()
                &&& pos <= at
                &&& end == component_end(s, at)
                &&& s.subrange(at, end) == DOTDOT@
            },
        },
    decreases s.len() - pos,
{
    lemma_component_end(s, pos);
    let end = component_end(s, pos);
    match move_by(place, s.subrange(pos, end), end, tmp_after(s, end)) {
        Move::Ask { .. } => {},
        Move::To(next) => {
            if end < s.len() {
                lemma_read_from_bounds(s, next, end + 1);
            }
        },
    }
}

/// A place, with machine integers.
#[derive(Clone, Copy)]
pub enum Scan {
    Base(Base),
    Other { base: Base, depth: u32 },
    Temp { sub: TempRoot, start: usize, depth: u32, named: bool },
}

impl View for Scan {
    type V = Place;

    open spec fn view(&self) -> Place {
        match *self {
            Scan::Base(b) => Place::Base(b),
            Scan::Other { base, depth } => Place::Other { base, depth: depth as nat },
            Scan::Temp { sub, start, depth, named } => Place::Temp {
                sub,
                start: start as int,
                depth: depth as nat,
                named,
            },
        }
    }
}

impl Scan {
    /// The counted depth does not exceed `n`.
    pub open spec fn depth_within(self, n: int) -> bool {
        match self {
            Scan::Base(_) => true,
            Scan::Other { base, depth } => depth <= n,
            Scan::Temp { sub, start, depth, named } => depth <= n,
        }
    }
}

/// What reading a path ends with, with machine integers.
pub enum Outcome {
    Done(Scan),
    Ask { head: Option<TempRoot>, start: usize, at: usize, end: usize },
}

impl View for Outcome {
    type V = Reading;

    open spec fn view(&self) -> Reading {
        match *self {
            Outcome::Done(scan) => Reading::Done(scan@),
            Outcome::Ask { head, start, at, end } => Reading::Ask {
                head,
                start: start as int,
                at: at as int,
                end: end as int,
            },
        }
    }
}

/// Whether some component of `s` from `pos` on is `c`.
pub fn has_component_from(s: &[u8], pos: usize, c: &[u8]) -> (r: bool)
    requires
        pos <= s@.len(),
    ensures
        r == components_from(s@, pos as int).contains(c@),
    decreases s@.len() - pos,
{
    let end = find_component_end(s, pos);
    let ghost all = components_from(s@, pos as int);
    if equal(&s[pos..end], c) {
        proof {
            assert(all[0] == c@);
        }
        return true;
    }
    if end < s.len() {
        let r = has_component_from(s, end + 1, c);
        proof {
            let tail = components_from(s@, end + 1);
            assert(all =~= seq![s@.subrange(pos as int, end as int)] + tail);
            if r {
                let i = choose|i: int| 0 <= i < tail.len() && tail[i] == c@;
                assert(all[i + 1] == c@);
            } else if all.contains(c@) {
                let i = choose|i: int| 0 <= i < all.len() && all[i] == c@;
                assert(tail[i - 1] == c@);
            }
        }
        r
    } else {
        false
    }
}

/// True when some component of `path` is literally `tmp`.
pub fn has_tmp_component(path: &[u8]) -> (r: bool)
    ensures
        r == components(path@).contains(TMP@),
{
    has_component_from(path, 0, &TMP)
}

/// How many components of `s` from `pos` on are `..`.
pub open spec fn dotdots_from(s: Seq<u8>, pos: int) -> nat {
    count_dotdots(components_from(s, pos))
}

/// How many of `cs` are `..`.
pub open spec fn count_dotdots(cs: Seq<Seq<u8>>) -> nat
    decreases cs.len(),
{
    if cs.len() == 0 {
        0
    } else {
        count_dotdots(cs.drop_first()) + if cs[0] == DOTDOT@ {
            1nat
        } else {
            0nat
        }
    }
}

/// How many `..` components `s` has.
pub open spec fn dotdots(s: Seq<u8>) -> nat {
    dotdots_from(s, 0)
}

/// How many `..` components appear in `path`.
pub fn dotdot_count(path: &[u8]) -> (r: usize)
    ensures
        r == dotdots(path@),
{
    let mut count: usize = 0;
    let mut pos: usize = 0;
    loop
        invariant_except_break
            pos <= path@.len(),
            count <= pos,
            count + dotdots_from(path@, pos as int) == dotdots(path@),
        ensures
            count == dotdots(path@),
        decreases path@.len() - pos,
    {
        let end = find_component_end(path, pos);
        let ghost cs = components_from(path@, pos as int);
        if equal(&path[pos..end], &DOTDOT) {
            proof {
                assert(path@.subrange(pos as int, end as int).len() == 2);
            }
            count = count + 1;
        }
        if end >= path.len() {
            proof {
                assert(cs.drop_first() =~= Seq::<Seq<u8>>::empty());
                reveal_with_fuel(count_dotdots, 2);
            }
            break;
        }
        proof {
            assert(cs.drop_first() =~= components_from(path@, end + 1));
        }
        pos = end + 1;
    }
    count
}

/// The first component of `s` from `pos` on that is neither empty nor `.`, or
/// the empty one.
pub open spec fn first_real_from(s: Seq<u8>, pos: int) -> Seq<u8>
    decreases s.len() - pos,
    when 0 <= pos <= s.len()
    via first_real_from_decreases
{
    let end = component_end(s, pos);
    let c = s.subrange(pos, end);
    if c.len() > 0 && c != DOT@ {
        c
    } else if end < s.len() {
        first_real_from(s, end + 1)
    } else {
        Seq::empty()
    }
}

#[via_fn]
proof fn first_real_from_decreases(s: Seq<u8>, pos: int) {
    lemma_component_end(s, pos);
}

/// The first component of a relative path that is neither empty nor `.`, or
/// the empty one when `p` has none.
pub fn first_real_component(p: &[u8]) -> (r: &[u8])
    ensures
        r@ == first_real_from(p@, 0),
{
    let mut pos: usize = 0;
    loop
        invariant
            pos <= p@.len(),
            first_real_from(p@, pos as int) == first_real_from(p@, 0),
        decreases p@.len() - pos,
    {
        let end = find_component_end(p, pos);
        let c = &p[pos..end];
        if c.len() > 0 && !equal(c, &DOT) {
            return c;
        }
        if end >= p.len() {
            let none = &p[0..0];
            proof {
                assert(none@ =~= Seq::<u8>::empty());
            }
            return none;
        }
        pos = end + 1;
    }
}

/// Read the components of an absolute path left to right, up to the first
/// that needs the kernel.
pub fn scan_path(s: &[u8]) -> (r: Outcome)
    requires
        s@.len() < PATH_ROOM,
    ensures
        r@ == read_path(s@),
{
    let mut place = Scan::Base(Base::Root);
    let mut pos: usize = 0;
    loop
        invariant
            pos <= s@.len() < PATH_ROOM,
            place.depth_within(pos as int),
            read_from(s@, place@, pos as int) == read_path(s@),
        decreases s@.len() - pos,
    {
        let end = find_component_end(s, pos);
        let c = &s[pos..end];
        if c.len() > 0 && !equal(c, &DOT) {
            let up = equal(c, &DOTDOT);
            place = match place {
                Scan::Base(b) => if up {
                    Scan::Base(b.parent())
                } else if b == Base::Root && equal(c, &PRIVATE) {
                    Scan::Base(Base::Private)
                } else if b != Base::PrivVar && equal(c, &VAR) {
                    Scan::Base(Base::PrivVar)
                } else if equal(c, &TMP) {
                    let sub = if b == Base::PrivVar {
                        TempRoot::VarTmp
                    } else {
                        TempRoot::Tmp
                    };
                    Scan::Temp { sub, start: end, depth: 0, named: false }
                } else {
                    Scan::Other { base: b, depth: 1 }
                },
                Scan::Other { base, depth } => if !up {
                    Scan::Other { base, depth: depth + 1 }
                } else if end < s.len() && has_component_from(s, end + 1, &TMP) {
                    return Outcome::Ask { head: None, start: 0, at: pos, end };
                } else if depth <= 1 {
                    Scan::Base(base)
                } else {
                    Scan::Other { base, depth: depth - 1 }
                },
                Scan::Temp { sub, start, depth, named } => if !up {
                    Scan::Temp { sub, start, depth: depth + 1, named: true }
                } else if depth > 0 {
                    Scan::Temp { sub, start, depth: depth - 1, named }
                } else if named {
                    return Outcome::Ask { head: Some(sub), start, at: pos, end };
                } else {
                    match sub {
                        TempRoot::Tmp => Scan::Base(Base::Private),
                        TempRoot::VarTmp => Scan::Base(Base::PrivVar),
                    }
                },
            };
        }
        if end >= s.len() {
            return Outcome::Done(place);
        }
        pos = end + 1;
    }
}

} // verus!
