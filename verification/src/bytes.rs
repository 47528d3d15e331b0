//! Byte strings and the slash-separated components of a path.
use vstd::prelude::*;

verus! {

/// `/`
pub const SLASH: u8 = 47;

/// `s` with the bytes from `at` on overwritten by `t`.
pub open spec fn splice(s: Seq<u8>, at: int, t: Seq<u8>) -> Seq<u8> {
    s.take(at) + t + s.skip(at + t.len())
}

/// Overwrite `dst` with `src`, starting at `at`.
pub fn copy_at(dst: &mut [u8], at: usize, src: &[u8])
    requires
        at + src@.len() <= old(dst)@.len(),
    ensures
        final(dst)@ == splice(old(dst)@, at as int, src@),
{
    let ghost before = dst@;
    let total = dst.len();
    let mut i: usize = 0;
    while i < src.len()
        invariant
            i <= src@.len(),
            at + src@.len() <= total,
            total == before.len(),
            dst@ == splice(before, at as int, src@.take(i as int)),
        decreases src@.len() - i,
    {
        dst[at + i] = src[i];
        i = i + 1;
        proof {
            assert(dst@ =~= splice(before, at as int, src@.take(i as int)));
        }
    }
    proof {
        assert(src@.take(i as int) =~= src@);
    }
}

/// A copy of `s` on the heap.
pub fn copied(s: &[u8]) -> (r: Vec<u8>)
    ensures
        r@ == s@,
{
    let mut r: Vec<u8> = Vec::new();
    let mut i: usize = 0;
    while i < s.len()
        invariant
            i <= s@.len(),
            r@ == s@.take(i as int),
        decreases s@.len() - i,
    {
        r.push(s[i]);
        i = i + 1;
        proof {
            assert(r@ =~= s@.take(i as int));
        }
    }
    proof {
        assert(r@ =~= s@);
    }
    r
}

/// Whether two byte strings are equal.
pub fn equal(a: &[u8], b: &[u8]) -> (r: bool)
    ensures
        r == (a@ == b@),
{
    if a.len() != b.len() {
        return false;
    }
    let mut i: usize = 0;
    while i < a.len()
        invariant
            i <= a@.len(),
            a@.len() == b@.len(),
            forall|j: int| 0 <= j < i ==> a@[j] == b@[j],
        decreases a@.len() - i,
    {
        if a[i] != b[i] {
            return false;
        }
        i = i + 1;
    }
    proof {
        assert(a@ =~= b@);
    }
    true
}

/// Whether `s` begins with `prefix`.
pub fn starts_with(s: &[u8], prefix: &[u8]) -> (r: bool)
    ensures
        r == prefix@.is_prefix_of(s@),
{
    if prefix.len() > s.len() {
        return false;
    }
    equal(&s[0..prefix.len()], prefix)
}

/// The end of the component that starts at `pos`: the first slash at or after
/// `pos`, or the end of `s`.
pub open spec fn component_end(s: Seq<u8>, pos: int) -> int
    decreases s.len() - pos,
{
    if pos >= s.len() || s[pos] == SLASH {
        pos
    } else {
        component_end(s, pos + 1)
    }
}

/// The components of `s` from `pos` on. A path has one more component than it
/// has slashes; adjacent slashes enclose an empty one.
pub open spec fn components_from(s: Seq<u8>, pos: int) -> Seq<Seq<u8>>
    decreases s.len() - pos,
    when 0 <= pos <= s.len()
    via components_from_decreases
{
    let end = component_end(s, pos);
    if end < s.len() {
        seq![s.subrange(pos, end)] + components_from(s, end + 1)
    } else {
        seq![s.subrange(pos, end)]
    }
}

#[via_fn]
proof fn components_from_decreases(s: Seq<u8>, pos: int) {
    lemma_component_end(s, pos);
}

/// The slash-separated components of `s`.
pub open spec fn components(s: Seq<u8>) -> Seq<Seq<u8>> {
    components_from(s, 0)
}

/// A component runs from its start up to a slash or the end, and holds none.
pub proof fn lemma_component_end(s: Seq<u8>, pos: int)
    requires
        0 <= pos <= s.len(),
    ensures
        pos <= component_end(s, pos) <= s.len(),
        component_end(s, pos) < s.len() ==> s[component_end(s, pos)] == SLASH,
        forall|i: int| pos <= i < component_end(s, pos) ==> s[i] != SLASH,
    decreases s.len() - pos,
{
    if pos < s.len() && s[pos] != SLASH {
        lemma_component_end(s, pos + 1);
    }
}

/// A component end is where the first slash is.
pub proof fn lemma_component_end_is(s: Seq<u8>, pos: int, end: int)
    requires
        0 <= pos <= end <= s.len(),
        end < s.len() ==> s[end] == SLASH,
        forall|i: int| pos <= i < end ==> s[i] != SLASH,
    ensures
        component_end(s, pos) == end,
    decreases end - pos,
{
    if pos < end {
        lemma_component_end_is(s, pos + 1, end);
    }
}

/// Find the end of the component that starts at `pos`.
pub fn find_component_end(s: &[u8], pos: usize) -> (end: usize)
    requires
        pos <= s@.len(),
    ensures
        end == component_end(s@, pos as int),
        pos <= end <= s@.len(),
{
    let mut end: usize = pos;
    while end < s.len() && s[end] != SLASH
        invariant
            pos <= end <= s@.len(),
            forall|i: int| pos <= i < end ==> s@[i] != SLASH,
        decreases s@.len() - end,
    {
        end = end + 1;
    }
    proof {
        lemma_component_end_is(s@, pos as int, end as int);
    }
    end
}

/// The little-endian number of `n` bytes at `at`.
pub open spec fn little(b: Seq<u8>, at: int, n: nat) -> nat
    decreases n,
{
    if n == 0 {
        0
    } else {
        b[at] as nat + 256 * little(b, at + 1, (n - 1) as nat)
    }
}

/// The two's complement number for 32 bits.
pub open spec fn signed(v: int) -> int {
    if v < 0x8000_0000 {
        v
    } else {
        v - 0x1_0000_0000
    }
}

/// The number of four bytes at `at`.
pub fn read32(b: &[u8], at: usize) -> (r: u32)
    requires
        at + 4 <= b@.len(),
    ensures
        r == little(b@, at as int, 4),
{
    proof {
        reveal_with_fuel(little, 5);
    }
    b[at] as u32 + 256 * (b[at + 1] as u32) + 65536 * (b[at + 2] as u32) + 16777216 * (b[at
        + 3] as u32)
}

/// Overwriting changes the bytes that are written over, and no others.
pub proof fn law_splice_keeps_the_rest(s: Seq<u8>, at: int, t: Seq<u8>, i: int)
    requires
        0 <= at,
        at + t.len() <= s.len(),
        0 <= i < s.len(),
    ensures
        splice(s, at, t).len() == s.len(),
        splice(s, at, t)[i] == if at <= i < at + t.len() {
            t[i - at]
        } else {
            s[i]
        },
{
}

} // verus!
