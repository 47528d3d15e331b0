//! The kernel's answer to where a path leads.
use vstd::prelude::*;
use crate::bytes::{copied, little, read32, signed};
use crate::sys::{too_long, Platform, EIO};

verus! {

/// Where the reference to the name stands in an answer: behind its length.
pub const REFERENCE: usize = 4;

/// The bytes before the first zero.
pub open spec fn before_zero(t: Seq<u8>) -> Seq<u8>
    decreases t.len(),
{
    if t.len() == 0 || t[0] == 0 {
        Seq::empty()
    } else {
        seq![t[0]] + before_zero(t.skip(1))
    }
}

/// The name in an answer. A reference of two words, an offset from itself and a
/// length, leads to it. None where it leads out of the answer.
pub open spec fn name_in(answer: Seq<u8>) -> Option<Seq<u8>> {
    let start = REFERENCE + signed(little(answer, REFERENCE as int, 4) as int);
    let end = start + little(answer, REFERENCE + 4, 4);
    if answer.len() < REFERENCE + 8 || start < 0 || end > answer.len() {
        None
    } else {
        Some(before_zero(answer.subrange(start, end)))
    }
}

proof fn lemma_before_zero(t: Seq<u8>, n: int)
    requires
        0 <= n <= t.len(),
        n < t.len() ==> t[n] == 0,
        forall|i: int| 0 <= i < n ==> t[i] != 0,
    ensures
        before_zero(t) == t.take(n),
    decreases n,
{
    if n > 0 {
        lemma_before_zero(t.skip(1), n - 1);
        assert(seq![t[0]] + t.skip(1).take(n - 1) =~= t.take(n));
    } else {
        assert(before_zero(t) =~= t.take(0));
    }
}

/// The name in an answer, where it fits into `capacity` bytes with a terminator.
pub fn answered_name(platform: Platform, answer: &[u8], capacity: usize) -> (r: Result<
    Vec<u8>,
    i32,
>)
    ensures
        match name_in(answer@) {
            None => r == Err::<Vec<u8>, i32>(EIO),
            Some(name) => if name.len() >= capacity {
                r == Err::<Vec<u8>, i32>(too_long(platform))
            } else {
                r is Ok && r->Ok_0@ == name
            },
        },
{
    if answer.len() < REFERENCE + 8 {
        return Err(EIO);
    }
    let raw = read32(answer, REFERENCE) as i64;
    let offset: i64 = if raw < 0x8000_0000 {
        raw
    } else {
        raw - 0x1_0000_0000
    };
    let length = read32(answer, REFERENCE + 4) as i64;
    let start: i64 = REFERENCE as i64 + offset;
    let end: i64 = start + length;
    let total = answer.len();
    if start < 0 || end as u64 > total as u64 {
        return Err(EIO);
    }
    let text = &answer[start as usize..end as usize];
    let mut n: usize = 0;
    while n < text.len() && text[n] != 0
        invariant
            n <= text@.len(),
            forall|i: int| 0 <= i < n ==> text@[i] != 0,
        decreases text@.len() - n,
    {
        n = n + 1;
    }
    proof {
        lemma_before_zero(text@, n as int);
    }
    if n >= capacity {
        return Err(too_long(platform));
    }
    let name = copied(&text[0..n]);
    proof {
        assert(name@ =~= text@.take(n as int));
    }
    Ok(name)
}

/// The name is read from where the answer's reference leads, up to its
/// terminator: the offset counts from the reference, which stands behind the
/// first four bytes, and the length comes after it.
pub proof fn law_name_is_read(
    answer: Seq<u8>,
    offset: nat,
    length: nat,
    name: Seq<u8>,
    behind: Seq<u8>,
)
    requires
        answer.len() >= 12,
        answer[4] + 256 * answer[5] + 65536 * answer[6] + 16777216 * answer[7] == offset,
        answer[8] + 256 * answer[9] + 65536 * answer[10] + 16777216 * answer[11] == length,
        offset < 0x8000_0000,
        4 + offset + length <= answer.len(),
        answer.subrange((4 + offset) as int, (4 + offset + length) as int) == name + seq![0u8]
            + behind,
        !name.contains(0u8),
    ensures
        name_in(answer) == Some(name),
{
    reveal_with_fuel(little, 5);
    let text = name + seq![0u8] + behind;
    assert forall|i: int| 0 <= i < name.len() implies text[i] != 0 by {
        assert(text[i] == name[i]);
        assert(name.contains(name[i]));
    }
    lemma_before_zero(text, name.len() as int);
    assert(text.take(name.len() as int) =~= name);
}

} // verus!
