//! The open descriptors that a directory listing names.
use vstd::prelude::*;
use vstd::utf8::encode_utf8;
use crate::sys::EBADF;
use crate::text::{all_digits, decimal, digit_value, lemma_numeral, value};

verus! {

/// Where the length of a directory record stands in it. Before it stand an
/// inode number and an offset; after it a type and the name, which ends with a
/// zero byte.
pub const AT_RECLEN: usize = 16;

/// Where the name stands.
pub const AT_NAME: usize = 19;

/// The length of the record at `at`.
pub open spec fn record_len(buf: Seq<u8>, at: int) -> int {
    buf[at + AT_RECLEN] + 256 * buf[at + AT_RECLEN + 1]
}

/// Where the name of the record at `at` ends: the first zero byte.
pub open spec fn name_end(buf: Seq<u8>, at: int) -> int {
    zero_from(buf, at + AT_NAME)
}

/// Where the first zero byte at or after `pos` is, or the end.
pub open spec fn zero_from(buf: Seq<u8>, pos: int) -> int
    decreases buf.len() - pos,
{
    if pos >= buf.len() || buf[pos] == 0 {
        pos
    } else {
        zero_from(buf, pos + 1)
    }
}

/// A whole record stands at `at`, its name included.
pub open spec fn is_record(buf: Seq<u8>, at: int) -> bool {
    &&& 0 <= at
    &&& at + AT_NAME < buf.len()
    &&& at + record_len(buf, at) <= buf.len()
    &&& name_end(buf, at) < at + record_len(buf, at)
}

/// A decimal digit.
pub open spec fn is_digit(b: u8) -> bool {
    48 <= b <= 57
}

/// The number that the digits `name` stand for.
pub open spec fn digits_value(name: Seq<u8>) -> nat
    decreases name.len(),
{
    if name.len() == 0 {
        0
    } else {
        digits_value(name.drop_last()) * 10 + (name.last() - 48) as nat
    }
}

/// The descriptor that a name stands for: a number. One that no descriptor can
/// have stands for the largest.
pub open spec fn descriptor_of(name: Seq<u8>) -> Option<i32> {
    if name.len() > 0 && forall|i: int| 0 <= i < name.len() ==> is_digit(#[trigger] name[i]) {
        Some(
            if digits_value(name) <= i32::MAX {
                digits_value(name) as i32
            } else {
                i32::MAX
            },
        )
    } else {
        None
    }
}

/// The descriptor of the record at `at`.
pub open spec fn record_descriptor(buf: Seq<u8>, at: int) -> Option<i32> {
    descriptor_of(buf.subrange(at + AT_NAME, name_end(buf, at)))
}

/// The descriptors from `first` on, but for that of the listing itself, that
/// the records from `at` on name; None if a record is not whole.
pub open spec fn wanted_from(buf: Seq<u8>, at: int, first: i32, dir: i32) -> Option<Seq<i32>>
    decreases buf.len() - at,
{
    if at >= buf.len() {
        Some(Seq::empty())
    } else if !is_record(buf, at) || record_len(buf, at) <= 0 {
        None
    } else {
        match wanted_from(buf, at + record_len(buf, at), first, dir) {
            None => None,
            Some(rest) => match record_descriptor(buf, at) {
                Some(fd) => if fd >= first && fd != dir {
                    Some(seq![fd] + rest)
                } else {
                    Some(rest)
                },
                None => Some(rest),
            },
        }
    }
}

/// What a listing goes on with.
pub enum Listed {
    /// The next wanted descriptor, and where to go on after it.
    Descriptor { fd: i32, next: usize },
    /// No record is left.
    End,
    /// A record is not whole.
    Broken,
}

proof fn lemma_zero_from_is(buf: Seq<u8>, pos: int, end: int)
    requires
        0 <= pos <= end <= buf.len(),
        end < buf.len() ==> buf[end] == 0,
        forall|i: int| pos <= i < end ==> buf[i] != 0,
    ensures
        zero_from(buf, pos) == end,
    decreases end - pos,
{
    if pos < end {
        lemma_zero_from_is(buf, pos + 1, end);
    }
}

/// The descriptor of the record at `at`, and the length of the record. None if
/// it is not whole.
fn read_record(buf: &[u8], at: usize) -> (r: Option<(Option<i32>, usize)>)
    requires
        at < buf@.len(),
    ensures
        match r {
            Some((fd, len)) => is_record(buf@, at as int) && len == record_len(buf@, at as int)
                && fd == record_descriptor(buf@, at as int),
            None => !is_record(buf@, at as int),
        },
{
    let size = buf.len();
    if size - at <= AT_NAME {
        return None;
    }
    let len = buf[at + AT_RECLEN] as usize + 256 * (buf[at + AT_RECLEN + 1] as usize);
    if len > size - at {
        return None;
    }
    let start = at + AT_NAME;
    let mut pos: usize = start;
    let mut fd: i32 = 0;
    let mut number = true;
    while pos < size && buf[pos] != 0
        invariant
            start == at + AT_NAME,
            start <= pos <= size,
            size == buf@.len(),
            fd >= 0,
            forall|i: int| start <= i < pos ==> buf@[i] != 0,
            number == forall|i: int|
                0 <= i < pos - start ==> is_digit(
                    #[trigger] buf@.subrange(start as int, pos as int)[i],
                ),
            number ==> fd == if digits_value(buf@.subrange(start as int, pos as int)) <= i32::MAX {
                digits_value(buf@.subrange(start as int, pos as int)) as i32
            } else {
                i32::MAX
            },
        decreases size - pos,
    {
        let b = buf[pos];
        let ghost so_far = buf@.subrange(start as int, pos as int);
        let ghost more = buf@.subrange(start as int, pos + 1);
        proof {
            assert(more.drop_last() =~= so_far);
            assert(more.last() == b);
            assert(forall|i: int| 0 <= i < so_far.len() ==> so_far[i] == more[i]);
        }
        if 48 <= b && b <= 57 {
            let d = (b - 48) as i32;
            fd = if fd > (i32::MAX - d) / 10 {
                i32::MAX
            } else {
                fd * 10 + d
            };
            proof {
                assert(number ==> forall|i: int| 0 <= i < more.len() ==> is_digit(#[trigger] more[i]))
                    by {
                    assert forall|i: int| number && 0 <= i < more.len() implies is_digit(
                        #[trigger] more[i],
                    ) by {
                        if i < so_far.len() {
                            assert(is_digit(so_far[i]));
                        }
                    }
                }
                if !number {
                    let i = choose|i: int| 0 <= i < so_far.len() && !is_digit(#[trigger] so_far[i]);
                    assert(!is_digit(more[i]));
                }
            }
        } else {
            number = false;
            proof {
                assert(!is_digit(more[pos - start]));
            }
        }
        pos = pos + 1;
    }
    proof {
        lemma_zero_from_is(buf@, start as int, pos as int);
    }
    if pos - at >= len {
        return None;
    }
    if number && pos > start {
        Some((Some(fd), len))
    } else {
        Some((None, len))
    }
}

/// The next wanted descriptor among the records from `at` on.
pub fn next_descriptor(buf: &[u8], at: usize, first: i32, dir: i32) -> (r: Listed)
    ensures
        match r {
            Listed::Descriptor { fd, next } => {
                &&& at < next <= buf@.len()
                &&& wanted_from(buf@, at as int, first, dir) == match wanted_from(
                    buf@,
                    next as int,
                    first,
                    dir,
                ) {
                    Some(rest) => Some(seq![fd] + rest),
                    None => None::<Seq<i32>>,
                }
                &&& fd >= first
                &&& fd != dir
            },
            Listed::End => wanted_from(buf@, at as int, first, dir) == Some(Seq::<i32>::empty()),
            Listed::Broken => wanted_from(buf@, at as int, first, dir) is None,
        },
{
    let mut pos: usize = at;
    loop
        invariant
            at <= pos,
            wanted_from(buf@, pos as int, first, dir) == wanted_from(buf@, at as int, first, dir),
            pos > at ==> pos <= buf@.len(),
        decreases buf@.len() - pos,
    {
        if pos >= buf.len() {
            return Listed::End;
        }
        match read_record(buf, pos) {
            None => {
                return Listed::Broken;
            },
            Some((fd, len)) => {
                if len == 0 {
                    return Listed::Broken;
                }
                if let Some(fd) = fd {
                    if fd >= first && fd != dir {
                        return Listed::Descriptor { fd, next: pos + len };
                    }
                }
                pos = pos + len;
            },
        }
    }
}

/// Every wanted descriptor of a listing, or None if a record is not whole.
pub fn descriptors(buf: &[u8], first: i32, dir: i32) -> (r: Option<Vec<i32>>)
    ensures
        match r {
            Some(fds) => wanted_from(buf@, 0, first, dir) == Some(fds@),
            None => wanted_from(buf@, 0, first, dir) is None,
        },
{
    let mut fds: Vec<i32> = Vec::new();
    let mut at: usize = 0;
    let ghost all = wanted_from(buf@, 0, first, dir);
    proof {
        if all is Some {
            assert(Seq::<i32>::empty() + all->0 =~= all->0);
        }
    }
    loop
        invariant
            at <= buf@.len(),
            all == wanted_from(buf@, 0, first, dir),
            all == match wanted_from(buf@, at as int, first, dir) {
                Some(rest) => Some(fds@ + rest),
                None => None::<Seq<i32>>,
            },
        decreases buf@.len() - at,
    {
        let ghost before = fds@;
        match next_descriptor(buf, at, first, dir) {
            Listed::End => {
                proof {
                    assert(fds@ + Seq::<i32>::empty() =~= fds@);
                }
                return Some(fds);
            },
            Listed::Broken => {
                return None;
            },
            Listed::Descriptor { fd, next } => {
                fds.push(fd);
                at = next;
                proof {
                    if let Some(rest) = wanted_from(buf@, next as int, first, dir) {
                        assert(before + (seq![fd] + rest) =~= fds@ + rest);
                    }
                }
            },
        }
    }
}

/// What follows a pass over the open descriptors.
#[derive(Clone, Copy, Debug, PartialEq, Eq, Structural)]
pub enum Pass {
    Again,
    Done,
    Fail(i32),
}

/// What follows a pass that closed descriptors, given whether it found any.
/// Closing while listing can skip some, so that only a pass that found none is
/// the last; a listing that failed is never a success.
pub fn close_pass(found: Result<bool, i32>) -> (r: Pass)
    ensures
        r == match found {
            Ok(true) => Pass::Again,
            Ok(false) => Pass::Done,
            Err(errno) => Pass::Fail(errno),
        },
{
    match found {
        Ok(true) => Pass::Again,
        Ok(false) => Pass::Done,
        Err(errno) => Pass::Fail(errno),
    }
}

/// Whether a descriptor that could not be marked for closing may be passed over:
/// it was closed since it was listed.
pub fn closed_meanwhile(errno: i32) -> (r: bool)
    ensures
        r == (errno == EBADF),
        r <==> errno == 9,
{
    errno == EBADF
}

/// Whether a descriptor stands in the way of the standard ones, and must be
/// moved above them before a child gets it.
pub fn above_stdio(fd: i32) -> (r: bool)
    ensures
        r == (fd > 2),
{
    fd > 2
}

/// A name is a descriptor's exactly where it is digits, and the digits are the
/// descriptor's number; one that no descriptor can have counts as the last.
pub proof fn law_descriptor_is_spelled(n: nat, name: Seq<u8>, i: int)
    requires
        0 <= i < name.len(),
        name[i] < 48 || name[i] > 57,
    ensures
        descriptor_of(encode_utf8(decimal(n))) == Some(
            if n < 0x8000_0000 {
                n as i32
            } else {
                0x7fff_ffff
            },
        ),
        descriptor_of(name) is None,
        descriptor_of(Seq::empty()) is None,
{
    let t = decimal(n);
    lemma_numeral(n, 10);
    lemma_digits(t);
    let b = encode_utf8(t);
    assert forall|j: int| 0 <= j < b.len() implies is_digit(#[trigger] b[j]) by {
        assert(digit_value(t[j]) < 10);
        assert('0' <= t[j] <= '9');
    }
    assert(!is_digit(name[i]));
}

/// Digits stand for the same number as bytes and as characters.
proof fn lemma_digits(t: Seq<char>)
    requires
        all_digits(t, 10),
    ensures
        encode_utf8(t).len() == t.len(),
        forall|i: int| 0 <= i < t.len() ==> #[trigger] encode_utf8(t)[i] == t[i] as u8,
        digits_value(encode_utf8(t)) == value(t, 10),
    decreases t.len(),
{
    assert forall|i: int| 0 <= i < t.len() implies '0' <= #[trigger] t[i] <= '9' by {
        assert(digit_value(t[i]) < 10);
    }
    vstd::utf8::is_ascii_chars_encode_utf8(t);
    if t.len() > 0 {
        let less = t.drop_last();
        assert(all_digits(less, 10)) by {
            assert forall|i: int| 0 <= i < less.len() implies digit_value(#[trigger] less[i])
                < 10 by {
                assert(digit_value(t[i]) < 10);
            }
        }
        lemma_digits(less);
        let b = encode_utf8(t);
        assert forall|i: int| 0 <= i < less.len() implies b[i] == encode_utf8(less)[i] by {
            assert(encode_utf8(less)[i] == less[i] as u8);
        }
        assert(b.drop_last() =~= encode_utf8(less));
        assert(b.last() == t[t.len() - 1] as u8);
        assert('0' <= t[t.len() - 1] <= '9');
    } else {
        assert(encode_utf8(t) =~= Seq::empty());
    }
}

/// What a listing says does not depend on what stands before it.
proof fn lemma_wanted_shift(before: Seq<u8>, rest: Seq<u8>, at: int, first: i32, dir: i32)
    requires
        0 <= at,
    ensures
        wanted_from(before + rest, before.len() + at, first, dir) == wanted_from(
            rest,
            at,
            first,
            dir,
        ),
    decreases rest.len() - at,
{
    let buf = before + rest;
    let n = before.len() as int;
    assert(forall|i: int| 0 <= i < rest.len() ==> #[trigger] buf[n + i] == rest[i]);
    if at < rest.len() {
        if at + AT_NAME < rest.len() {
            assert(buf[n + (at + AT_RECLEN)] == rest[at + AT_RECLEN]);
            assert(buf[n + (at + AT_RECLEN + 1)] == rest[at + AT_RECLEN + 1]);
            assert(record_len(buf, n + at) == record_len(rest, at));
            lemma_zero_shift(before, rest, at + AT_NAME);
            if is_record(rest, at) && record_len(rest, at) > 0 {
                lemma_wanted_shift(before, rest, at + record_len(rest, at), first, dir);
                let end = name_end(rest, at);
                lemma_zero_bounds(rest, at + AT_NAME);
                assert(buf.subrange(n + at + AT_NAME, n + end) =~= rest.subrange(
                    at + AT_NAME,
                    end,
                ));
            }
        }
    }
}

proof fn lemma_zero_shift(before: Seq<u8>, rest: Seq<u8>, pos: int)
    requires
        0 <= pos,
    ensures
        zero_from(before + rest, before.len() + pos) == before.len() + zero_from(rest, pos),
    decreases rest.len() - pos,
{
    if pos < rest.len() {
        assert((before + rest)[before.len() + pos] == rest[pos]);
        if rest[pos] != 0 {
            lemma_zero_shift(before, rest, pos + 1);
        }
    }
}

proof fn lemma_zero_bounds(buf: Seq<u8>, pos: int)
    requires
        0 <= pos <= buf.len(),
    ensures
        pos <= zero_from(buf, pos) <= buf.len(),
    decreases buf.len() - pos,
{
    if pos < buf.len() && buf[pos] != 0 {
        lemma_zero_bounds(buf, pos + 1);
    }
}

/// A record of a listing is sixteen bytes, its own length, a byte and a name that
/// ends in a zero; what it names is listed before what the records behind it name,
/// where it is a descriptor from the first wanted one on and not the listing's
/// own.
pub proof fn law_record_is_listed(
    head: Seq<u8>,
    kind: u8,
    name: Seq<u8>,
    padding: Seq<u8>,
    rest: Seq<u8>,
    first: i32,
    dir: i32,
)
    requires
        head.len() == 16,
        !name.contains(0u8),
        20 + name.len() + padding.len() < 65536,
    ensures
        ({
            let len = 20 + name.len() + padding.len();
            let record = head + seq![(len % 256) as u8, (len / 256) as u8, kind] + name + seq![0u8]
                + padding;
            wanted_from(record + rest, 0, first, dir) == match wanted_from(rest, 0, first, dir) {
                None => None::<Seq<i32>>,
                Some(more) => Some(
                    (match descriptor_of(name) {
                        Some(fd) => if fd >= first && fd != dir {
                            seq![fd]
                        } else {
                            Seq::empty()
                        },
                        None => Seq::empty(),
                    }) + more,
                ),
            }
        }),
{
    let len = 20 + name.len() + padding.len();
    let record = head + seq![(len % 256) as u8, (len / 256) as u8, kind] + name + seq![0u8]
        + padding;
    let buf = record + rest;
    assert(record.len() == len);
    assert(buf[16] == (len % 256) as u8);
    assert(buf[17] == (len / 256) as u8);
    assert(record_len(buf, 0) == len);
    let end = 19 + name.len() as int;
    assert forall|i: int| 19 <= i < end implies buf[i] != 0 by {
        assert(buf[i] == name[i - 19]);
        assert(name.contains(name[i - 19]));
    }
    assert(buf[end] == 0);
    lemma_zero_from_is(buf, 19, end);
    assert(buf.subrange(19, end) =~= name);
    lemma_wanted_shift(record, rest, 0, first, dir);
    if let Some(more) = wanted_from(rest, 0, first, dir) {
        assert(Seq::<i32>::empty() + more =~= more);
    }
}

} // verus!
