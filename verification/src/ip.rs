//! IP address literals.
use vstd::prelude::*;
use crate::text::{all_digits, decimal, digit_of, digit_value, joined, lemma_joined, lemma_joined_without, lemma_last_part, lemma_numeral, lemma_numeral_without, lemma_parts, lemma_value, numeral, parts, push_numeral, split, value};

verus! {

/// An IP address.
#[derive(Clone, Copy, Debug, PartialEq, Eq)]
pub enum Ip {
    V4([u8; 4]),
    V6([u16; 8]),
}

/// An IP address: four octets, or eight groups.
pub enum Address {
    V4(Seq<u8>),
    V6(Seq<u16>),
}

impl View for Ip {
    type V = Address;

    open spec fn view(&self) -> Address {
        match *self {
            Ip::V4(octets) => Address::V4(octets@),
            Ip::V6(groups) => Address::V6(groups@),
        }
    }
}

/// The octet that `t` stands for: up to three decimal digits, without leading
/// zeros.
pub open spec fn octet_of(t: Seq<char>) -> Option<u8> {
    if 1 <= t.len() <= 3 && all_digits(t, 10) && (t[0] == '0' ==> t.len() == 1) && value(t, 10)
        <= 255 {
        Some(value(t, 10) as u8)
    } else {
        None
    }
}

/// The four octets that `t` stands for, separated by dots.
pub open spec fn octets_of(t: Seq<char>) -> Option<Seq<u8>> {
    let ps = parts(t, '.');
    if ps.len() == 4 && octet_of(ps[0]) is Some && octet_of(ps[1]) is Some && octet_of(ps[2])
        is Some && octet_of(ps[3]) is Some {
        Some(seq![octet_of(ps[0])->0, octet_of(ps[1])->0, octet_of(ps[2])->0, octet_of(ps[3])->0])
    } else {
        None
    }
}

/// The group that `t` stands for: up to four hexadecimal digits.
pub open spec fn group_of(t: Seq<char>) -> Option<u16> {
    if 1 <= t.len() <= 4 && all_digits(t, 16) {
        Some(value(t, 16) as u16)
    } else {
        None
    }
}

/// The groups that `ps` stand for. Four octets may stand in place of the last
/// two groups, where `dotted` allows it.
pub open spec fn groups_of(ps: Seq<Seq<char>>, dotted: bool) -> Option<Seq<u16>>
    decreases ps.len(),
{
    if ps.len() == 0 {
        Some(Seq::empty())
    } else if ps.len() == 1 && dotted && octets_of(ps[0]) is Some {
        let o = octets_of(ps[0])->0;
        Some(seq![(o[0] * 256 + o[1]) as u16, (o[2] * 256 + o[3]) as u16])
    } else {
        match (group_of(ps[0]), groups_of(ps.drop_first(), dotted)) {
            (Some(g), Some(rest)) => Some(seq![g] + rest),
            _ => None,
        }
    }
}

/// The groups of one side of a `::`, which may have none.
pub open spec fn side_of(t: Seq<char>, dotted: bool) -> Option<Seq<u16>> {
    if t.len() == 0 {
        Some(Seq::empty())
    } else {
        groups_of(parts(t, ':'), dotted)
    }
}

/// Where the first `::` of `t` at or after `pos` is, or the end.
pub open spec fn double_colon(t: Seq<char>, pos: int) -> int
    decreases t.len() - pos,
{
    if pos + 1 >= t.len() {
        t.len() as int
    } else if t[pos] == ':' && t[pos + 1] == ':' {
        pos
    } else {
        double_colon(t, pos + 1)
    }
}

/// `n` groups of zeros.
pub open spec fn zeros(n: nat) -> Seq<u16> {
    Seq::new(n, |i: int| 0u16)
}

/// The eight groups that `t` stands for, separated by colons. A `::` stands for
/// as many groups of zeros as are missing, at least one.
pub open spec fn v6_of(t: Seq<char>) -> Option<Seq<u16>> {
    let at = double_colon(t, 0);
    if at >= t.len() {
        match groups_of(parts(t, ':'), true) {
            Some(groups) => if groups.len() == 8 {
                Some(groups)
            } else {
                None
            },
            None => None,
        }
    } else {
        match (side_of(t.take(at), false), side_of(t.skip(at + 2), true)) {
            (Some(head), Some(tail)) => if head.len() + tail.len() <= 7 {
                Some(head + zeros((8 - head.len() - tail.len()) as nat) + tail)
            } else {
                None
            },
            _ => None,
        }
    }
}

/// The address that `t` is a literal of.
pub open spec fn address_of(t: Seq<char>) -> Option<Address> {
    match octets_of(t) {
        Some(octets) => Some(Address::V4(octets)),
        None => match v6_of(t) {
            Some(groups) => Some(Address::V6(groups)),
            None => None,
        },
    }
}

/// A few digits stand for a small number.
pub proof fn lemma_value_bound(t: Seq<char>, base: nat)
    requires
        base == 10 || base == 16,
        all_digits(t, base),
    ensures
        t.len() <= 1 ==> value(t, base) < base,
        t.len() <= 2 ==> value(t, base) < base * base,
        t.len() <= 3 ==> value(t, base) < base * base * base,
        t.len() <= 4 ==> value(t, base) < base * base * base * base,
    decreases t.len(),
{
    if t.len() > 0 {
        assert(digit_value(t[t.len() - 1]) < base);
        assert(all_digits(t.drop_last(), base)) by {
            assert forall|i: int| 0 <= i < t.drop_last().len() implies digit_value(
                #[trigger] t.drop_last()[i],
            ) < base by {
                assert(digit_value(t[i]) < base);
            }
        }
        lemma_value_bound(t.drop_last(), base);
    }
}

/// Read up to `most` digits.
fn read_digits(t: &[char], base: u32, most: usize) -> (r: Option<u32>)
    requires
        base == 10 || base == 16,
        most <= 4,
    ensures
        r == if 1 <= t@.len() <= most && all_digits(t@, base as nat) {
            Some(value(t@, base as nat) as u32)
        } else {
            None
        },
        r matches Some(n) ==> n == value(t@, base as nat),
{
    if t.len() == 0 || t.len() > most {
        return None;
    }
    let mut n: u32 = 0;
    let mut i: usize = 0;
    while i < t.len()
        invariant
            base == 10 || base == 16,
            i <= t@.len() <= 4,
            all_digits(t@.take(i as int), base as nat),
            n == value(t@.take(i as int), base as nat),
        decreases t@.len() - i,
    {
        let ghost so_far = t@.take(i as int);
        let ghost more = t@.take(i + 1);
        let d = digit_of(t[i]) as u32;
        if d >= base {
            proof {
                assert(digit_value(t@[i as int]) >= base);
            }
            return None;
        }
        proof {
            lemma_value_bound(so_far, base as nat);
            assert(more.drop_last() =~= so_far);
            assert(all_digits(more, base as nat)) by {
                assert forall|j: int| 0 <= j < more.len() implies digit_value(#[trigger] more[j])
                    < base by {
                    if j < i {
                        assert(digit_value(so_far[j]) < base);
                    }
                }
            }
        }
        n = if base == 10 {
            n * 10 + d
        } else {
            n * 16 + d
        };
        i = i + 1;
    }
    proof {
        assert(t@.take(i as int) =~= t@);
    }
    Some(n)
}

/// Read an octet.
fn read_octet(t: &[char]) -> (r: Option<u8>)
    ensures
        r == octet_of(t@),
{
    match read_digits(t, 10, 3) {
        Some(n) => if n <= 255 && (t[0] != '0' || t.len() == 1) {
            Some(n as u8)
        } else {
            None
        },
        None => None,
    }
}

/// Read four octets.
fn read_octets(t: &[char]) -> (r: Option<[u8; 4]>)
    ensures
        match r {
            Some(octets) => octets_of(t@) == Some(octets@),
            None => octets_of(t@) is None,
        },
{
    let ps = split(t, '.');
    if ps.len() != 4 {
        return None;
    }
    match (read_octet(ps[0]), read_octet(ps[1]), read_octet(ps[2]), read_octet(ps[3])) {
        (Some(a), Some(b), Some(c), Some(d)) => {
            let octets = [a, b, c, d];
            proof {
                assert(octets@ =~= octets_of(t@)->0);
            }
            Some(octets)
        },
        _ => None,
    }
}

/// Read a group.
fn read_group(t: &[char]) -> (r: Option<u16>)
    ensures
        r == group_of(t@),
{
    match read_digits(t, 16, 4) {
        Some(n) => {
            proof {
                lemma_value_bound(t@, 16);
            }
            Some(n as u16)
        },
        None => None,
    }
}

/// Read groups separated by colons.
fn read_groups(t: &[char], dotted: bool) -> (r: Option<Vec<u16>>)
    ensures
        match r {
            Some(groups) => groups_of(parts(t@, ':'), dotted) == Some(groups@),
            None => groups_of(parts(t@, ':'), dotted) is None,
        },
{
    let ps = split(t, ':');
    let ghost all = parts(t@, ':');
    let mut groups: Vec<u16> = Vec::new();
    let mut i: usize = 0;
    proof {
        assert(all.skip(0) =~= all);
        match groups_of(all, dotted) {
            Some(rest) => {
                assert(Seq::<u16>::empty() + rest =~= rest);
            },
            None => {},
        }
    }
    while i < ps.len()
        invariant
            i <= ps@.len(),
            ps@.len() == all.len(),
            forall|j: int| 0 <= j < ps@.len() ==> (#[trigger] ps@[j])@ == all[j],
            groups_of(all, dotted) == match groups_of(all.skip(i as int), dotted) {
                Some(rest) => Some(groups@ + rest),
                None => None::<Seq<u16>>,
            },
            all == parts(t@, ':'),
        decreases ps@.len() - i,
    {
        let ghost left = all.skip(i as int);
        let ghost so_far = groups@;
        proof {
            assert(left[0] == all[i as int]);
            assert(left.drop_first() =~= all.skip(i + 1));
        }
        if i == ps.len() - 1 && dotted {
            if let Some(o) = read_octets(ps[i]) {
                let high = o[0] as u16 * 256 + o[1] as u16;
                let low = o[2] as u16 * 256 + o[3] as u16;
                groups.push(high);
                groups.push(low);
                proof {
                    assert(groups@ =~= so_far + seq![high, low]);
                }
                return Some(groups);
            }
        }
        match read_group(ps[i]) {
            None => {
                return None;
            },
            Some(g) => {
                groups.push(g);
                proof {
                    match groups_of(left.drop_first(), dotted) {
                        Some(rest) => {
                            assert(so_far + (seq![g] + rest) =~= groups@ + rest);
                        },
                        None => {},
                    }
                }
            },
        }
        i = i + 1;
    }
    proof {
        assert(all.skip(i as int) =~= Seq::<Seq<char>>::empty());
        assert(groups@ + Seq::<u16>::empty() =~= groups@);
    }
    Some(groups)
}

/// Read one side of a `::`.
fn read_side(t: &[char], dotted: bool) -> (r: Option<Vec<u16>>)
    ensures
        match r {
            Some(groups) => side_of(t@, dotted) == Some(groups@),
            None => side_of(t@, dotted) is None,
        },
{
    if t.len() == 0 {
        let none: Vec<u16> = Vec::new();
        proof {
            assert(none@ =~= Seq::<u16>::empty());
        }
        Some(none)
    } else {
        read_groups(t, dotted)
    }
}

/// Find the first `::`.
fn find_double_colon(t: &[char]) -> (r: usize)
    ensures
        r == double_colon(t@, 0),
        r <= t@.len(),
        r < t@.len() ==> r + 2 <= t@.len(),
{
    if t.len() == 0 {
        return 0;
    }
    let mut i: usize = 0;
    while i < t.len() - 1
        invariant
            0 < t@.len(),
            i <= t@.len() - 1,
            double_colon(t@, i as int) == double_colon(t@, 0),
        decreases t@.len() - i,
    {
        if t[i] == ':' && t[i + 1] == ':' {
            return i;
        }
        i = i + 1;
    }
    t.len()
}

/// Read eight groups.
fn read_v6(t: &[char]) -> (r: Option<[u16; 8]>)
    ensures
        match r {
            Some(groups) => v6_of(t@) == Some(groups@),
            None => v6_of(t@) is None,
        },
{
    let at = find_double_colon(t);
    let mut out = [0u16; 8];
    if at >= t.len() {
        match read_groups(t, true) {
            Some(groups) => if groups.len() == 8 {
                let mut i: usize = 0;
                while i < 8
                    invariant
                        i <= 8,
                        groups@.len() == 8,
                        forall|j: int| 0 <= j < i ==> out@[j] == groups@[j],
                    decreases 8 - i,
                {
                    out[i] = groups[i];
                    i = i + 1;
                }
                proof {
                    assert(out@ =~= groups@);
                }
                Some(out)
            } else {
                None
            },
            None => None,
        }
    } else {
        let head_text = &t[0..at];
        let tail_text = &t[at + 2..t.len()];
        proof {
            assert(head_text@ =~= t@.take(at as int));
            assert(tail_text@ =~= t@.skip(at + 2));
        }
        match (read_side(head_text, false), read_side(tail_text, true)) {
            (Some(head), Some(tail)) => {
                if head.len() > 7 || tail.len() > 7 - head.len() {
                    return None;
                }
                let gap = 8 - head.len() - tail.len();
                let mut i: usize = 0;
                while i < head.len()
                    invariant
                        i <= head@.len() <= 7,
                        forall|j: int| 0 <= j < i ==> out@[j] == head@[j],
                        forall|j: int| i <= j < 8 ==> out@[j] == 0,
                    decreases head@.len() - i,
                {
                    out[i] = head[i];
                    i = i + 1;
                }
                let mut k: usize = 0;
                while k < tail.len()
                    invariant
                        k <= tail@.len(),
                        head@.len() + gap + tail@.len() == 8,
                        forall|j: int| 0 <= j < head@.len() ==> out@[j] == head@[j],
                        forall|j: int| head@.len() <= j < head@.len() + gap ==> out@[j] == 0,
                        forall|j: int|
                            head@.len() + gap <= j < head@.len() + gap + k ==> #[trigger] out@[j]
                                == tail@[j - head@.len() - gap],
                    decreases tail@.len() - k,
                {
                    out[head.len() + gap + k] = tail[k];
                    k = k + 1;
                }
                proof {
                    assert(out@ =~= head@ + zeros(gap as nat) + tail@);
                }
                Some(out)
            },
            _ => None,
        }
    }
}

impl Ip {
    /// The address that `t` is a literal of, if it is one.
    pub fn parse(t: &[char]) -> (r: Option<Ip>)
        ensures
            match r {
                Some(ip) => address_of(t@) == Some(ip@),
                None => address_of(t@) is None,
            },
    {
        match read_octets(t) {
            Some(octets) => Some(Ip::V4(octets)),
            None => match read_v6(t) {
                Some(groups) => Some(Ip::V6(groups)),
                None => None,
            },
        }
    }
}

/// The texts of some numbers in `base`.
pub open spec fn numerals<T: Integer>(ns: Seq<T>, base: nat) -> Seq<Seq<char>> {
    Seq::new(ns.len(), |i: int| numeral(ns[i] as nat, base))
}

/// How many zeros stand in `gs` from `i` on.
pub open spec fn zero_run(gs: Seq<u16>, i: int) -> int
    decreases gs.len() - i,
{
    if 0 <= i < gs.len() && gs[i] == 0 {
        1 + zero_run(gs, i + 1)
    } else {
        0
    }
}

/// The first of the longest runs of zeros that start before `n`: where it
/// starts, and its length.
pub open spec fn longest_zeros(gs: Seq<u16>, n: nat) -> (int, int)
    decreases n,
{
    if n == 0 {
        (0, 0)
    } else {
        let best = longest_zeros(gs, (n - 1) as nat);
        let here = zero_run(gs, n - 1);
        if here > best.1 {
            (n - 1, here)
        } else {
            best
        }
    }
}

/// The IPv4 address that an IPv4-mapped IPv6 address holds.
pub open spec fn mapped_of(gs: Seq<u16>) -> Option<Seq<u8>> {
    if gs.take(5) == zeros(5) && gs[5] == 0xffff {
        Some(
            seq![
                (gs[6] / 256) as u8,
                (gs[6] % 256) as u8,
                (gs[7] / 256) as u8,
                (gs[7] % 256) as u8,
            ],
        )
    } else {
        None
    }
}

/// Four octets, separated by dots.
pub open spec fn dotted(octets: Seq<u8>) -> Seq<char> {
    joined(numerals(octets, 10), '.')
}

/// Groups in hexadecimal, separated by colons.
pub open spec fn colons(gs: Seq<u16>) -> Seq<char> {
    joined(numerals(gs, 16), ':')
}

/// Eight groups, the first of the longest runs of two or more zeros written as
/// `::`.
pub open spec fn compressed(gs: Seq<u16>) -> Seq<char> {
    let (start, len) = longest_zeros(gs, gs.len());
    if len > 1 {
        colons(gs.take(start)) + seq![':', ':'] + colons(gs.skip(start + len))
    } else {
        colons(gs)
    }
}

/// The text of an address. An IPv4-mapped address goes by its IPv4 address.
pub open spec fn text_of(a: Address) -> Seq<char> {
    match a {
        Address::V4(octets) => dotted(octets),
        Address::V6(gs) => match mapped_of(gs) {
            Some(octets) => dotted(octets),
            None => compressed(gs),
        },
    }
}

/// Joining one more text.
proof fn lemma_joined_push(ps: Seq<Seq<char>>, p: Seq<char>, sep: char)
    ensures
        joined(ps.push(p), sep) == if ps.len() == 0 {
            p
        } else {
            joined(ps, sep) + seq![sep] + p
        },
    decreases ps.len(),
{
    let more = ps.push(p);
    if ps.len() > 0 {
        assert(more.drop_first() =~= ps.drop_first().push(p));
        lemma_joined_push(ps.drop_first(), p, sep);
        if ps.len() == 1 {
            assert(ps.drop_first().len() == 0);
            assert(joined(more, sep) =~= joined(ps, sep) + seq![sep] + p);
        } else {
            assert(joined(more, sep) =~= joined(ps, sep) + seq![sep] + p);
        }
    }
}

/// Append four octets, separated by dots.
fn push_dotted(t: &mut Vec<char>, octets: [u8; 4])
    ensures
        final(t)@ == old(t)@ + dotted(octets@),
{
    let ghost before = t@;
    let ghost all = numerals(octets@, 10);
    let mut i: usize = 0;
    proof {
        assert(all.take(0) =~= Seq::<Seq<char>>::empty());
        assert(before + Seq::<char>::empty() =~= before);
    }
    while i < 4
        invariant
            i <= 4,
            all == numerals(octets@, 10),
            t@ == before + joined(all.take(i as int), '.'),
        decreases 4 - i,
    {
        if i > 0 {
            t.push('.');
        }
        push_numeral(t, octets[i] as u64, 10);
        proof {
            assert(all.take(i + 1) =~= all.take(i as int).push(all[i as int]));
            lemma_joined_push(all.take(i as int), all[i as int], '.');
            assert(t@ =~= before + joined(all.take(i + 1), '.'));
        }
        i = i + 1;
    }
    proof {
        assert(all.take(4) =~= all);
    }
}

/// Append the groups `gs[from..to]` in hexadecimal, separated by colons.
fn push_colons(t: &mut Vec<char>, gs: &[u16; 8], from: usize, to: usize)
    requires
        from <= to <= 8,
    ensures
        final(t)@ == old(t)@ + colons(gs@.subrange(from as int, to as int)),
{
    let ghost before = t@;
    let ghost all = numerals(gs@.subrange(from as int, to as int), 16);
    let mut i: usize = from;
    proof {
        assert(all.take(0) =~= Seq::<Seq<char>>::empty());
        assert(before + Seq::<char>::empty() =~= before);
    }
    while i < to
        invariant
            from <= i <= to <= 8,
            all == numerals(gs@.subrange(from as int, to as int), 16),
            t@ == before + joined(all.take(i - from), ':'),
        decreases to - i,
    {
        if i > from {
            t.push(':');
        }
        push_numeral(t, gs[i] as u64, 16);
        proof {
            let k = i - from;
            assert(all.take(k + 1) =~= all.take(k).push(all[k]));
            lemma_joined_push(all.take(k), all[k], ':');
            assert(t@ =~= before + joined(all.take(k + 1), ':'));
        }
        i = i + 1;
    }
    proof {
        assert(all.take(to - from) =~= all);
    }
}

proof fn lemma_zero_run(gs: Seq<u16>, i: int)
    requires
        0 <= i <= gs.len(),
    ensures
        0 <= zero_run(gs, i) <= gs.len() - i,
        forall|j: int| i <= j < i + zero_run(gs, i) ==> gs[j] == 0,
    decreases gs.len() - i,
{
    if i < gs.len() && gs[i] == 0 {
        lemma_zero_run(gs, i + 1);
    }
}

proof fn lemma_longest_zeros(gs: Seq<u16>, n: nat)
    requires
        n <= gs.len(),
    ensures
        ({
            let (start, len) = longest_zeros(gs, n);
            &&& 0 <= start <= start + len <= gs.len()
            &&& forall|j: int| start <= j < start + len ==> gs[j] == 0
        }),
    decreases n,
{
    if n > 0 {
        lemma_longest_zeros(gs, (n - 1) as nat);
        lemma_zero_run(gs, n - 1);
    }
}

/// Find the first of the longest runs of zeros.
fn find_longest_zeros(gs: &[u16; 8]) -> (r: (usize, usize))
    ensures
        (r.0 as int, r.1 as int) == longest_zeros(gs@, 8),
        r.0 + r.1 <= 8,
{
    let mut best: (usize, usize) = (0, 0);
    let mut n: usize = 0;
    while n < 8
        invariant
            n <= 8,
            (best.0 as int, best.1 as int) == longest_zeros(gs@, n as nat),
            best.0 + best.1 <= 8,
        decreases 8 - n,
    {
        let mut len: usize = 0;
        while n + len < 8 && gs[n + len] == 0
            invariant
                n + len <= 8,
                n < 8,
                zero_run(gs@, n as int) == len + zero_run(gs@, n + len),
            decreases 8 - n - len,
        {
            len = len + 1;
        }
        if len > best.1 {
            best = (n, len);
        }
        n = n + 1;
    }
    best
}

/// Append the text of eight groups.
fn push_compressed(t: &mut Vec<char>, gs: &[u16; 8])
    ensures
        final(t)@ == old(t)@ + compressed(gs@),
{
    let ghost before = t@;
    let (start, len) = find_longest_zeros(gs);
    if len > 1 {
        push_colons(t, gs, 0, start);
        t.push(':');
        t.push(':');
        push_colons(t, gs, start + len, 8);
        proof {
            assert(gs@.subrange(0, start as int) =~= gs@.take(start as int));
            assert(gs@.subrange(start + len, 8) =~= gs@.skip(start + len));
            assert(t@ =~= before + compressed(gs@));
        }
    } else {
        push_colons(t, gs, 0, 8);
        proof {
            assert(gs@.subrange(0, 8) =~= gs@);
        }
    }
}

/// The address is `0.0.0.0` or `::`.
pub open spec fn is_unspecified(a: Address) -> bool {
    match a {
        Address::V4(o) => o == seq![0u8, 0, 0, 0],
        Address::V6(gs) => gs == zeros(8),
    }
}

/// The address is in `224.0.0.0/4` or `ff00::/8`.
pub open spec fn is_multicast(a: Address) -> bool {
    match a {
        Address::V4(o) => 224 <= o[0] <= 239,
        Address::V6(gs) => gs[0] >= 0xff00,
    }
}

/// An IPv4 address that a public name may resolve to.
pub open spec fn is_public_v4(o: Seq<u8>) -> bool {
    // private
    &&& o[0] != 10
    &&& !(o[0] == 172 && 16 <= o[1] <= 31)
    &&& !(o[0] == 192 && o[1] == 168)
    // loopback
    &&& o[0] != 127
    // link-local
    &&& !(o[0] == 169 && o[1] == 254)
    &&& o != seq![0u8, 0, 0, 0]
    // multicast
    &&& !(224 <= o[0] <= 239)
    // broadcast
    &&& o != seq![255u8, 255, 255, 255]
    // documentation
    &&& !(o[0] == 192 && o[1] == 0 && o[2] == 2)
    &&& !(o[0] == 198 && o[1] == 51 && o[2] == 100)
    &&& !(o[0] == 203 && o[1] == 0 && o[2] == 113)
}

/// An address that a public name may resolve to: not one that reaches the host
/// itself, its own networks, a group of hosts or nobody. An IPv4-mapped address
/// counts as its IPv4 address.
pub open spec fn is_public(a: Address) -> bool {
    match a {
        Address::V4(o) => is_public_v4(o),
        Address::V6(gs) => match mapped_of(gs) {
            Some(o) => is_public_v4(o),
            None => {
                // loopback
                &&& gs != zeros(7).push(1)
                &&& gs != zeros(8)
                // multicast
                &&& gs[0] < 0xff00
                // unique local
                &&& !(0xfc00 <= gs[0] <= 0xfdff)
                // link-local
                &&& !(0xfe80 <= gs[0] <= 0xfebf)
            },
        },
    }
}

/// Whether the first `n` groups are zeros.
fn leading_zeros(gs: &[u16; 8], n: usize) -> (r: bool)
    requires
        n <= 8,
    ensures
        r == (gs@.take(n as int) == zeros(n as nat)),
{
    let mut i: usize = 0;
    while i < n
        invariant
            i <= n <= 8,
            forall|j: int| 0 <= j < i ==> gs@[j] == 0,
        decreases n - i,
    {
        if gs[i] != 0 {
            proof {
                assert(gs@.take(n as int)[i as int] != zeros(n as nat)[i as int]);
            }
            return false;
        }
        i = i + 1;
    }
    proof {
        assert(gs@.take(n as int) =~= zeros(n as nat));
    }
    true
}

/// The IPv4 address that an IPv4-mapped IPv6 address holds.
fn to_ipv4_mapped(gs: &[u16; 8]) -> (r: Option<[u8; 4]>)
    ensures
        match r {
            Some(octets) => mapped_of(gs@) == Some(octets@),
            None => mapped_of(gs@) is None,
        },
{
    if leading_zeros(gs, 5) && gs[5] == 0xffff {
        let octets = [
            (gs[6] / 256) as u8,
            (gs[6] % 256) as u8,
            (gs[7] / 256) as u8,
            (gs[7] % 256) as u8,
        ];
        proof {
            assert(octets@ =~= mapped_of(gs@)->0);
        }
        Some(octets)
    } else {
        None
    }
}

fn public_v4(o: [u8; 4]) -> (r: bool)
    ensures
        r == is_public_v4(o@),
{
    let unspecified = o[0] == 0 && o[1] == 0 && o[2] == 0 && o[3] == 0;
    let broadcast = o[0] == 255 && o[1] == 255 && o[2] == 255 && o[3] == 255;
    proof {
        if unspecified {
            assert(o@ =~= seq![0u8, 0, 0, 0]);
        }
        if broadcast {
            assert(o@ =~= seq![255u8, 255, 255, 255]);
        }
    }
    o[0] != 10 && !(o[0] == 172 && 16 <= o[1] && o[1] <= 31) && !(o[0] == 192 && o[1] == 168)
        && o[0] != 127 && !(o[0] == 169 && o[1] == 254) && !unspecified && !(224 <= o[0] && o[0]
        <= 239) && !broadcast && !(o[0] == 192 && o[1] == 0 && o[2] == 2) && !(o[0] == 198 && o[1]
        == 51 && o[2] == 100) && !(o[0] == 203 && o[1] == 0 && o[2] == 113)
}

impl Ip {
    /// Whether this is `0.0.0.0` or `::`.
    pub fn unspecified(self) -> (r: bool)
        ensures
            r == is_unspecified(self@),
    {
        match self {
            Ip::V4(o) => {
                let r = o[0] == 0 && o[1] == 0 && o[2] == 0 && o[3] == 0;
                proof {
                    if r {
                        assert(o@ =~= seq![0u8, 0, 0, 0]);
                    }
                }
                r
            },
            Ip::V6(gs) => {
                proof {
                    assert(gs@.take(8) =~= gs@);
                }
                leading_zeros(&gs, 8)
            },
        }
    }

    /// Whether this is in `224.0.0.0/4` or `ff00::/8`.
    pub fn multicast(self) -> (r: bool)
        ensures
            r == is_multicast(self@),
    {
        match self {
            Ip::V4(o) => 224 <= o[0] && o[0] <= 239,
            Ip::V6(gs) => gs[0] >= 0xff00,
        }
    }

    /// The text of the address. An IPv4-mapped address goes by its IPv4
    /// address.
    pub fn text(self) -> (r: Vec<char>)
        ensures
            r@ == text_of(self@),
    {
        let mut t: Vec<char> = Vec::new();
        match self {
            Ip::V4(octets) => push_dotted(&mut t, octets),
            Ip::V6(gs) => match to_ipv4_mapped(&gs) {
                Some(octets) => push_dotted(&mut t, octets),
                None => push_compressed(&mut t, &gs),
            },
        }
        proof {
            assert(Seq::<char>::empty() + text_of(self@) =~= text_of(self@));
        }
        t
    }
}

/// Whether a public name may resolve to `ip`.
pub fn public_ip(ip: Ip) -> (r: bool)
    ensures
        r == is_public(ip@),
{
    match ip {
        Ip::V4(o) => public_v4(o),
        Ip::V6(gs) => match to_ipv4_mapped(&gs) {
            Some(o) => public_v4(o),
            None => {
                let loopback = leading_zeros(&gs, 7) && gs[7] == 1;
                let unspecified = leading_zeros(&gs, 8);
                proof {
                    assert(gs@.take(8) =~= gs@);
                    assert(gs@ =~= gs@.take(7).push(gs@[7]));
                    assert(zeros(7).push(1).take(7) =~= zeros(7));
                    assert(zeros(7).push(1)[7] == 1);
                }
                !loopback && !unspecified && gs[0] < 0xff00 && !(0xfc00 <= gs[0] && gs[0] <= 0xfdff)
                    && !(0xfe80 <= gs[0] && gs[0] <= 0xfebf)
            },
        },
    }
}

/// The 32 bits of an IPv4 address, as a number.
pub open spec fn bits_v4(o: Seq<u8>) -> int {
    o[0] * 0x100_0000 + o[1] * 0x1_0000 + o[2] * 0x100 + o[3]
}

/// The 128 bits of an IPv6 address, as a number.
pub open spec fn bits_v6(gs: Seq<u16>) -> int {
    gs[0] * 0x1_0000_0000_0000_0000_0000_0000_0000 + gs[1] * 0x1_0000_0000_0000_0000_0000_0000
        + gs[2] * 0x1_0000_0000_0000_0000_0000 + gs[3] * 0x1_0000_0000_0000_0000 + gs[4]
        * 0x1_0000_0000_0000 + gs[5] * 0x1_0000_0000 + gs[6] * 0x1_0000 + gs[7]
}

/// The IPv4 addresses that are nobody's, a group's, an example's, or reached
/// only from near by.
pub open spec fn in_special_v4(v: int) -> bool {
    // 0.0.0.0
    ||| v == 0
    // 10.0.0.0 to 10.255.255.255
    ||| 0x0a00_0000 <= v <= 0x0aff_ffff
    // 127.0.0.0 to 127.255.255.255
    ||| 0x7f00_0000 <= v <= 0x7fff_ffff
    // 169.254.0.0 to 169.254.255.255
    ||| 0xa9fe_0000 <= v <= 0xa9fe_ffff
    // 172.16.0.0 to 172.31.255.255
    ||| 0xac10_0000 <= v <= 0xac1f_ffff
    // 192.0.2.0 to 192.0.2.255
    ||| 0xc000_0200 <= v <= 0xc000_02ff
    // 192.168.0.0 to 192.168.255.255
    ||| 0xc0a8_0000 <= v <= 0xc0a8_ffff
    // 198.51.100.0 to 198.51.100.255
    ||| 0xc633_6400 <= v <= 0xc633_64ff
    // 203.0.113.0 to 203.0.113.255
    ||| 0xcb00_7100 <= v <= 0xcb00_71ff
    // 224.0.0.0 to 239.255.255.255
    ||| 0xe000_0000 <= v <= 0xefff_ffff
    // 255.255.255.255
    ||| v == 0xffff_ffff
}

/// The IPv6 addresses that are nobody's, a group's, or reached only from near by.
/// Those that hold an IPv4 address are judged by it.
pub open spec fn in_special_v6(v: int) -> bool {
    // :: and ::1
    ||| 0 <= v <= 1
    // ::ffff:0:0 to ::ffff:ffff:ffff
    ||| 0xffff_0000_0000 <= v <= 0xffff_ffff_ffff && in_special_v4(v - 0xffff_0000_0000)
    // fc00:: to fdff:ffff:...
    ||| 0xfc00_0000_0000_0000_0000_0000_0000_0000 <= v
        < 0xfe00_0000_0000_0000_0000_0000_0000_0000
    // fe80:: to febf:ffff:...
    ||| 0xfe80_0000_0000_0000_0000_0000_0000_0000 <= v
        < 0xfec0_0000_0000_0000_0000_0000_0000_0000
    // ff00:: and above
    ||| 0xff00_0000_0000_0000_0000_0000_0000_0000 <= v
}

/// A name may resolve to exactly the IPv4 addresses outside the special ranges.
pub proof fn law_public_v4(o: Seq<u8>)
    requires
        o.len() == 4,
    ensures
        is_public(Address::V4(o)) <==> !in_special_v4(bits_v4(o)),
{
    if bits_v4(o) == 0 {
        assert(o =~= seq![0u8, 0, 0, 0]);
    }
    if bits_v4(o) == 0xffff_ffff {
        assert(o =~= seq![255u8, 255, 255, 255]);
    }
}

/// A name may resolve to exactly the IPv6 addresses outside the special ranges.
pub proof fn law_public_v6(gs: Seq<u16>)
    requires
        gs.len() == 8,
    ensures
        is_public(Address::V6(gs)) <==> !in_special_v6(bits_v6(gs)),
{
    let v = bits_v6(gs);
    assert(0xffff_0000_0000 <= v <= 0xffff_ffff_ffff <==> gs.take(5) == zeros(5) && gs[5]
        == 0xffff) by {
        if 0xffff_0000_0000 <= v <= 0xffff_ffff_ffff {
            assert(gs.take(5) =~= zeros(5));
        }
        if gs.take(5) == zeros(5) {
            assert(forall|i: int| 0 <= i < 5 ==> gs[i] == gs.take(5)[i]);
        }
    }
    if 0xffff_0000_0000 <= v <= 0xffff_ffff_ffff {
        assert(forall|i: int| 0 <= i < 5 ==> gs[i] == gs.take(5)[i]);
        let o = mapped_of(gs)->0;
        assert(bits_v4(o) == gs[6] * 0x1_0000 + gs[7]);
        law_public_v4(o);
        assert(v - 0xffff_0000_0000 == bits_v4(o));
    } else {
        if v == 0 {
            assert(gs =~= zeros(8));
        }
        if v == 1 {
            assert(gs =~= zeros(7).push(1));
        }
        if gs == zeros(8) {
            assert(v == 0);
        }
        if gs == zeros(7).push(1) {
            assert(forall|i: int| 0 <= i < 7 ==> gs[i] == zeros(7)[i]);
            assert(v == 1);
        }
    }
}

/// A small number has few digits.
proof fn lemma_numeral_len(n: nat, base: nat)
    requires
        base == 10 || base == 16,
    ensures
        n < base ==> numeral(n, base).len() == 1,
        n < base * base ==> numeral(n, base).len() <= 2,
        n < base * base * base ==> numeral(n, base).len() <= 3,
        n < base * base * base * base ==> numeral(n, base).len() <= 4,
{
    reveal_with_fuel(numeral, 5);
}

/// Digits are neither separator.
proof fn lemma_digits_plain(t: Seq<char>)
    requires
        all_digits(t, 16),
    ensures
        !t.contains('.'),
        !t.contains(':'),
{
    if t.contains('.') {
        let i = choose|i: int| 0 <= i < t.len() && t[i] == '.';
        assert(digit_value(t[i]) < 16);
    }
    if t.contains(':') {
        let i = choose|i: int| 0 <= i < t.len() && t[i] == ':';
        assert(digit_value(t[i]) < 16);
    }
}

proof fn lemma_fewer_digits(t: Seq<char>)
    requires
        all_digits(t, 10),
    ensures
        all_digits(t, 16),
{
    assert forall|i: int| 0 <= i < t.len() implies digit_value(#[trigger] t[i]) < 16 by {
        assert(digit_value(t[i]) < 10);
    }
}

proof fn lemma_octet(n: u8)
    ensures
        octet_of(decimal(n as nat)) == Some(n),
        !decimal(n as nat).contains('.'),
{
    lemma_numeral(n as nat, 10);
    lemma_numeral_len(n as nat, 10);
    lemma_fewer_digits(decimal(n as nat));
    lemma_digits_plain(decimal(n as nat));
}

/// Four octets are read back as they were written.
pub proof fn lemma_dotted(octets: Seq<u8>)
    requires
        octets.len() == 4,
    ensures
        octets_of(dotted(octets)) == Some(octets),
{
    let ps = numerals(octets, 10);
    assert forall|i: int| 0 <= i < ps.len() implies !(#[trigger] ps[i]).contains('.') by {
        lemma_octet(octets[i]);
    }
    lemma_joined(ps, '.');
    lemma_octet(octets[0]);
    lemma_octet(octets[1]);
    lemma_octet(octets[2]);
    lemma_octet(octets[3]);
    assert(octets_of(dotted(octets))->0 =~= octets);
}

/// Four octets have one text.
pub proof fn lemma_octets_text(t: Seq<char>)
    requires
        octets_of(t) is Some,
    ensures
        dotted(octets_of(t)->0) == t,
        octets_of(t)->0.len() == 4,
{
    let ps = parts(t, '.');
    let octets = octets_of(t)->0;
    lemma_parts(t, '.');
    assert forall|i: int| 0 <= i < 4 implies #[trigger] numerals(octets, 10)[i] == ps[i] by {
        lemma_value(ps[i], 10);
    }
    assert(numerals(octets, 10) =~= ps);
}

proof fn lemma_group(g: u16)
    ensures
        group_of(numeral(g as nat, 16)) == Some(g),
        octets_of(numeral(g as nat, 16)) is None,
        !numeral(g as nat, 16).contains(':'),
        !numeral(g as nat, 16).contains('.'),
        numeral(g as nat, 16).len() > 0,
{
    let t = numeral(g as nat, 16);
    lemma_numeral(g as nat, 16);
    lemma_numeral_len(g as nat, 16);
    lemma_digits_plain(t);
    lemma_one_part(t, '.');
}

proof fn lemma_one_part(t: Seq<char>, sep: char)
    requires
        !t.contains(sep),
    ensures
        parts(t, sep) == seq![t],
{
    lemma_joined(seq![t], sep);
}

/// Groups are read back as they were written.
proof fn lemma_groups(gs: Seq<u16>, last_dotted: bool)
    ensures
        groups_of(numerals(gs, 16), last_dotted) == Some(gs),
    decreases gs.len(),
{
    let ps = numerals(gs, 16);
    if gs.len() == 0 {
        assert(gs =~= Seq::<u16>::empty());
    } else {
        lemma_group(gs[0]);
        lemma_groups(gs.drop_first(), last_dotted);
        assert(ps.drop_first() =~= numerals(gs.drop_first(), 16));
        assert(seq![gs[0]] + gs.drop_first() =~= gs);
    }
}

/// No two colons are neighbours at or after `pos`.
spec fn no_double(t: Seq<char>) -> bool {
    forall|i: int| 0 <= i < t.len() - 1 ==> !(#[trigger] t[i] == ':' && t[i + 1] == ':')
}

/// Groups, separated by colons, start and end with a digit, and have neither a
/// dot nor two neighbouring colons.
proof fn lemma_colons(gs: Seq<u16>)
    ensures
        gs.len() == 0 <==> colons(gs).len() == 0,
        gs.len() > 0 ==> colons(gs)[0] != ':' && colons(gs).last() != ':',
        no_double(colons(gs)),
        !colons(gs).contains('.'),
        gs.len() > 0 ==> parts(colons(gs), ':') == numerals(gs, 16),
    decreases gs.len(),
{
    let t = colons(gs);
    let ps = numerals(gs, 16);
    if gs.len() > 0 {
        let first = ps[0];
        lemma_group(gs[0]);
        assert forall|i: int| 0 <= i < first.len() implies first[i] != ':' && first[i] != '.' by {
            assert(first.contains(first[i]));
        }
        assert forall|i: int| 0 <= i < ps.len() implies !(#[trigger] ps[i]).contains(':') by {
            lemma_group(gs[i]);
        }
        lemma_joined(ps, ':');
        if gs.len() > 1 {
            let rest = gs.drop_first();
            let r = colons(rest);
            lemma_colons(rest);
            assert(ps.drop_first() =~= numerals(rest, 16));
            assert(t == first + seq![':'] + r);
            assert forall|i: int| 0 <= i < t.len() - 1 implies !(#[trigger] t[i] == ':' && t[i + 1]
                == ':') by {
                let n = first.len() as int;
                if i > n {
                    assert(t[i] == r[i - n - 1]);
                    assert(t[i + 1] == r[i - n]);
                } else if i == n {
                    assert(t[i + 1] == r[0]);
                }
            }
            assert(!t.contains('.')) by {
                if t.contains('.') {
                    let i = choose|i: int| 0 <= i < t.len() && t[i] == '.';
                    let n = first.len() as int;
                    if i > n {
                        assert(r[i - n - 1] == '.');
                    }
                }
            }
            assert(t.last() == r.last());
        } else {
            assert(t == first);
        }
    }
}

proof fn lemma_double_colon_is(t: Seq<char>, pos: int, at: int)
    requires
        0 <= pos <= at,
        at + 1 < t.len(),
        t[at] == ':' && t[at + 1] == ':',
        forall|i: int| pos <= i < at ==> !(#[trigger] t[i] == ':' && t[i + 1] == ':'),
    ensures
        double_colon(t, pos) == at,
    decreases at - pos,
{
    if pos < at {
        assert(!(t[pos] == ':' && t[pos + 1] == ':'));
        lemma_double_colon_is(t, pos + 1, at);
    }
}

proof fn lemma_double_colon_none(t: Seq<char>, pos: int)
    requires
        0 <= pos,
        no_double(t),
    ensures
        double_colon(t, pos) == t.len(),
    decreases t.len() - pos,
{
    if pos + 1 < t.len() {
        assert(!(t[pos] == ':' && t[pos + 1] == ':'));
        lemma_double_colon_none(t, pos + 1);
    }
}

/// A `::` between texts is found where it stands.
#[verifier::spinoff_prover]
proof fn lemma_gap(a: Seq<char>, b: Seq<char>)
    requires
        no_double(a),
        a.len() > 0 ==> a.last() != ':',
    ensures
        ({
            let t = a + seq![':', ':'] + b;
            &&& double_colon(t, 0) == a.len()
            &&& t.take(a.len() as int) == a
            &&& t.skip(a.len() as int + 2) == b
        }),
{
    let t = a + seq![':', ':'] + b;
    let at = a.len() as int;
    assert(t[at] == ':' && t[at + 1] == ':');
    assert forall|i: int| 0 <= i < at implies !(#[trigger] t[i] == ':' && t[i + 1] == ':') by {
        assert(t[i] == a[i]);
        if i + 1 < at {
            assert(t[i + 1] == a[i + 1]);
        } else {
            assert(t[i] == a.last());
        }
    }
    lemma_double_colon_is(t, 0, at);
    assert(t.take(at) =~= a);
    assert(t.skip(at + 2) =~= b);
}

/// Groups around a `::` are read back as they were written.
#[verifier::spinoff_prover]
proof fn lemma_around(head: Seq<u16>, tail: Seq<u16>)
    requires
        head.len() + tail.len() <= 7,
    ensures
        ({
            let t = colons(head) + seq![':', ':'] + colons(tail);
            &&& v6_of(t) == Some(head + zeros((8 - head.len() - tail.len()) as nat) + tail)
            &&& !t.contains('.')
        }),
{
    let a = colons(head);
    let b = colons(tail);
    let t = a + seq![':', ':'] + b;
    lemma_colons(head);
    lemma_colons(tail);
    let at = a.len() as int;
    lemma_gap(a, b);
    lemma_side(head, false);
    lemma_side(tail, true);
    assert(!t.contains('.')) by {
        if t.contains('.') {
            let i = choose|i: int| 0 <= i < t.len() && t[i] == '.';
            if i < at {
                assert(a[i] == '.');
            } else {
                assert(b[i - at - 2] == '.');
            }
        }
    }
}

proof fn lemma_side(gs: Seq<u16>, last_dotted: bool)
    ensures
        side_of(colons(gs), last_dotted) == Some(gs),
{
    lemma_colons(gs);
    lemma_groups(gs, last_dotted);
    if gs.len() == 0 {
        assert(gs =~= Seq::<u16>::empty());
    }
}

/// Eight groups are read back as they were written.
pub proof fn lemma_compressed(gs: Seq<u16>)
    requires
        gs.len() == 8,
    ensures
        v6_of(compressed(gs)) == Some(gs),
        octets_of(compressed(gs)) is None,
{
    let t = compressed(gs);
    let (start, len) = longest_zeros(gs, 8);
    lemma_longest_zeros(gs, 8);
    if len > 1 {
        let head = gs.take(start);
        let tail = gs.skip(start + len);
        lemma_around(head, tail);
        assert(head + zeros(len as nat) + tail =~= gs);
    } else {
        lemma_colons(gs);
        lemma_double_colon_none(t, 0);
        lemma_groups(gs, true);
    }
    lemma_one_part(t, '.');
}

/// An address has four octets or eight groups.
pub open spec fn is_address(a: Address) -> bool {
    match a {
        Address::V4(octets) => octets.len() == 4,
        Address::V6(gs) => gs.len() == 8,
    }
}

/// The IPv4 address that an IPv4-mapped one stands for; any other itself.
pub open spec fn unmapped(a: Address) -> Address {
    match a {
        Address::V4(octets) => a,
        Address::V6(gs) => match mapped_of(gs) {
            Some(octets) => Address::V4(octets),
            None => a,
        },
    }
}

/// The text of an address is a literal of that address; that of an IPv4-mapped
/// one is a literal of the IPv4 address.
pub proof fn law_text_parses(a: Address)
    requires
        is_address(a),
    ensures
        address_of(text_of(a)) == Some(unmapped(a)),
{
    match unmapped(a) {
        Address::V4(octets) => lemma_dotted(octets),
        Address::V6(gs) => lemma_compressed(gs),
    }
}

/// What a literal stands for is an address.
pub proof fn lemma_address_of(t: Seq<char>)
    requires
        address_of(t) is Some,
    ensures
        is_address(address_of(t)->0),
{
}

/// The text of an address holds digits, in lower case, dots and colons only.
pub proof fn lemma_text_chars(a: Address, c: char)
    requires
        is_address(a),
        !('0' <= c <= '9'),
        !('a' <= c <= 'f'),
        c != '.',
        c != ':',
    ensures
        text_of(a).len() > 0,
        !text_of(a).contains(c),
{
    match unmapped(a) {
        Address::V4(octets) => {
            let ps = numerals(octets, 10);
            assert forall|i: int| 0 <= i < ps.len() implies !(#[trigger] ps[i]).contains(c) by {
                lemma_numeral_without(octets[i] as nat, 10, c);
            }
            lemma_joined_without(ps, '.', c);
            lemma_numeral(octets[0] as nat, 10);
        },
        Address::V6(gs) => {
            let (start, len) = longest_zeros(gs, 8);
            lemma_longest_zeros(gs, 8);
            let t = compressed(gs);
            if len > 1 {
                let head = gs.take(start);
                let tail = gs.skip(start + len);
                lemma_colons_without(head, c);
                lemma_colons_without(tail, c);
                if t.contains(c) {
                    let i = choose|i: int| 0 <= i < t.len() && t[i] == c;
                    let n = colons(head).len() as int;
                    if i < n {
                        assert(colons(head)[i] == c);
                    } else if i >= n + 2 {
                        assert(colons(tail)[i - n - 2] == c);
                    }
                }
            } else {
                lemma_colons_without(gs, c);
                lemma_colons(gs);
            }
        },
    }
}

/// The text of an address does not end with a dot.
pub proof fn lemma_text_end(a: Address)
    requires
        is_address(a),
    ensures
        text_of(a).len() > 0,
        text_of(a).last() != '.',
{
    lemma_text_chars(a, ' ');
    let t = text_of(a);
    match unmapped(a) {
        Address::V4(octets) => {
            let ps = numerals(octets, 10);
            assert forall|i: int| 0 <= i < ps.len() implies !(#[trigger] ps[i]).contains('.') by {
                lemma_numeral_without(octets[i] as nat, 10, '.');
            }
            lemma_joined(ps, '.');
            lemma_numeral(octets[3] as nat, 10);
            if t.last() == '.' {
                lemma_last_part(t, '.');
                assert(ps.last() == ps[3]);
            }
        },
        Address::V6(gs) => {
            let (start, len) = longest_zeros(gs, 8);
            lemma_longest_zeros(gs, 8);
            if len > 1 {
                let tail = colons(gs.skip(start + len));
                lemma_colons_without(gs.skip(start + len), '.');
                if tail.len() > 0 {
                    assert(t.last() == tail.last());
                    assert(tail.contains(tail.last()));
                }
            } else {
                lemma_colons_without(gs, '.');
                assert(t.contains(t.last()));
            }
        },
    }
}

proof fn lemma_colons_without(gs: Seq<u16>, c: char)
    requires
        !('0' <= c <= '9'),
        !('a' <= c <= 'f'),
        c != ':',
    ensures
        !colons(gs).contains(c),
{
    let ps = numerals(gs, 16);
    assert forall|i: int| 0 <= i < ps.len() implies !(#[trigger] ps[i]).contains(c) by {
        lemma_numeral_without(gs[i] as nat, 16, c);
    }
    lemma_joined_without(ps, ':', c);
}

/// A text without a colon is a literal of an IPv4 address or of none.
pub proof fn lemma_no_colon(t: Seq<char>)
    requires
        !t.contains(':'),
    ensures
        v6_of(t) is None,
{
    assert(no_double(t)) by {
        assert forall|i: int| 0 <= i < t.len() - 1 implies !(#[trigger] t[i] == ':' && t[i + 1]
            == ':') by {
            assert(t.contains(t[i]));
        }
    }
    lemma_double_colon_none(t, 0);
    lemma_one_part(t, ':');
    let ps = seq![t];
    assert(ps.drop_first() =~= Seq::<Seq<char>>::empty());
    reveal_with_fuel(groups_of, 2);
}

/// A text is a literal of four octets exactly where it is their decimal numerals
/// with dots between them: no other spelling is one.
pub proof fn law_octets_are_spelled_one_way(t: Seq<char>, o: Seq<u8>)
    requires
        o.len() == 4,
    ensures
        address_of(t) == Some(Address::V4(o)) <==> t == joined(
            seq![
                decimal(o[0] as nat),
                decimal(o[1] as nat),
                decimal(o[2] as nat),
                decimal(o[3] as nat),
            ],
            '.',
        ),
{
    assert(numerals(o, 10) =~= seq![
        decimal(o[0] as nat),
        decimal(o[1] as nat),
        decimal(o[2] as nat),
        decimal(o[3] as nat),
    ]);
    lemma_dotted(o);
    if octets_of(t) is Some {
        lemma_octets_text(t);
    }
}

/// What a character stands for as a hexadecimal digit, if it is one.
pub open spec fn hexadecimal(c: char) -> Option<int> {
    if '0' <= c <= '9' {
        Some(c as int - 48)
    } else if 'A' <= c <= 'F' {
        Some(c as int - 55)
    } else if 'a' <= c <= 'f' {
        Some(c as int - 87)
    } else {
        None
    }
}

/// A group is one to four hexadecimal digits in either case, and stands for what
/// they stand for.
pub proof fn law_group_is_hexadecimal(a: char, b: char, c: char, d: char, w: Seq<char>)
    requires
        hexadecimal(a) is Some && hexadecimal(b) is Some,
        hexadecimal(c) is Some && hexadecimal(d) is Some,
    ensures
        group_of(seq![d]) == Some(hexadecimal(d)->0 as u16),
        group_of(seq![c, d]) == Some((16 * hexadecimal(c)->0 + hexadecimal(d)->0) as u16),
        group_of(seq![b, c, d]) == Some(
            (256 * hexadecimal(b)->0 + 16 * hexadecimal(c)->0 + hexadecimal(d)->0) as u16,
        ),
        group_of(seq![a, b, c, d]) == Some(
            (4096 * hexadecimal(a)->0 + 256 * hexadecimal(b)->0 + 16 * hexadecimal(c)->0
                + hexadecimal(d)->0) as u16,
        ),
        w.len() == 0 || w.len() > 4 || (exists|i: int|
            0 <= i < w.len() && hexadecimal(#[trigger] w[i]) is None) ==> group_of(w) is None,
{
    reveal_with_fuel(value, 5);
    let four = seq![a, b, c, d];
    let three = seq![b, c, d];
    let two = seq![c, d];
    let one = seq![d];
    assert(four.drop_last() =~= seq![a, b, c]);
    assert(four.drop_last().drop_last() =~= seq![a, b]);
    assert(four.drop_last().drop_last().drop_last() =~= seq![a]);
    assert(three.drop_last() =~= seq![b, c]);
    assert(three.drop_last().drop_last() =~= seq![b]);
    assert(two.drop_last() =~= seq![c]);
    assert(seq![a].drop_last() =~= Seq::<char>::empty());
    assert(seq![b].drop_last() =~= Seq::<char>::empty());
    assert(seq![c].drop_last() =~= Seq::<char>::empty());
    assert(one.drop_last() =~= Seq::<char>::empty());
    if exists|i: int| 0 <= i < w.len() && hexadecimal(#[trigger] w[i]) is None {
        let i = choose|i: int| 0 <= i < w.len() && hexadecimal(#[trigger] w[i]) is None;
        assert(digit_value(w[i]) == 16);
    }
}

/// What groups stand for.
pub open spec fn group_values(ws: Seq<Seq<char>>) -> Seq<u16> {
    Seq::new(ws.len(), |i: int| group_of(ws[i])->0)
}

/// Every text is a group.
pub open spec fn are_groups(ws: Seq<Seq<char>>) -> bool {
    forall|i: int| 0 <= i < ws.len() ==> group_of(#[trigger] ws[i]) is Some
}

proof fn lemma_group_chars(w: Seq<char>)
    requires
        group_of(w) is Some,
    ensures
        w.len() > 0,
        !w.contains(':'),
        !w.contains('.'),
        octets_of(w) is None,
{
    assert forall|i: int| 0 <= i < w.len() implies #[trigger] w[i] != ':' && w[i] != '.' by {
        assert(digit_value(w[i]) < 16);
    }
    lemma_one_part(w, '.');
}

/// Texts that hold no colon, separated by colons, have no two neighbouring ones.
proof fn lemma_words(ps: Seq<Seq<char>>)
    requires
        forall|i: int| 0 <= i < ps.len() ==> (#[trigger] ps[i]).len() > 0 && !ps[i].contains(':'),
    ensures
        ps.len() == 0 <==> joined(ps, ':').len() == 0,
        ps.len() > 0 ==> joined(ps, ':')[0] != ':' && joined(ps, ':').last() != ':',
        no_double(joined(ps, ':')),
        ps.len() > 0 ==> parts(joined(ps, ':'), ':') == ps,
    decreases ps.len(),
{
    let t = joined(ps, ':');
    if ps.len() > 0 {
        let first = ps[0];
        assert forall|i: int| 0 <= i < first.len() implies first[i] != ':' by {
            assert(first.contains(first[i]));
        }
        assert forall|i: int| 0 <= i < ps.len() implies !(#[trigger] ps[i]).contains(':') by {}
        lemma_joined(ps, ':');
        if ps.len() > 1 {
            let rest = ps.drop_first();
            let r = joined(rest, ':');
            assert forall|i: int| 0 <= i < rest.len() implies (#[trigger] rest[i]).len() > 0
                && !rest[i].contains(':') by {
                assert(ps[i + 1].len() > 0);
            }
            lemma_words(rest);
            assert(t == first + seq![':'] + r);
            assert forall|i: int| 0 <= i < t.len() - 1 implies !(#[trigger] t[i] == ':' && t[i + 1]
                == ':') by {
                let n = first.len() as int;
                if i > n {
                    assert(t[i] == r[i - n - 1]);
                    assert(t[i + 1] == r[i - n]);
                } else if i == n {
                    assert(t[i + 1] == r[0]);
                }
            }
            assert(t.last() == r.last());
        } else {
            assert(t == first);
        }
    }
}

/// What groups, and octets behind them, stand for.
proof fn lemma_group_values(ws: Seq<Seq<char>>, last: Option<Seq<u8>>, last_dotted: bool)
    requires
        are_groups(ws),
        last matches Some(o) ==> o.len() == 4 && last_dotted,
    ensures
        groups_of(ws + last_word(last), last_dotted) == Some(group_values(ws) + last_values(last)),
    decreases ws.len(),
{
    let ps = ws + last_word(last);
    let vs = group_values(ws) + last_values(last);
    if ws.len() == 0 {
        match last {
            None => {
                assert(ps =~= Seq::<Seq<char>>::empty());
                assert(vs =~= Seq::<u16>::empty());
            },
            Some(o) => {
                lemma_dotted(o);
                assert(ps =~= seq![dotted(o)]);
                assert(vs =~= last_values(last));
            },
        }
    } else {
        let rest = ws.drop_first();
        assert(are_groups(rest)) by {
            assert forall|i: int| 0 <= i < rest.len() implies group_of(#[trigger] rest[i])
                is Some by {
                assert(group_of(ws[i + 1]) is Some);
            }
        }
        lemma_group_values(rest, last, last_dotted);
        assert(group_of(ws[0]) is Some);
        lemma_group_chars(ws[0]);
        assert(ps.drop_first() =~= rest + last_word(last));
        assert(ps[0] == ws[0]);
        assert(vs =~= seq![group_of(ws[0])->0] + (group_values(rest) + last_values(last)));
    }
}

/// The text of octets at the end of a literal, where there are any.
pub open spec fn last_word(last: Option<Seq<u8>>) -> Seq<Seq<char>> {
    match last {
        None => Seq::empty(),
        Some(o) => seq![dotted(o)],
    }
}

/// The two groups that octets at the end of a literal stand for.
pub open spec fn last_values(last: Option<Seq<u8>>) -> Seq<u16> {
    match last {
        None => Seq::empty(),
        Some(o) => seq![(o[0] * 256 + o[1]) as u16, (o[2] * 256 + o[3]) as u16],
    }
}

/// A literal of an IPv6 address is eight groups with colons between them. Two
/// colons stand for as many zeros as are missing, and at least for one; the last
/// two groups may be spelled as octets.
#[verifier::spinoff_prover]
pub proof fn law_groups_are_read(
    head: Seq<Seq<char>>,
    tail: Seq<Seq<char>>,
    last: Option<Seq<u8>>,
)
    requires
        are_groups(head),
        are_groups(tail),
        last matches Some(o) ==> o.len() == 4,
    ensures
        ({
            let words = tail + last_word(last);
            let values = group_values(tail) + last_values(last);
            let missing = 8 - head.len() - values.len();
            &&& missing >= 1 ==> address_of(
                joined(head, ':') + seq![':', ':'] + joined(words, ':'),
            ) == Some(
                Address::V6(
                    group_values(head) + Seq::new(missing as nat, |i: int| 0u16) + values,
                ),
            )
            &&& missing < 1 ==> address_of(
                joined(head, ':') + seq![':', ':'] + joined(words, ':'),
            ) is None
            &&& words.len() > 1 ==> address_of(joined(words, ':')) == if values.len() == 8 {
                Some(Address::V6(values))
            } else {
                None
            }
        }),
{
    let words = tail + last_word(last);
    let values = group_values(tail) + last_values(last);
    let a = joined(head, ':');
    let b = joined(words, ':');
    let t = a + seq![':', ':'] + b;
    assert forall|i: int| 0 <= i < head.len() implies (#[trigger] head[i]).len() > 0
        && !head[i].contains(':') by {
        assert(group_of(head[i]) is Some);
        lemma_group_chars(head[i]);
    }
    assert forall|i: int| 0 <= i < words.len() implies (#[trigger] words[i]).len() > 0
        && !words[i].contains(':') by {
        if i < tail.len() {
            assert(group_of(tail[i]) is Some);
            lemma_group_chars(tail[i]);
        } else {
            lemma_dotted_word(last->0);
        }
    }
    lemma_words(head);
    lemma_words(words);
    lemma_group_values(head, None, false);
    assert(head + last_word(None) =~= head);
    assert(group_values(head) + last_values(None) =~= group_values(head));
    lemma_group_values(tail, last, true);
    let at = a.len() as int;
    lemma_gap(a, b);
    assert(t[at] == ':');
    lemma_colon_is_no_octet(t);
    let missing = 8 - head.len() - values.len();
    if head.len() == 0 {
        assert(group_values(head) =~= Seq::<u16>::empty());
    }
    if words.len() == 0 {
        assert(values =~= Seq::<u16>::empty());
    }
    assert(zeros(missing as nat) =~= Seq::new(missing as nat, |i: int| 0u16));
    if words.len() > 1 {
        lemma_double_colon_none(b, 0);
        assert(b == words[0] + seq![':'] + joined(words.drop_first(), ':'));
        assert(b[words[0].len() as int] == ':');
        assert(b.contains(':'));
        lemma_colon_is_no_octet(b);
    }
}

proof fn lemma_dotted_word(o: Seq<u8>)
    requires
        o.len() == 4,
    ensures
        dotted(o).len() > 0,
        !dotted(o).contains(':'),
{
    let ps = numerals(o, 10);
    assert forall|i: int| 0 <= i < ps.len() implies !(#[trigger] ps[i]).contains(':') by {
        lemma_octet(o[i]);
    }
    lemma_joined_without(ps, '.', ':');
}

proof fn lemma_colon_is_no_octet(t: Seq<char>)
    requires
        t.contains(':'),
    ensures
        octets_of(t) is None,
{
    if octets_of(t) is Some {
        lemma_octets_text(t);
        lemma_dotted_word(octets_of(t)->0);
    }
}

/// The text of an IPv6 address leaves out its first longest run of zeros, where
/// that is two or more, and writes every other group in small letters without
/// leading zeros. Only an IPv4-mapped address is written as octets.
pub proof fn law_text_leaves_out_zeros(gs: Seq<u16>, start: int, len: int)
    requires
        gs.len() == 8,
        !(gs[0] == 0 && gs[1] == 0 && gs[2] == 0 && gs[3] == 0 && gs[4] == 0 && gs[5] == 0xffff),
        0 <= start <= start + len <= 8,
        forall|i: int| start <= i < start + len ==> gs[i] == 0,
        // No run is longer, and none before it is as long.
        forall|i: int, n: int|
            #![trigger gs.subrange(i, i + n)]
            0 <= i && 0 < n && i + n <= 8 && (n > len || n == len && i < start) ==> exists|j: int|
                i <= j < i + n && #[trigger] gs[j] != 0,
    ensures
        text_of(Address::V6(gs)) == if len >= 2 {
            joined(numerals(gs.take(start), 16), ':') + seq![':', ':'] + joined(
                numerals(gs.skip(start + len), 16),
                ':',
            )
        } else {
            joined(numerals(gs, 16), ':')
        },
{
    assert(mapped_of(gs) is None) by {
        if gs.take(5) == zeros(5) {
            assert(gs.take(5)[0] == 0 && gs.take(5)[1] == 0 && gs.take(5)[2] == 0);
            assert(gs.take(5)[3] == 0 && gs.take(5)[4] == 0);
        }
    }
    let (s, l) = longest_zeros(gs, 8);
    lemma_longest_zeros(gs, 8);
    lemma_longest_first(gs, 8);
    if l > len || (l == len && l > 0 && s < start) {
        let run = gs.subrange(s, s + l);
        let j = choose|j: int| s <= j < s + l && #[trigger] gs[j] != 0;
        assert(gs[j] == 0);
    }
    if len > 0 {
        lemma_zero_run_is(gs, start, len);
    }
}

/// A run of zeros is at least as long as the zeros that are known.
proof fn lemma_zero_run_is(gs: Seq<u16>, start: int, len: int)
    requires
        0 <= start <= start + len <= gs.len(),
        forall|i: int| start <= i < start + len ==> gs[i] == 0,
    ensures
        zero_run(gs, start) >= len,
    decreases len,
{
    if len > 0 {
        lemma_zero_run_is(gs, start + 1, len - 1);
    } else {
        lemma_zero_run(gs, start);
    }
}

/// No run is longer than the longest, and none before it is as long.
proof fn lemma_longest_first(gs: Seq<u16>, n: nat)
    requires
        n <= gs.len(),
    ensures
        ({
            let (start, len) = longest_zeros(gs, n);
            forall|i: int|
                0 <= i < n ==> #[trigger] zero_run(gs, i) <= len && (zero_run(gs, i) == len && len
                    > 0 ==> start <= i)
        }),
    decreases n,
{
    if n > 0 {
        lemma_longest_first(gs, (n - 1) as nat);
        let best = longest_zeros(gs, (n - 1) as nat);
        let (start, len) = longest_zeros(gs, n);
        lemma_longest_start(gs, (n - 1) as nat);
        assert forall|i: int| 0 <= i < n implies #[trigger] zero_run(gs, i) <= len && (zero_run(
            gs,
            i,
        ) == len && len > 0 ==> start <= i) by {
            if i < n - 1 {
                assert(zero_run(gs, i) <= best.1);
            }
        }
    }
}

proof fn lemma_longest_start(gs: Seq<u16>, n: nat)
    requires
        n <= gs.len(),
    ensures
        longest_zeros(gs, n).0 < n || longest_zeros(gs, n) == (0int, 0int),
    decreases n,
{
    if n > 0 {
        lemma_longest_start(gs, (n - 1) as nat);
    }
}

} // verus!
