//! Text: characters, digits and separated parts.
use vstd::prelude::*;

verus! {

/// `String::push` appends one character to the end.
pub assume_specification[ String::push ](s: &mut String, c: char)
    ensures
        final(s)@ == old(s)@.push(c),
;

/// The characters of `s`.
pub fn chars_of(s: &str) -> (r: Vec<char>)
    ensures
        r@ == s@,
{
    let mut r: Vec<char> = Vec::new();
    for c in it: s.chars()
        invariant
            it.seq() == s@,
            r@ == s@.take(it.index() as int),
    {
        r.push(c);
        proof {
            assert(r@ =~= s@.take(it.index() as int + 1));
        }
    }
    proof {
        assert(r@ =~= s@);
    }
    r
}

/// The text made of `cs`.
pub fn string_of(cs: &[char]) -> (r: String)
    ensures
        r@ == cs@,
{
    let mut r = String::new();
    let mut i: usize = 0;
    while i < cs.len()
        invariant
            i <= cs@.len(),
            r@ == cs@.take(i as int),
        decreases cs@.len() - i,
    {
        r.push(cs[i]);
        i = i + 1;
        proof {
            assert(r@ =~= cs@.take(i as int));
        }
    }
    proof {
        assert(r@ =~= cs@);
    }
    r
}

/// Whether two texts are equal.
pub fn same_text(a: &str, b: &str) -> (r: bool)
    ensures
        r == (a@ == b@),
{
    let ac = chars_of(a);
    let bc = chars_of(b);
    if ac.len() != bc.len() {
        return false;
    }
    let mut i: usize = 0;
    while i < ac.len()
        invariant
            i <= ac@.len(),
            ac@ == a@,
            bc@ == b@,
            ac@.len() == bc@.len(),
            forall|j: int| 0 <= j < i ==> ac@[j] == bc@[j],
        decreases ac@.len() - i,
    {
        if ac[i] != bc[i] {
            return false;
        }
        i = i + 1;
    }
    proof {
        assert(ac@ =~= bc@);
    }
    true
}

/// The digit that stands for `d`, in bases up to sixteen.
pub open spec fn digit(d: int) -> char {
    if d < 10 {
        (d + '0' as int) as char
    } else {
        (d - 10 + 'a' as int) as char
    }
}

/// What `c` stands for as a digit; sixteen or more for what is no digit.
pub open spec fn digit_value(c: char) -> int {
    if '0' <= c <= '9' {
        c as int - '0' as int
    } else if 'a' <= c <= 'f' {
        c as int - 'a' as int + 10
    } else if 'A' <= c <= 'F' {
        c as int - 'A' as int + 10
    } else {
        16
    }
}

/// `n` in `base`, without leading zeros.
pub open spec fn numeral(n: nat, base: nat) -> Seq<char>
    decreases n,
    when 2 <= base <= 16
{
    if n < base {
        seq![digit(n as int)]
    } else {
        proof {
            vstd::arithmetic::div_mod::lemma_div_decreases(n as int, base as int);
        }
        numeral(n / base, base).push(digit((n % base) as int))
    }
}

/// `n` in decimal.
pub open spec fn decimal(n: nat) -> Seq<char> {
    numeral(n, 10)
}

/// Whether `t` is made of digits of `base`.
pub open spec fn all_digits(t: Seq<char>, base: nat) -> bool {
    forall|i: int| 0 <= i < t.len() ==> digit_value(#[trigger] t[i]) < base
}

/// The number that the digits `t` stand for.
pub open spec fn value(t: Seq<char>, base: nat) -> nat
    decreases t.len(),
{
    if t.len() == 0 {
        0
    } else {
        value(t.drop_last(), base) * base + digit_value(t.last()) as nat
    }
}

proof fn lemma_digit(d: int)
    requires
        0 <= d < 16,
    ensures
        digit_value(digit(d)) == d,
        digit(d) == '0' <==> d == 0,
{
}

/// A numeral is made of digits, does not start with a zero unless it is one,
/// and stands for its number.
pub proof fn lemma_numeral(n: nat, base: nat)
    requires
        2 <= base <= 16,
    ensures
        numeral(n, base).len() > 0,
        all_digits(numeral(n, base), base),
        value(numeral(n, base), base) == n,
        numeral(n, base)[0] == '0' ==> n == 0,
        n == 0 ==> numeral(n, base).len() == 1,
    decreases n,
{
    let t = numeral(n, base);
    reveal_with_fuel(value, 2);
    if n < base {
        lemma_digit(n as int);
        assert(t.drop_last() =~= Seq::<char>::empty());
        assert(value(t.drop_last(), base) == 0);
        assert(0 * base == 0) by (nonlinear_arith);
        assert(t.last() == digit(n as int));
    } else {
        vstd::arithmetic::div_mod::lemma_div_decreases(n as int, base as int);
        vstd::arithmetic::div_mod::lemma_fundamental_div_mod(n as int, base as int);
        vstd::arithmetic::div_mod::lemma_div_non_zero(n as int, base as int);
        vstd::arithmetic::div_mod::lemma_mod_bound(n as int, base as int);
        vstd::arithmetic::mul::lemma_mul_is_commutative(base as int, (n / base) as int);
        let q = n / base;
        let d = (n % base) as int;
        lemma_numeral(q, base);
        lemma_digit(d);
        assert(t.drop_last() =~= numeral(q, base));
        assert(t.last() == digit(d));
        assert(value(t, base) == q * base + d as nat);
    }
}

/// A numeral is written with decimal digits and lower-case letters only.
pub proof fn lemma_numeral_without(n: nat, base: nat, c: char)
    requires
        2 <= base <= 16,
        !('0' <= c <= '9'),
        !('a' <= c <= 'f'),
    ensures
        !numeral(n, base).contains(c),
    decreases n,
{
    let t = numeral(n, base);
    if n >= base {
        vstd::arithmetic::div_mod::lemma_div_decreases(n as int, base as int);
        vstd::arithmetic::div_mod::lemma_mod_bound(n as int, base as int);
        lemma_numeral_without(n / base, base, c);
    }
    if t.contains(c) {
        let i = choose|i: int| 0 <= i < t.len() && t[i] == c;
        if n >= base && i < t.len() - 1 {
            assert(numeral(n / base, base)[i] == c);
        }
    }
}

/// Digits without a leading zero are the numeral of what they stand for.
pub proof fn lemma_value(t: Seq<char>, base: nat)
    requires
        2 <= base <= 10,
        t.len() > 0,
        all_digits(t, base),
        t[0] == '0' ==> t.len() == 1,
    ensures
        numeral(value(t, base), base) == t,
        t[0] != '0' ==> value(t, base) > 0,
    decreases t.len(),
{
    reveal_with_fuel(value, 2);
    let c = t.last();
    assert(digit_value(t[t.len() - 1]) < base);
    assert('0' <= c <= '9');
    assert(digit(digit_value(c)) == c);
    let rest = t.drop_last();
    if t.len() == 1 {
        assert(rest =~= Seq::<char>::empty());
        assert(value(rest, base) == 0);
        assert(0 * base == 0) by (nonlinear_arith);
        assert(value(t, base) == digit_value(c) as nat);
        assert(numeral(value(t, base), base) =~= t);
    } else {
        assert(all_digits(rest, base)) by {
            assert forall|i: int| 0 <= i < rest.len() implies digit_value(#[trigger] rest[i])
                < base by {
                assert(digit_value(t[i]) < base);
            }
        }
        assert(rest[0] == t[0]);
        lemma_value(rest, base);
        let q = value(rest, base);
        let d = digit_value(c) as nat;
        let n = value(t, base);
        assert(n == q * base + d);
        vstd::arithmetic::div_mod::lemma_fundamental_div_mod_converse(
            n as int,
            base as int,
            q as int,
            d as int,
        );
        assert(n >= base) by (nonlinear_arith)
            requires
                n == q * base + d,
                q > 0,
        ;
        assert(n / base == q && n % base == d);
        assert(numeral(n, base) =~= rest.push(c));
        assert(rest.push(c) =~= t);
    }
}

/// Numerals of different numbers differ.
pub proof fn lemma_numeral_injective(a: nat, b: nat, base: nat)
    requires
        2 <= base <= 16,
        numeral(a, base) == numeral(b, base),
    ensures
        a == b,
{
    lemma_numeral(a, base);
    lemma_numeral(b, base);
}

pub fn digit_char(d: u8) -> (c: char)
    requires
        d < 16,
    ensures
        c == digit(d as int),
{
    if d < 10 {
        (d + 48) as char
    } else {
        (d - 10 + 97) as char
    }
}

/// What `c` stands for as a digit; sixteen for what is no digit.
pub fn digit_of(c: char) -> (d: u8)
    ensures
        d == digit_value(c),
{
    let n = c as u32;
    if '0' <= c && c <= '9' {
        (n - 48) as u8
    } else if 'a' <= c && c <= 'f' {
        (n - 97 + 10) as u8
    } else if 'A' <= c && c <= 'F' {
        (n - 65 + 10) as u8
    } else {
        16
    }
}

/// Append `n` in `base`.
pub fn push_numeral(t: &mut Vec<char>, n: u64, base: u64)
    requires
        2 <= base <= 16,
    ensures
        final(t)@ == old(t)@ + numeral(n as nat, base as nat),
    decreases n,
{
    let ghost before = t@;
    if n >= base {
        proof {
            vstd::arithmetic::div_mod::lemma_div_decreases(n as int, base as int);
        }
        push_numeral(t, n / base, base);
        t.push(digit_char((n % base) as u8));
    } else {
        t.push(digit_char(n as u8));
    }
    proof {
        assert(t@ =~= before + numeral(n as nat, base as nat));
    }
}

/// Where `c` first occurs in `t` at or after `pos`, or the end.
pub open spec fn index_from(t: Seq<char>, c: char, pos: int) -> int
    decreases t.len() - pos,
{
    if pos >= t.len() || t[pos] == c {
        pos
    } else {
        index_from(t, c, pos + 1)
    }
}

pub proof fn lemma_index_from(t: Seq<char>, c: char, pos: int)
    requires
        0 <= pos <= t.len(),
    ensures
        pos <= index_from(t, c, pos) <= t.len(),
        index_from(t, c, pos) < t.len() ==> t[index_from(t, c, pos)] == c,
        forall|i: int| pos <= i < index_from(t, c, pos) ==> t[i] != c,
    decreases t.len() - pos,
{
    if pos < t.len() && t[pos] != c {
        lemma_index_from(t, c, pos + 1);
    }
}

pub proof fn lemma_index_from_is(t: Seq<char>, c: char, pos: int, at: int)
    requires
        0 <= pos <= at <= t.len(),
        at < t.len() ==> t[at] == c,
        forall|i: int| pos <= i < at ==> t[i] != c,
    ensures
        index_from(t, c, pos) == at,
    decreases at - pos,
{
    if pos < at {
        lemma_index_from_is(t, c, pos + 1, at);
    }
}

/// Find where `c` first occurs in `t` at or after `pos`, or the end.
pub fn find_from(t: &[char], c: char, pos: usize) -> (r: usize)
    requires
        pos <= t@.len(),
    ensures
        r == index_from(t@, c, pos as int),
        pos <= r <= t@.len(),
{
    let mut r: usize = pos;
    while r < t.len() && t[r] != c
        invariant
            pos <= r <= t@.len(),
            forall|i: int| pos <= i < r ==> t@[i] != c,
        decreases t@.len() - r,
    {
        r = r + 1;
    }
    proof {
        lemma_index_from_is(t@, c, pos as int, r as int);
    }
    r
}

/// The parts of `t` between the occurrences of `sep`.
pub open spec fn parts(t: Seq<char>, sep: char) -> Seq<Seq<char>>
    decreases t.len(),
{
    let end = index_from(t, sep, 0);
    if 0 <= end < t.len() {
        seq![t.take(end)] + parts(t.skip(end + 1), sep)
    } else {
        seq![t]
    }
}

/// Texts joined by `sep`.
pub open spec fn joined(ps: Seq<Seq<char>>, sep: char) -> Seq<char>
    decreases ps.len(),
{
    if ps.len() == 0 {
        Seq::empty()
    } else if ps.len() == 1 {
        ps[0]
    } else {
        ps[0] + seq![sep] + joined(ps.drop_first(), sep)
    }
}

/// A text is its parts, joined.
pub proof fn lemma_parts(t: Seq<char>, sep: char)
    ensures
        parts(t, sep).len() > 0,
        joined(parts(t, sep), sep) == t,
        forall|i: int| 0 <= i < parts(t, sep).len() ==> !(#[trigger] parts(t, sep)[i]).contains(sep),
    decreases t.len(),
{
    lemma_index_from(t, sep, 0);
    let end = index_from(t, sep, 0);
    let ps = parts(t, sep);
    if end < t.len() {
        let rest = t.skip(end + 1);
        lemma_parts(rest, sep);
        assert(ps.drop_first() =~= parts(rest, sep));
        assert(t.take(end) + seq![sep] + rest =~= t);
        assert forall|i: int| 0 <= i < ps.len() implies !(#[trigger] ps[i]).contains(sep) by {
            if i > 0 {
                assert(ps[i] == parts(rest, sep)[i - 1]);
            }
        }
    }
}

/// Texts without `sep`, joined, have those texts for parts.
pub proof fn lemma_joined(ps: Seq<Seq<char>>, sep: char)
    requires
        ps.len() > 0,
        forall|i: int| 0 <= i < ps.len() ==> !(#[trigger] ps[i]).contains(sep),
    ensures
        parts(joined(ps, sep), sep) == ps,
    decreases ps.len(),
{
    let t = joined(ps, sep);
    let first = ps[0];
    assert(!first.contains(sep));
    assert forall|i: int| 0 <= i < first.len() implies first[i] != sep by {
        assert(first.contains(first[i]));
    }
    if ps.len() == 1 {
        lemma_index_from_is(t, sep, 0, t.len() as int);
        assert(ps =~= seq![first]);
    } else {
        let rest = ps.drop_first();
        assert forall|i: int| 0 <= i < rest.len() implies !(#[trigger] rest[i]).contains(sep) by {
            assert(!ps[i + 1].contains(sep));
        }
        lemma_joined(rest, sep);
        let n = first.len() as int;
        assert(t[n] == sep);
        assert(forall|i: int| 0 <= i < n ==> t[i] == first[i]);
        lemma_index_from_is(t, sep, 0, n);
        assert(t.take(n) =~= first);
        assert(t.skip(n + 1) =~= joined(rest, sep));
        assert(seq![first] + rest =~= ps);
    }
}

/// The parts of `t` between the occurrences of `sep`.
pub fn split<'a>(t: &'a [char], sep: char) -> (r: Vec<&'a [char]>)
    ensures
        r@.len() == parts(t@, sep).len(),
        forall|i: int| 0 <= i < r@.len() ==> (#[trigger] r@[i])@ == parts(t@, sep)[i],
{
    let mut r: Vec<&'a [char]> = Vec::new();
    let mut pos: usize = 0;
    proof {
        assert(t@.skip(0) =~= t@);
    }
    loop
        invariant_except_break
            pos <= t@.len(),
            r@.len() + parts(t@.skip(pos as int), sep).len() == parts(t@, sep).len(),
            forall|i: int| 0 <= i < r@.len() ==> (#[trigger] r@[i])@ == parts(t@, sep)[i],
            forall|i: int|
                r@.len() <= i < parts(t@, sep).len() ==> #[trigger] parts(t@, sep)[i] == parts(
                    t@.skip(pos as int),
                    sep,
                )[i - r@.len()],
        ensures
            r@.len() == parts(t@, sep).len(),
            forall|i: int| 0 <= i < r@.len() ==> (#[trigger] r@[i])@ == parts(t@, sep)[i],
        decreases t@.len() - pos,
    {
        let end = find_from(t, sep, pos);
        let ghost rest = t@.skip(pos as int);
        let ghost all = parts(t@, sep);
        let ghost n = r@.len() as int;
        proof {
            lemma_index_from(t@, sep, pos as int);
            lemma_index_from_is(rest, sep, 0, end - pos);
            assert(rest.take(end - pos) =~= t@.subrange(pos as int, end as int));
            assert(all[n] == parts(rest, sep)[0]);
        }
        r.push(&t[pos..end]);
        if end >= t.len() {
            proof {
                assert(rest.take(end - pos) =~= rest);
            }
            break;
        }
        proof {
            let tail = rest.skip(end - pos + 1);
            assert(tail =~= t@.skip(end + 1));
            assert(parts(rest, sep) == seq![rest.take(end - pos)] + parts(tail, sep));
            assert forall|i: int| r@.len() <= i < all.len() implies #[trigger] all[i] == parts(
                t@.skip(end + 1),
                sep,
            )[i - r@.len()] by {
                assert(all[i] == parts(rest, sep)[i - n]);
            }
        }
        pos = end + 1;
    }
    r
}

/// Joining texts without `c` by another character leaves no `c`.
pub proof fn lemma_joined_without(ps: Seq<Seq<char>>, sep: char, c: char)
    requires
        c != sep,
        forall|i: int| 0 <= i < ps.len() ==> !(#[trigger] ps[i]).contains(c),
    ensures
        !joined(ps, sep).contains(c),
    decreases ps.len(),
{
    let t = joined(ps, sep);
    if ps.len() == 1 {
        assert(!ps[0].contains(c));
    } else if ps.len() > 1 {
        let rest = ps.drop_first();
        assert forall|i: int| 0 <= i < rest.len() implies !(#[trigger] rest[i]).contains(c) by {
            assert(!ps[i + 1].contains(c));
        }
        lemma_joined_without(rest, sep, c);
        assert(!ps[0].contains(c));
        if t.contains(c) {
            let i = choose|i: int| 0 <= i < t.len() && t[i] == c;
            let n = ps[0].len() as int;
            if i < n {
                assert(ps[0][i] == c);
            } else if i > n {
                assert(joined(rest, sep)[i - n - 1] == c);
            }
        }
    }
}

/// The last part of a text that ends with the separator is empty.
pub proof fn lemma_last_part(t: Seq<char>, sep: char)
    requires
        t.len() > 0,
        t.last() == sep,
    ensures
        parts(t, sep).last().len() == 0,
    decreases t.len(),
{
    lemma_index_from(t, sep, 0);
    let end = index_from(t, sep, 0);
    let rest = t.skip(end + 1);
    lemma_parts(rest, sep);
    if rest.len() > 0 {
        assert(rest.last() == t.last());
        lemma_last_part(rest, sep);
    }
    assert(parts(t, sep).last() == parts(rest, sep).last());
}

} // verus!
