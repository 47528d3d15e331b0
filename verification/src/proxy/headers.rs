//! The headers that a hop keeps to itself.
use vstd::prelude::*;
use vstd::utf8::encode_utf8;
use crate::policy::{lower, lowered};
use crate::text::{index_from, joined, lemma_index_from, lemma_joined, parts, split, string_of};

verus! {

/// The headers of a message, by lower-case name.
#[verifier::external_type_specification]
#[verifier::external_body]
#[verifier::reject_recursive_types(T)]
pub struct ExHeaderMap<T>(hyper::header::HeaderMap<T>);

/// The value of one header.
#[verifier::external_type_specification]
#[verifier::external_body]
pub struct ExHeaderValue(hyper::header::HeaderValue);

/// What a header map holds: the values of each name, in the order in which they
/// were added. Names are in lower case.
pub uninterp spec fn headers_of(
    headers: hyper::header::HeaderMap<hyper::header::HeaderValue>,
) -> Map<Seq<char>, Seq<Seq<u8>>>;

/// The values of `name`, which is in lower case.
pub open spec fn values_of(
    headers: hyper::header::HeaderMap<hyper::header::HeaderValue>,
    name: Seq<char>,
) -> Seq<Seq<u8>> {
    if headers_of(headers).contains_key(name) {
        headers_of(headers)[name]
    } else {
        Seq::empty()
    }
}

/// `HeaderMap::get_all` yields every value of a name, in order; the name of the
/// `Connection` header is `connection`.
#[verifier::external_body]
fn connection_values(
    headers: &hyper::header::HeaderMap<hyper::header::HeaderValue>,
) -> (r: Vec<Vec<u8>>)
    ensures
        r@.len() == values_of(*headers, "connection"@).len(),
        forall|i: int|
            0 <= i < r@.len() ==> (#[trigger] r@[i])@ == values_of(*headers, "connection"@)[i],
{
    headers.get_all(hyper::header::CONNECTION).iter().map(|v| v.as_bytes().to_vec()).collect()
}

/// A character that a header name is written with.
pub open spec fn is_name_char(c: char) -> bool {
    ||| 'a' <= c <= 'z'
    ||| 'A' <= c <= 'Z'
    ||| '0' <= c <= '9'
    ||| '#' <= c <= '\''
    ||| '^' <= c <= '`'
    ||| c == '!'
    ||| c == '*'
    ||| c == '+'
    ||| c == '-'
    ||| c == '.'
    ||| c == '|'
    ||| c == '~'
}

/// A header name as it is written.
pub open spec fn is_name(t: Seq<char>) -> bool {
    t.len() > 0 && forall|i: int| 0 <= i < t.len() ==> is_name_char(#[trigger] t[i])
}

/// The name that is looked up for `t`: in lower case, and with a NUL for each
/// character that a header name is not written with.
pub open spec fn looked_up(t: Seq<char>) -> Seq<char> {
    Seq::new(
        t.len(),
        |i: int|
            if is_name_char(t[i]) {
                lower(t[i])
            } else {
                '\0'
            },
    )
}

/// Text of ASCII characters alone.
pub open spec fn is_ascii_text(t: Seq<char>) -> bool {
    forall|i: int| 0 <= i < t.len() ==> (#[trigger] t[i] as u32) < 128
}

/// `HeaderMap::remove` removes every value of the name that is looked up for a
/// text. A map may hold a name with another character than a header name is
/// written with, such as a double quote: no text leads to it. A text of up to 64
/// bytes with such a character leads to no name, as none of that length holds a
/// NUL. A longer one is entered in a map with a NUL in the character's place, and
/// leads to that name again.
#[verifier::external_body]
fn remove_header(
    headers: &mut hyper::header::HeaderMap<hyper::header::HeaderValue>,
    name: &str,
)
    requires
        is_ascii_text(name@),
    ensures
        headers_of(*final(headers)) == headers_of(*old(headers)).remove(looked_up(name@)),
{
    headers.remove(name);
}

/// Text that a header value holds: visible ASCII, spaces and tabs.
pub open spec fn is_visible(v: Seq<u8>) -> bool {
    forall|i: int| 0 <= i < v.len() ==> 32 <= #[trigger] v[i] < 127 || v[i] == 9
}

/// ASCII bytes as text.
pub open spec fn ascii(v: Seq<u8>) -> Seq<char> {
    Seq::new(v.len(), |i: int| v[i] as char)
}

/// A space or a tab.
pub open spec fn is_blank(c: char) -> bool {
    c == ' ' || c == '\t'
}

/// `t` without the blanks at its start.
pub open spec fn unindented(t: Seq<char>) -> Seq<char>
    decreases t.len(),
{
    if t.len() > 0 && is_blank(t[0]) {
        unindented(t.skip(1))
    } else {
        t
    }
}

/// `t` without the blanks at its end.
pub open spec fn untrailed(t: Seq<char>) -> Seq<char>
    decreases t.len(),
{
    if t.len() > 0 && is_blank(t.last()) {
        untrailed(t.drop_last())
    } else {
        t
    }
}

/// `t` without the blanks around it.
pub open spec fn trimmed(t: Seq<char>) -> Seq<char> {
    untrailed(unindented(t))
}

/// The names that are looked up for what a `Connection` value lists, separated
/// by commas.
pub open spec fn listed(v: Seq<u8>) -> Set<Seq<char>> {
    Set::new(
        |name: Seq<char>|
            is_visible(v) && exists|j: int|
                0 <= j < parts(ascii(v), ',').len() && looked_up(
                    trimmed(#[trigger] parts(ascii(v), ',')[j]),
                ) == name,
    )
}

/// The names that any of the first `n` of the `Connection` values list.
pub open spec fn listed_in(values: Seq<Seq<u8>>, n: int) -> Set<Seq<char>> {
    Set::new(
        |name: Seq<char>|
            exists|i: int| 0 <= i < n && (#[trigger] listed(values[i])).contains(name),
    )
}

/// The names of the headers that are about one hop.
pub open spec fn hop_names() -> Set<Seq<char>> {
    set![
        "connection"@,
        "proxy-connection"@,
        "proxy-authenticate"@,
        "proxy-authorization"@,
        "keep-alive"@,
        "te"@,
        "trailer"@,
        "transfer-encoding"@,
        "upgrade"@,
    ]
}

/// `headers` without the names in `gone`.
pub open spec fn without(
    headers: Map<Seq<char>, Seq<Seq<u8>>>,
    gone: Set<Seq<char>>,
) -> Map<Seq<char>, Seq<Seq<u8>>> {
    headers.remove_keys(gone)
}

/// `t` without the blanks around it.
fn trim(t: &[char]) -> (r: &[char])
    ensures
        r@ == trimmed(t@),
{
    let mut start: usize = 0;
    proof {
        assert(t@.skip(0) =~= t@);
    }
    while start < t.len() && (t[start] == ' ' || t[start] == '\t')
        invariant
            start <= t@.len(),
            unindented(t@.skip(start as int)) == unindented(t@),
        decreases t@.len() - start,
    {
        proof {
            assert(t@.skip(start as int).skip(1) =~= t@.skip(start + 1));
        }
        start = start + 1;
    }
    let ghost left = t@.skip(start as int);
    proof {
        assert(unindented(left) == left);
        assert(t@.subrange(start as int, t@.len() as int) =~= left);
    }
    let mut end: usize = t.len();
    while end > start && (t[end - 1] == ' ' || t[end - 1] == '\t')
        invariant
            start <= end <= t@.len(),
            untrailed(t@.subrange(start as int, end as int)) == untrailed(left),
        decreases end - start,
    {
        proof {
            assert(t@.subrange(start as int, end as int).drop_last() =~= t@.subrange(
                start as int,
                end - 1,
            ));
        }
        end = end - 1;
    }
    proof {
        let rest = t@.subrange(start as int, end as int);
        assert(untrailed(rest) == rest);
    }
    &t[start..end]
}

/// The text of a header value, when it is visible.
fn visible_text(v: &[u8]) -> (r: Option<Vec<char>>)
    ensures
        r is Some <==> is_visible(v@),
        r matches Some(t) ==> t@ == ascii(v@),
{
    let mut t: Vec<char> = Vec::new();
    let mut i: usize = 0;
    while i < v.len()
        invariant
            i <= v@.len(),
            forall|j: int| 0 <= j < i ==> 32 <= #[trigger] v@[j] < 127 || v@[j] == 9,
            t@ == ascii(v@).take(i as int),
        decreases v@.len() - i,
    {
        let b = v[i];
        if !(32 <= b && b < 127 || b == 9) {
            proof {
                assert(!(32 <= v@[i as int] < 127 || v@[i as int] == 9));
            }
            return None;
        }
        t.push(b as char);
        i = i + 1;
        proof {
            assert(t@ =~= ascii(v@).take(i as int));
        }
    }
    proof {
        assert(t@ =~= ascii(v@));
    }
    Some(t)
}

/// What a part of a text holds, the text holds.
proof fn lemma_part_within(t: Seq<char>, sep: char, j: int, i: int)
    requires
        0 <= j < parts(t, sep).len(),
        0 <= i < parts(t, sep)[j].len(),
    ensures
        t.contains(parts(t, sep)[j][i]),
    decreases t.len(),
{
    lemma_index_from(t, sep, 0);
    let end = index_from(t, sep, 0);
    if end < t.len() {
        if j > 0 {
            let rest = t.skip(end + 1);
            lemma_part_within(rest, sep, j - 1, i);
            let c = parts(t, sep)[j][i];
            let k = choose|k: int| 0 <= k < rest.len() && rest[k] == c;
            assert(t[end + 1 + k] == c);
        } else {
            assert(t[i] == parts(t, sep)[j][i]);
        }
    }
}

/// Trimming a text leaves a part of it.
proof fn lemma_trimmed_within(t: Seq<char>, i: int)
    requires
        0 <= i < trimmed(t).len(),
    ensures
        t.contains(trimmed(t)[i]),
{
    lemma_unindented_within(t);
    lemma_untrailed_within(unindented(t));
    let left = unindented(t);
    assert(trimmed(t)[i] == left[i]);
    let start = t.len() - left.len();
    assert(t.skip(start)[i] == t[start + i]);
}

proof fn lemma_unindented_within(t: Seq<char>)
    ensures
        unindented(t).len() <= t.len(),
        unindented(t) == t.skip(t.len() - unindented(t).len()),
    decreases t.len(),
{
    if t.len() > 0 && is_blank(t[0]) {
        let rest = t.skip(1);
        lemma_unindented_within(rest);
        let n = rest.len() - unindented(rest).len();
        assert(rest.skip(n) =~= t.skip(n + 1));
    } else {
        assert(t.skip(0) =~= t);
    }
}

proof fn lemma_untrailed_within(t: Seq<char>)
    ensures
        untrailed(t).len() <= t.len(),
        untrailed(t) == t.take(untrailed(t).len() as int),
    decreases t.len(),
{
    if t.len() > 0 && is_blank(t.last()) {
        let rest = t.drop_last();
        lemma_untrailed_within(rest);
        assert(rest.take(untrailed(rest).len() as int) =~= t.take(untrailed(rest).len() as int));
    } else {
        assert(t.take(t.len() as int) =~= t);
    }
}

/// What a visible value lists is ASCII text.
proof fn lemma_part_ascii(v: Seq<u8>, j: int)
    requires
        is_visible(v),
        0 <= j < parts(ascii(v), ',').len(),
    ensures
        is_ascii_text(trimmed(parts(ascii(v), ',')[j])),
{
    let t = ascii(v);
    let part = parts(t, ',')[j];
    let token = trimmed(part);
    assert forall|i: int| 0 <= i < token.len() implies (#[trigger] token[i] as u32) < 128 by {
        lemma_trimmed_within(part, i);
        let k = choose|k: int| 0 <= k < part.len() && part[k] == token[i];
        lemma_part_within(t, ',', j, k);
        let m = choose|m: int| 0 <= m < t.len() && t[m] == part[k];
        assert(t[m] == v[m] as char);
        assert(32 <= v[m] < 127 || v[m] == 9);
    }
}

/// Remove the headers that one `Connection` value lists.
fn remove_listed(
    headers: &mut hyper::header::HeaderMap<hyper::header::HeaderValue>,
    v: &[u8],
)
    ensures
        headers_of(*final(headers)) == without(headers_of(*old(headers)), listed(v@)),
{
    let ghost before = headers_of(*headers);
    let t = match visible_text(v) {
        Some(t) => t,
        None => {
            proof {
                assert(listed(v@) =~= Set::<Seq<char>>::empty());
                assert(without(before, listed(v@)) =~= before);
            }
            return;
        },
    };
    let tokens = split(&t, ',');
    let ghost all = parts(t@, ',');
    let mut k: usize = 0;
    let ghost mut gone = Set::<Seq<char>>::empty();
    proof {
        assert(without(before, gone) =~= before);
    }
    while k < tokens.len()
        invariant
            k <= tokens@.len(),
            is_visible(v@),
            all == parts(ascii(v@), ','),
            tokens@.len() == all.len(),
            forall|j: int| 0 <= j < tokens@.len() ==> (#[trigger] tokens@[j])@ == all[j],
            gone == Set::new(
                |name: Seq<char>|
                    exists|j: int| 0 <= j < k && looked_up(trimmed(#[trigger] all[j])) == name,
            ),
            headers_of(*headers) == without(before, gone),
        decreases tokens@.len() - k,
    {
        let token = string_of(trim(tokens[k]));
        proof {
            lemma_part_ascii(v@, k as int);
        }
        remove_header(headers, token.as_str());
        proof {
            let name = looked_up(trimmed(all[k as int]));
            let more = Set::new(
                |name: Seq<char>|
                    exists|j: int| 0 <= j < k + 1 && looked_up(trimmed(#[trigger] all[j])) == name,
            );
            assert forall|n: Seq<char>| #[trigger] more.contains(n) <==> gone.insert(
                name,
            ).contains(n) by {
                if more.contains(n) {
                    let j = choose|j: int|
                        0 <= j < k + 1 && looked_up(trimmed(#[trigger] all[j])) == n;
                    if j < k {
                        assert(gone.contains(n));
                    }
                }
                if gone.contains(n) {
                    let j = choose|j: int| 0 <= j < k && looked_up(trimmed(#[trigger] all[j])) == n;
                    assert(looked_up(trimmed(all[j])) == n);
                }
                if n == name {
                    assert(looked_up(trimmed(all[k as int])) == n);
                }
            }
            assert(more =~= gone.insert(name));
            assert(without(before, gone).remove(name) =~= without(before, more));
            gone = more;
        }
        k = k + 1;
    }
    proof {
        assert(gone =~= listed(v@));
    }
}

/// The names of the headers that are about one hop are looked up as they are.
proof fn lemma_hop_names_looked_up()
    ensures
        looked_up("connection"@) == "connection"@,
        looked_up("proxy-connection"@) == "proxy-connection"@,
        looked_up("proxy-authenticate"@) == "proxy-authenticate"@,
        looked_up("proxy-authorization"@) == "proxy-authorization"@,
        looked_up("keep-alive"@) == "keep-alive"@,
        looked_up("te"@) == "te"@,
        looked_up("trailer"@) == "trailer"@,
        looked_up("transfer-encoding"@) == "transfer-encoding"@,
        looked_up("upgrade"@) == "upgrade"@,
        is_ascii_text("connection"@),
        is_ascii_text("proxy-connection"@),
        is_ascii_text("proxy-authenticate"@),
        is_ascii_text("proxy-authorization"@),
        is_ascii_text("keep-alive"@),
        is_ascii_text("te"@),
        is_ascii_text("trailer"@),
        is_ascii_text("transfer-encoding"@),
        is_ascii_text("upgrade"@),
{
    reveal_strlit("connection");
    reveal_strlit("proxy-connection");
    reveal_strlit("proxy-authenticate");
    reveal_strlit("proxy-authorization");
    reveal_strlit("keep-alive");
    reveal_strlit("te");
    reveal_strlit("trailer");
    reveal_strlit("transfer-encoding");
    reveal_strlit("upgrade");
    assert(looked_up("connection"@) =~= "connection"@);
    assert(looked_up("proxy-connection"@) =~= "proxy-connection"@);
    assert(looked_up("proxy-authenticate"@) =~= "proxy-authenticate"@);
    assert(looked_up("proxy-authorization"@) =~= "proxy-authorization"@);
    assert(looked_up("keep-alive"@) =~= "keep-alive"@);
    assert(looked_up("te"@) =~= "te"@);
    assert(looked_up("trailer"@) =~= "trailer"@);
    assert(looked_up("transfer-encoding"@) =~= "transfer-encoding"@);
    assert(looked_up("upgrade"@) =~= "upgrade"@);
}

/// Remove the headers that are about one hop: those that the `Connection`
/// header lists, and those that always are. A proxy credential is among them.
pub fn strip_hop_headers(
    headers: &mut hyper::header::HeaderMap<hyper::header::HeaderValue>,
)
    ensures
        ({
            let values = values_of(*old(headers), "connection"@);
            headers_of(*final(headers)) == without(
                headers_of(*old(headers)),
                listed_in(values, values.len() as int).union(hop_names()),
            )
        }),
{
    let ghost before = headers_of(*headers);
    let ghost values = values_of(*headers, "connection"@);
    let found = connection_values(headers);
    let mut i: usize = 0;
    proof {
        assert(listed_in(values, 0) =~= Set::<Seq<char>>::empty());
        assert(without(before, listed_in(values, 0)) =~= before);
    }
    while i < found.len()
        invariant
            i <= found@.len(),
            found@.len() == values.len(),
            forall|j: int| 0 <= j < found@.len() ==> (#[trigger] found@[j])@ == values[j],
            headers_of(*headers) == without(before, listed_in(values, i as int)),
        decreases found@.len() - i,
    {
        let ghost gone = listed_in(values, i as int);
        remove_listed(headers, &found[i]);
        proof {
            let here = listed(values[i as int]);
            let more = listed_in(values, i + 1);
            assert forall|n: Seq<char>| #[trigger] more.contains(n) <==> gone.union(here).contains(
                n,
            ) by {
                if more.contains(n) {
                    let j = choose|j: int|
                        0 <= j < i + 1 && (#[trigger] listed(values[j])).contains(n);
                    if j < i {
                        assert(gone.contains(n));
                    }
                }
                if gone.contains(n) {
                    let j = choose|j: int| 0 <= j < i && (#[trigger] listed(values[j])).contains(n);
                    assert(listed(values[j]).contains(n));
                }
                if here.contains(n) {
                    assert(listed(values[i as int]).contains(n));
                }
            }
            assert(more =~= gone.union(here));
            assert(without(without(before, gone), here) =~= without(before, more));
        }
        i = i + 1;
    }
    let ghost gone = listed_in(values, values.len() as int);
    proof {
        lemma_hop_names_looked_up();
    }
    remove_header(headers, "connection");
    remove_header(headers, "proxy-connection");
    remove_header(headers, "proxy-authenticate");
    remove_header(headers, "proxy-authorization");
    remove_header(headers, "keep-alive");
    remove_header(headers, "te");
    remove_header(headers, "trailer");
    remove_header(headers, "transfer-encoding");
    remove_header(headers, "upgrade");
    proof {
        assert(headers_of(*headers) =~= without(before, gone.union(hop_names())));
    }
}

/// What a header may hold.
pub open spec fn is_header_value(v: Seq<u8>) -> bool {
    forall|i: int| 0 <= i < v.len() ==> #[trigger] v[i] >= 32 && v[i] != 127 || v[i] == 9
}

/// How many names a header map always has room for: with fewer than a fifth of
/// its largest table in use, it can grow.
pub const ROOM: usize = 6000;

/// `HeaderMap::try_insert` gives a name one value in place of those it had.
/// `HeaderName::from_bytes` puts the name in lower case, and
/// `HeaderValue::from_bytes` takes exactly what a header may hold. A map of up
/// to [`ROOM`] names has a place for one more; when a larger one cannot grow
/// any further, which is not stated, it refuses the header and is left as it was.
#[verifier::external_body]
fn insert_header(
    headers: &mut hyper::header::HeaderMap<hyper::header::HeaderValue>,
    name: &str,
    value: &[u8],
) -> (r: bool)
    requires
        name@ == "host"@ || name@ == "connection"@,
    ensures
        r ==> is_header_value(value@),
        is_header_value(value@) && headers_of(*old(headers)).dom().finite() && headers_of(
            *old(headers),
        ).dom().len() <= ROOM ==> r,
        headers_of(*final(headers)) == if r {
            headers_of(*old(headers)).insert(lowered(name@), seq![value@])
        } else {
            headers_of(*old(headers))
        },
{
    match (
        hyper::header::HeaderName::from_bytes(name.as_bytes()),
        hyper::header::HeaderValue::from_bytes(value),
    ) {
        (Ok(name), Ok(value)) => headers.try_insert(name, value).is_ok(),
        _ => false,
    }
}

/// `close`
const CLOSE: [u8; 5] = [99, 108, 111, 115, 101];

/// The headers of a request as it is forwarded: those of the hop removed, the
/// host named as the client wrote it, and the connection closed afterwards.
pub open spec fn forwarded(
    headers: Map<Seq<char>, Seq<Seq<u8>>>,
    gone: Set<Seq<char>>,
    host: Seq<u8>,
) -> Map<Seq<char>, Seq<Seq<u8>>> {
    without(headers, gone).insert("host"@, seq![host]).insert(
        "connection"@,
        seq![seq![99u8, 108, 111, 115, 101]],
    )
}

/// Prepare the headers of a request for its destination. False means that the
/// host cannot stand in a header, or that the map is full, which it never is with
/// fewer than [`ROOM`] names; then the request is not forwarded.
pub fn prepare_request(
    headers: &mut hyper::header::HeaderMap<hyper::header::HeaderValue>,
    host: &[u8],
) -> (r: bool)
    ensures
        r ==> ({
            let values = values_of(*old(headers), "connection"@);
            headers_of(*final(headers)) == forwarded(
                headers_of(*old(headers)),
                listed_in(values, values.len() as int).union(hop_names()),
                host@,
            )
        }),
        r ==> is_header_value(host@),
        is_header_value(host@) && headers_of(*old(headers)).dom().finite() && headers_of(
            *old(headers),
        ).dom().len() < ROOM ==> r,
{
    let ghost before = headers_of(*headers);
    proof {
        reveal_strlit("host");
        reveal_strlit("connection");
        assert(lowered("host"@) =~= "host"@);
        assert(lowered("connection"@) =~= "connection"@);
        assert(CLOSE@ =~= seq![99u8, 108, 111, 115, 101]);
    }
    strip_hop_headers(headers);
    proof {
        let names = headers_of(*headers).dom();
        if before.dom().finite() {
            assert(names.subset_of(before.dom()));
            vstd::set_lib::lemma_len_subset(names, before.dom());
        }
        assert(is_header_value(CLOSE@));
    }
    if !insert_header(headers, "host", host) {
        return false;
    }
    insert_header(headers, "connection", &CLOSE)
}

/// A `Connection` value takes away the headers that it names, in whatever case.
/// Of the names without a NUL, it takes away only those that are written as
/// header names are: one with a double quote stays.
pub proof fn law_listed_names(v: Seq<u8>, name: Seq<char>, j: int)
    ensures
        listed(v).contains(name) && name.len() > 0 && !name.contains('\0') ==> is_name(name)
            && lowered(name) == name,
        is_visible(v) && 0 <= j < parts(ascii(v), ',').len() && is_name(
            trimmed(parts(ascii(v), ',')[j]),
        ) ==> listed(v).contains(lowered(trimmed(parts(ascii(v), ',')[j]))),
{
    if listed(v).contains(name) && name.len() > 0 && !name.contains('\0') {
        let all = parts(ascii(v), ',');
        let k = choose|k: int| 0 <= k < all.len() && looked_up(trimmed(#[trigger] all[k])) == name;
        let t = trimmed(all[k]);
        assert forall|i: int| 0 <= i < name.len() implies is_name_char(#[trigger] name[i])
            && lower(name[i]) == name[i] by {
            assert(name.contains(name[i]));
            assert(is_name_char(t[i]));
        }
        assert(lowered(name) =~= name);
    }
    if is_visible(v) && 0 <= j < parts(ascii(v), ',').len() {
        let t = trimmed(parts(ascii(v), ',')[j]);
        if is_name(t) {
            assert(looked_up(t) =~= lowered(t));
        }
    }
}

/// Forwarding a request does not hand its destination the proxy's credential.
pub proof fn law_forwarded_without_credential(
    headers: Map<Seq<char>, Seq<Seq<u8>>>,
    listed_names: Set<Seq<char>>,
    host: Seq<u8>,
)
    ensures
        !forwarded(headers, listed_names.union(hop_names()), host).contains_key(
            "proxy-authorization"@,
        ),
{
    reveal_strlit("proxy-authorization");
    reveal_strlit("host");
    reveal_strlit("connection");
    assert("host"@.len() == 4);
    assert("connection"@.len() == 10);
    assert("proxy-authorization"@.len() == 19);
}

/// Blanks around a listed name are no part of it, and nothing else of it is lost.
pub proof fn law_blanks_are_no_part(before: Seq<char>, name: Seq<char>, after: Seq<char>)
    requires
        forall|i: int| 0 <= i < before.len() ==> #[trigger] before[i] == ' ' || before[i] == '\t',
        forall|i: int| 0 <= i < after.len() ==> #[trigger] after[i] == ' ' || after[i] == '\t',
        name.len() > 0,
        name[0] != ' ' && name[0] != '\t',
        name.last() != ' ' && name.last() != '\t',
    ensures
        trimmed(before + name + after) == name,
{
    lemma_unindent(before, name + after);
    assert(before + name + after =~= before + (name + after));
    lemma_untrail(name, after);
}

proof fn lemma_unindent(before: Seq<char>, t: Seq<char>)
    requires
        forall|i: int| 0 <= i < before.len() ==> #[trigger] before[i] == ' ' || before[i] == '\t',
        t.len() > 0,
        t[0] != ' ' && t[0] != '\t',
    ensures
        unindented(before + t) == t,
    decreases before.len(),
{
    if before.len() > 0 {
        assert((before + t).skip(1) =~= before.skip(1) + t);
        assert((before + t)[0] == before[0]);
        lemma_unindent(before.skip(1), t);
    } else {
        assert(before + t =~= t);
    }
}

proof fn lemma_untrail(t: Seq<char>, after: Seq<char>)
    requires
        forall|i: int| 0 <= i < after.len() ==> #[trigger] after[i] == ' ' || after[i] == '\t',
        t.len() > 0,
        t.last() != ' ' && t.last() != '\t',
    ensures
        untrailed(t + after) == t,
    decreases after.len(),
{
    if after.len() > 0 {
        assert((t + after).drop_last() =~= t + after.drop_last());
        assert((t + after).last() == after[after.len() - 1]);
        lemma_untrail(t, after.drop_last());
    } else {
        assert(t + after =~= t);
    }
}

/// A forwarded request keeps every header that is neither about the hop nor
/// listed, with its values; it names the host that was asked for, and asks for
/// the connection to be closed.
pub proof fn law_other_headers_are_forwarded(
    headers: Map<Seq<char>, Seq<Seq<u8>>>,
    listed_names: Set<Seq<char>>,
    host: Seq<u8>,
    name: Seq<char>,
)
    requires
        name != "host"@,
        name != "connection"@,
    ensures
        ({
            let sent = forwarded(headers, listed_names.union(hop_names()), host);
            &&& sent.contains_key(name) <==> headers.contains_key(name) && !listed_names.contains(
                name,
            ) && name != "proxy-connection"@ && name != "proxy-authenticate"@ && name
                != "proxy-authorization"@ && name != "keep-alive"@ && name != "te"@ && name
                != "trailer"@ && name != "transfer-encoding"@ && name != "upgrade"@
            &&& sent.contains_key(name) ==> sent[name] == headers[name]
            &&& sent.contains_key("host"@) && sent["host"@] == seq![host]
            &&& sent.contains_key("connection"@) && sent["connection"@].len() == 1
            &&& sent["connection"@][0] == encode_utf8("close"@)
        }),
{
    reveal_strlit("host");
    reveal_strlit("connection");
    reveal_strlit("close");
    assert("host"@.len() == 4 && "connection"@.len() == 10);
    vstd::utf8::is_ascii_chars_encode_utf8("close"@);
    assert(encode_utf8("close"@) =~= seq![99u8, 108, 111, 115, 101]);
}

/// A character is written in header names exactly where it is a letter, a digit,
/// or one of fifteen signs.
pub proof fn law_header_names_are_tokens(c: char)
    ensures
        is_name_char(c) <==> {
            ||| '0' <= c <= '9'
            ||| 'A' <= c <= 'Z'
            ||| 'a' <= c <= 'z'
            ||| seq![
                '!',
                '#',
                '$',
                '%',
                '&',
                '\'',
                '*',
                '+',
                '-',
                '.',
                '^',
                '_',
                '`',
                '|',
                '~',
            ].contains(c)
        },
{
    let signs = seq![
        '!',
        '#',
        '$',
        '%',
        '&',
        '\'',
        '*',
        '+',
        '-',
        '.',
        '^',
        '_',
        '`',
        '|',
        '~',
    ];
    assert(signs[0] == '!' && signs[1] == '#' && signs[2] == '$' && signs[3] == '%');
    assert(signs[4] == '&' && signs[5] == '\'' && signs[6] == '*' && signs[7] == '+');
    assert(signs[8] == '-' && signs[9] == '.' && signs[10] == '^' && signs[11] == '_');
    assert(signs[12] == '`' && signs[13] == '|' && signs[14] == '~');
    assert(signs.len() == 15);
}

/// A `Connection` value lists the names that commas part, blanks around them
/// aside, in small letters, and no others.
pub proof fn law_commas_part_names(ps: Seq<Seq<char>>, name: Seq<char>, j: int)
    requires
        ps.len() > 0,
        forall|i: int| 0 <= i < ps.len() ==> !(#[trigger] ps[i]).contains(','),
        forall|i: int|
            0 <= i < joined(ps, ',').len() ==> ' ' <= #[trigger] joined(ps, ',')[i] <= '~',
        0 <= j < ps.len(),
        is_name(trimmed(ps[j])),
    ensures
        ({
            let v = encode_utf8(joined(ps, ','));
            let t = trimmed(ps[j]);
            &&& listed(v).contains(
                Seq::new(
                    t.len(),
                    |i: int|
                        if 'A' <= t[i] <= 'Z' {
                            (t[i] as int + 32) as char
                        } else {
                            t[i]
                        },
                ),
            )
            &&& listed(v).contains(name) <==> exists|i: int|
                0 <= i < ps.len() && looked_up(trimmed(#[trigger] ps[i])) == name
        }),
{
    let text = joined(ps, ',');
    let v = encode_utf8(text);
    vstd::utf8::is_ascii_chars_encode_utf8(text);
    assert(ascii(v) =~= text);
    assert(is_visible(v)) by {
        assert forall|i: int| 0 <= i < v.len() implies 32 <= #[trigger] v[i] < 127 || v[i] == 9 by {
            assert(' ' <= text[i] <= '~');
        }
    }
    lemma_joined(ps, ',');
    assert(parts(ascii(v), ',') == ps);
    let t = trimmed(ps[j]);
    let small = Seq::new(
        t.len(),
        |i: int|
            if 'A' <= t[i] <= 'Z' {
                (t[i] as int + 32) as char
            } else {
                t[i]
            },
    );
    assert forall|i: int| 0 <= i < t.len() implies looked_up(t)[i] == small[i] by {
        assert(is_name_char(t[i]));
    }
    assert(looked_up(t) =~= small);
    if listed(v).contains(name) {
        let i = choose|i: int|
            0 <= i < parts(ascii(v), ',').len() && looked_up(
                trimmed(#[trigger] parts(ascii(v), ',')[i]),
            ) == name;
        assert(looked_up(trimmed(ps[i])) == name);
    }
    if exists|i: int| 0 <= i < ps.len() && looked_up(trimmed(#[trigger] ps[i])) == name {
        let i = choose|i: int| 0 <= i < ps.len() && looked_up(trimmed(#[trigger] ps[i])) == name;
        assert(parts(ascii(v), ',')[i] == ps[i]);
    }
    assert(parts(ascii(v), ',')[j] == ps[j]);
}

/// A header's value may hold any byte but control characters, tabs aside; it is
/// text where it holds nothing beyond ASCII either.
pub proof fn law_values_hold_no_controls(b: u8, before: Seq<u8>, after: Seq<u8>)
    ensures
        is_header_value(before + seq![b] + after) <==> is_header_value(before) && is_header_value(
            after,
        ) && (b == 9 || b >= 32) && b != 127,
        is_visible(before + seq![b] + after) <==> is_visible(before) && is_visible(after) && (b == 9
            || 32 <= b <= 126),
        is_header_value(Seq::empty()) && is_visible(Seq::empty()),
{
    let v = before + seq![b] + after;
    let n = before.len() as int;
    assert(v[n] == b);
    assert(forall|i: int| 0 <= i < n ==> v[i] == #[trigger] before[i]);
    assert(forall|i: int| 0 <= i < after.len() ==> #[trigger] after[i] == v[n + 1 + i]);
    if is_header_value(before) && is_header_value(after) && (b == 9 || b >= 32) && b != 127 {
        assert forall|i: int| 0 <= i < v.len() implies #[trigger] v[i] >= 32 && v[i] != 127 || v[i]
            == 9 by {
            if i < n {
                assert(v[i] == before[i]);
            } else if i > n {
                assert(v[i] == after[i - n - 1]);
            }
        }
    }
    if is_visible(before) && is_visible(after) && (b == 9 || 32 <= b <= 126) {
        assert forall|i: int| 0 <= i < v.len() implies 32 <= #[trigger] v[i] < 127 || v[i] == 9 by {
            if i < n {
                assert(v[i] == before[i]);
            } else if i > n {
                assert(v[i] == after[i - n - 1]);
            }
        }
    }
}

} // verus!
