//! Which destinations a Network may reach.
use vstd::prelude::*;
use vstd::utf8::encode_utf8;
use crate::ip::{address_of, bits_v4, bits_v6, is_address, is_multicast, is_unspecified, law_text_parses, lemma_address_of, lemma_no_colon, lemma_octets_text, lemma_text_chars, lemma_text_end, octets_of, text_of, unmapped, zeros, Address, Ip};
use crate::text::{chars_of, decimal, joined, lemma_joined, lemma_joined_without, lemma_last_part, lemma_numeral_injective, lemma_numeral_without, lemma_parts, parts, push_numeral, split, string_of};

verus! {

/// Why a destination host is refused.
#[derive(Clone, Copy, Debug, PartialEq, Eq, Structural)]
pub enum HostError {
    /// An IP literal that names no single host.
    UnsupportedIp,
    /// Neither an IP literal nor a host name.
    InvalidHost,
}

impl HostError {
    /// What is reported.
    pub fn message(self) -> (r: &'static str)
        ensures
            r@ == match self {
                HostError::UnsupportedIp => "unsupported destination IP"@,
                HostError::InvalidHost => "invalid destination host"@,
            },
    {
        match self {
            HostError::UnsupportedIp => "unsupported destination IP",
            HostError::InvalidHost => "invalid destination host",
        }
    }
}

/// The longest host name, and the longest label of one.
pub const MAX_HOST_LEN: usize = 253;
pub const MAX_LABEL_LEN: usize = 63;

/// `c` in ASCII lower case.
pub open spec fn lower(c: char) -> char {
    if 'A' <= c <= 'Z' {
        (c as int + 32) as char
    } else {
        c
    }
}

/// `t` in ASCII lower case.
pub open spec fn lowered(t: Seq<char>) -> Seq<char> {
    Seq::new(t.len(), |i: int| lower(t[i]))
}

/// `t` without the dot of the DNS root.
pub open spec fn undotted(t: Seq<char>) -> Seq<char> {
    if t.len() > 0 && t.last() == '.' {
        t.drop_last()
    } else {
        t
    }
}

/// A character of a label.
pub open spec fn is_label_char(c: char) -> bool {
    'a' <= c <= 'z' || '0' <= c <= '9' || c == '-'
}

/// A label of a host name.
pub open spec fn is_label(l: Seq<char>) -> bool {
    &&& 0 < l.len() <= MAX_LABEL_LEN
    &&& l[0] != '-'
    &&& l.last() != '-'
    &&& forall|i: int| 0 <= i < l.len() ==> is_label_char(#[trigger] l[i])
}

/// A host name, in lower case.
pub open spec fn is_host_name(h: Seq<char>) -> bool {
    &&& 0 < h.len() <= MAX_HOST_LEN
    &&& forall|i: int| 0 <= i < parts(h, '.').len() ==> is_label(#[trigger] parts(h, '.')[i])
}

/// The one text that a destination host goes by: an IP literal in its canonical
/// form, or a host name in lower case without a trailing dot.
pub open spec fn canonical(t: Seq<char>) -> Result<Seq<char>, HostError> {
    match address_of(t) {
        Some(a) => if is_unspecified(a) || is_multicast(a) {
            Err(HostError::UnsupportedIp)
        } else {
            Ok(text_of(a))
        },
        None => {
            let host = lowered(undotted(t));
            if is_host_name(host) {
                Ok(host)
            } else {
                Err(HostError::InvalidHost)
            }
        },
    }
}

fn lower_char(c: char) -> (r: char)
    ensures
        r == lower(c),
{
    if 'A' <= c && c <= 'Z' {
        ((c as u32 - 65) as u8 + 97) as char
    } else {
        c
    }
}

fn check_label(l: &[char]) -> (r: bool)
    ensures
        r == is_label(l@),
{
    if l.len() == 0 || l.len() > MAX_LABEL_LEN || l[0] == '-' || l[l.len() - 1] == '-' {
        return false;
    }
    let mut i: usize = 0;
    while i < l.len()
        invariant
            i <= l@.len(),
            forall|j: int| 0 <= j < i ==> is_label_char(#[trigger] l@[j]),
        decreases l@.len() - i,
    {
        let c = l[i];
        if !('a' <= c && c <= 'z' || '0' <= c && c <= '9' || c == '-') {
            proof {
                assert(!is_label_char(l@[i as int]));
            }
            return false;
        }
        i = i + 1;
    }
    true
}

/// The one text that a destination host goes by.
pub fn canonical_host(input: &str) -> (r: Result<String, HostError>)
    ensures
        match canonical(input@) {
            Ok(host) => r matches Ok(s) && s@ == host,
            Err(e) => r == Err::<String, HostError>(e),
        },
{
    let t = chars_of(input);
    if let Some(ip) = Ip::parse(&t) {
        if ip.unspecified() || ip.multicast() {
            return Err(HostError::UnsupportedIp);
        }
        return Ok(string_of(&ip.text()));
    }
    let len = if t.len() > 0 && t[t.len() - 1] == '.' {
        t.len() - 1
    } else {
        t.len()
    };
    let ghost host = lowered(undotted(t@));
    let mut h: Vec<char> = Vec::new();
    let mut i: usize = 0;
    while i < len
        invariant
            i <= len <= t@.len(),
            host == lowered(t@.take(len as int)),
            h@ == host.take(i as int),
        decreases len - i,
    {
        h.push(lower_char(t[i]));
        i = i + 1;
        proof {
            assert(h@ =~= host.take(i as int));
        }
    }
    proof {
        assert(undotted(t@) =~= t@.take(len as int));
        assert(h@ =~= host);
    }
    if h.len() == 0 || h.len() > MAX_HOST_LEN {
        return Err(HostError::InvalidHost);
    }
    let labels = split(&h, '.');
    let mut k: usize = 0;
    while k < labels.len()
        invariant
            k <= labels@.len(),
            labels@.len() == parts(h@, '.').len(),
            h@ == host,
            host == lowered(undotted(t@)),
            t@ == input@,
            address_of(t@) is None,
            forall|j: int| 0 <= j < labels@.len() ==> (#[trigger] labels@[j])@ == parts(h@, '.')[j],
            forall|j: int| 0 <= j < k ==> is_label(#[trigger] parts(h@, '.')[j]),
        decreases labels@.len() - k,
    {
        if !check_label(labels[k]) {
            proof {
                assert(!is_label(parts(h@, '.')[k as int]));
            }
            return Err(HostError::InvalidHost);
        }
        k = k + 1;
    }
    Ok(string_of(&h))
}

/// A host and a port, as one text. The colons of an IPv6 literal are bracketed.
pub open spec fn authority_of(host: Seq<char>, port: nat) -> Seq<char> {
    if host.contains(':') {
        seq!['['] + host + seq![']', ':'] + decimal(port)
    } else {
        host + seq![':'] + decimal(port)
    }
}

/// A host and a port, as one text.
pub fn authority(host: &str, port: u16) -> (r: String)
    ensures
        r@ == authority_of(host@, port as nat),
{
    let h = chars_of(host);
    let mut colon = false;
    let mut i: usize = 0;
    while i < h.len()
        invariant
            i <= h@.len(),
            colon == h@.take(i as int).contains(':'),
        decreases h@.len() - i,
    {
        proof {
            let more = h@.take(i + 1);
            let less = h@.take(i as int);
            assert(more =~= less.push(h@[i as int]));
            if less.contains(':') {
                let j = choose|j: int| 0 <= j < less.len() && less[j] == ':';
                assert(more[j] == ':');
            }
            if h@[i as int] == ':' {
                assert(more[i as int] == ':');
            }
            if more.contains(':') && h@[i as int] != ':' {
                let j = choose|j: int| 0 <= j < more.len() && more[j] == ':';
                assert(less[j] == ':');
            }
        }
        if h[i] == ':' {
            colon = true;
        }
        i = i + 1;
    }
    proof {
        assert(h@.take(i as int) =~= h@);
    }
    let mut t: Vec<char> = Vec::new();
    if colon {
        t.push('[');
    }
    let ghost start = t@;
    let mut k: usize = 0;
    while k < h.len()
        invariant
            k <= h@.len(),
            t@ == start + h@.take(k as int),
        decreases h@.len() - k,
    {
        t.push(h[k]);
        k = k + 1;
        proof {
            assert(t@ =~= start + h@.take(k as int));
        }
    }
    proof {
        assert(h@.take(k as int) =~= h@);
    }
    if colon {
        t.push(']');
    }
    t.push(':');
    push_numeral(&mut t, port as u64, 10);
    proof {
        assert(t@ =~= authority_of(host@, port as nat));
    }
    string_of(&t)
}

/// One destination that a Network may reach.
#[derive(Clone, Debug)]
pub struct Endpoint {
    pub host: String,
    pub port: u16,
}

/// What a Network may reach: nothing but the listed destinations.
#[derive(Clone, Debug)]
pub struct Policy {
    pub network_id: String,
    pub allow: Vec<Endpoint>,
}

/// Why a policy is refused.
#[derive(Clone, Copy, Debug, PartialEq, Eq, Structural)]
pub enum PolicyError {
    /// The document is longer than [`MAX_POLICY_BYTES`].
    TooLarge,
    /// The document is no policy.
    Syntax,
    /// The identifier is empty, too long, or holds a NUL or a line break.
    NetworkId,
    /// More than [`MAX_DESTINATIONS`] destinations are listed.
    TooMany,
    /// A destination's host is refused.
    Host(HostError),
    /// A destination's port is zero.
    Port,
}

impl PolicyError {
    /// What is reported.
    pub open spec fn words(self) -> Seq<char> {
        match self {
            PolicyError::TooLarge => "policy exceeds 64 KiB"@,
            PolicyError::Syntax => "policy is not a valid document"@,
            PolicyError::NetworkId => "invalid network_id"@,
            PolicyError::TooMany => "at most 256 destinations allowed"@,
            PolicyError::Host(HostError::UnsupportedIp) => "unsupported destination IP"@,
            PolicyError::Host(HostError::InvalidHost) => "invalid destination host"@,
            PolicyError::Port => "destination port must be positive"@,
        }
    }

    /// What is reported.
    pub fn message(self) -> (r: &'static str)
        ensures
            r@ == self.words(),
    {
        match self {
            PolicyError::TooLarge => "policy exceeds 64 KiB",
            PolicyError::Syntax => "policy is not a valid document",
            PolicyError::NetworkId => "invalid network_id",
            PolicyError::TooMany => "at most 256 destinations allowed",
            PolicyError::Host(e) => e.message(),
            PolicyError::Port => "destination port must be positive",
        }
    }
}

/// The longest policy document.
pub const MAX_POLICY_BYTES: usize = 65536;

/// The longest network identifier, in bytes.
pub const MAX_NETWORK_ID_BYTES: usize = 128;

/// The most destinations of a policy.
pub const MAX_DESTINATIONS: usize = 256;

/// A network identifier: not empty, not too long, and on one line.
pub open spec fn is_network_id(id: Seq<char>) -> bool {
    &&& id.len() > 0
    &&& encode_utf8(id).len() <= MAX_NETWORK_ID_BYTES
    &&& !id.contains('\0')
    &&& !id.contains('\r')
    &&& !id.contains('\n')
}

/// What is wrong with one destination.
pub open spec fn endpoint_fault(e: Endpoint) -> Option<PolicyError> {
    match canonical(e.host@) {
        Err(fault) => Some(PolicyError::Host(fault)),
        Ok(_) => if e.port == 0 {
            Some(PolicyError::Port)
        } else {
            None
        },
    }
}

/// What is wrong with the first faulty destination from `i` on.
pub open spec fn endpoints_fault(allow: Seq<Endpoint>, i: int) -> Option<PolicyError>
    decreases allow.len() - i,
{
    if i >= allow.len() {
        None
    } else {
        match endpoint_fault(allow[i]) {
            Some(fault) => Some(fault),
            None => endpoints_fault(allow, i + 1),
        }
    }
}

impl Policy {
    /// What is wrong with the policy.
    pub open spec fn fault(self) -> Option<PolicyError> {
        if !is_network_id(self.network_id@) {
            Some(PolicyError::NetworkId)
        } else if self.allow@.len() > MAX_DESTINATIONS {
            Some(PolicyError::TooMany)
        } else {
            endpoints_fault(self.allow@, 0)
        }
    }

    /// Refuse a policy that names no Network or a destination that cannot be
    /// reached.
    pub fn validate(&self) -> (r: Result<(), PolicyError>)
        ensures
            r == match self.fault() {
                Some(fault) => Err::<(), PolicyError>(fault),
                None => Ok(()),
            },
    {
        let id = self.network_id.as_str();
        if id.is_empty() || id.as_bytes().len() > MAX_NETWORK_ID_BYTES {
            return Err(PolicyError::NetworkId);
        }
        let cs = chars_of(id);
        let mut i: usize = 0;
        while i < cs.len()
            invariant
                i <= cs@.len(),
                cs@ == self.network_id@,
                forall|j: int| 0 <= j < i ==> cs@[j] != '\0' && cs@[j] != '\r' && cs@[j] != '\n',
            decreases cs@.len() - i,
        {
            let c = cs[i];
            if c == '\0' || c == '\r' || c == '\n' {
                proof {
                    assert(cs@.contains(cs@[i as int]));
                }
                return Err(PolicyError::NetworkId);
            }
            i = i + 1;
        }
        proof {
            assert(is_network_id(self.network_id@));
        }
        if self.allow.len() > MAX_DESTINATIONS {
            return Err(PolicyError::TooMany);
        }
        let mut k: usize = 0;
        while k < self.allow.len()
            invariant
                k <= self.allow@.len() <= MAX_DESTINATIONS,
                is_network_id(self.network_id@),
                endpoints_fault(self.allow@, k as int) == endpoints_fault(self.allow@, 0),
            decreases self.allow@.len() - k,
        {
            let endpoint = &self.allow[k];
            if let Err(fault) = canonical_host(endpoint.host.as_str()) {
                return Err(PolicyError::Host(fault));
            }
            if endpoint.port == 0 {
                return Err(PolicyError::Port);
            }
            k = k + 1;
        }
        Ok(())
    }

    /// Take a policy document: no longer than [`MAX_POLICY_BYTES`], what
    /// `parse` accepts, and valid.
    pub fn read<F: FnOnce(&[u8]) -> Option<Policy>>(data: &[u8], parse: F) -> (r: Result<
        Policy,
        PolicyError,
    >)
        requires
            call_requires(parse, (data,)),
        ensures
            if data@.len() > MAX_POLICY_BYTES {
                r == Err::<Policy, PolicyError>(PolicyError::TooLarge)
            } else {
                exists|parsed: Option<Policy>| #[trigger]
                    call_ensures(parse, (data,), parsed) && r == match parsed {
                        None => Err(PolicyError::Syntax),
                        Some(policy) => match policy.fault() {
                            Some(fault) => Err(fault),
                            None => Ok(policy),
                        },
                    }
            },
            data@.len() > 64 * 1024 ==> r == Err::<Policy, PolicyError>(PolicyError::TooLarge),
            data@.len() <= 64 * 1024 && (forall|parsed: Option<Policy>| #[trigger]
                call_ensures(parse, (data,), parsed) ==> parsed is Some && parsed->0.fault()
                    is None) ==> r is Ok,
    {
        if data.len() > MAX_POLICY_BYTES {
            return Err(PolicyError::TooLarge);
        }
        match parse(data) {
            None => Err(PolicyError::Syntax),
            Some(policy) => match policy.validate() {
                Err(fault) => Err(fault),
                Ok(()) => Ok(policy),
            },
        }
    }
}

/// A valid policy lists only destinations that have a canonical host and a port.
pub proof fn law_valid_policy(policy: Policy, i: int)
    requires
        policy.fault() is None,
        0 <= i < policy.allow@.len(),
    ensures
        canonical(policy.allow@[i].host@) is Ok,
        policy.allow@[i].port > 0,
{
    lemma_no_fault(policy.allow@, 0, i);
}

pub proof fn lemma_no_fault(allow: Seq<Endpoint>, from: int, i: int)
    requires
        0 <= from <= i < allow.len(),
        endpoints_fault(allow, from) is None,
    ensures
        endpoint_fault(allow[i]) is None,
    decreases i - from,
{
    if from < i {
        lemma_no_fault(allow, from + 1, i);
    }
}

/// `t` is a literal of an address that is refused as a destination.
pub open spec fn is_refused_literal(t: Seq<char>) -> bool {
    address_of(t) matches Some(a) && (is_unspecified(a) || is_multicast(a))
}

/// A canonical host is not empty, has no upper-case letter and does not end with
/// a dot.
pub proof fn law_canonical_form(t: Seq<char>, host: Seq<char>)
    requires
        canonical(t) == Ok::<Seq<char>, HostError>(host),
    ensures
        host.len() > 0,
        forall|i: int| 0 <= i < host.len() ==> !('A' <= #[trigger] host[i] <= 'Z'),
        host.last() != '.',
{
    match address_of(t) {
        Some(a) => {
            lemma_address_of(t);
            lemma_text_end(a);
            assert forall|i: int| 0 <= i < host.len() implies !('A' <= #[trigger] host[i] <= 'Z') by {
                assert(host.contains(host[i]));
                if 'A' <= host[i] <= 'Z' {
                    lemma_text_chars(a, host[i]);
                }
            }
        },
        None => {
            let labels = parts(host, '.');
            lemma_parts(host, '.');
            assert forall|i: int| 0 <= i < host.len() implies !('A' <= #[trigger] host[i] <= 'Z') by {
                assert(host.contains(host[i]));
                if 'A' <= host[i] <= 'Z' {
                    lemma_label_chars(labels, host[i]);
                }
            }
            assert(is_label(labels[labels.len() - 1]));
            if host.last() == '.' {
                lemma_last_part(host, '.');
            }
        },
    }
}

/// A canonical host is its own canonical host, unless it is a literal of a
/// refused address (as of `0.0.0.0.`, a host name with a trailing dot).
pub proof fn law_canonical_idempotent(t: Seq<char>, host: Seq<char>)
    requires
        canonical(t) == Ok::<Seq<char>, HostError>(host),
        !is_refused_literal(host),
    ensures
        canonical(host) == Ok::<Seq<char>, HostError>(host),
{
    match address_of(t) {
        Some(a) => {
            lemma_address_of(t);
            law_text_parses(a);
        },
        None => {
            let labels = parts(host, '.');
            lemma_parts(host, '.');
            lemma_label_chars(labels, ':');
            lemma_no_colon(host);
            match octets_of(host) {
                Some(octets) => lemma_octets_text(host),
                None => {
                    law_canonical_form(t, host);
                    assert(lowered(host) =~= host);
                },
            }
        },
    }
}

proof fn lemma_label_chars(labels: Seq<Seq<char>>, c: char)
    requires
        forall|i: int| 0 <= i < labels.len() ==> is_label(#[trigger] labels[i]),
        !is_label_char(c),
        c != '.',
    ensures
        !joined(labels, '.').contains(c),
{
    assert forall|i: int| 0 <= i < labels.len() implies !(#[trigger] labels[i]).contains(c) by {
        let l = labels[i];
        assert(is_label(l));
        if l.contains(c) {
            let j = choose|j: int| 0 <= j < l.len() && l[j] == c;
            assert(is_label_char(l[j]));
        }
    }
    lemma_joined_without(labels, '.', c);
}

/// Different hosts and ports have different authorities.
pub proof fn law_authority_injective(h1: Seq<char>, p1: u16, h2: Seq<char>, p2: u16)
    requires
        authority_of(h1, p1 as nat) == authority_of(h2, p2 as nat),
    ensures
        h1 == h2,
        p1 == p2,
{
    let a1 = authority_of(h1, p1 as nat);
    let a2 = authority_of(h2, p2 as nat);
    let d1 = decimal(p1 as nat);
    let d2 = decimal(p2 as nat);
    lemma_numeral_without(p1 as nat, 10, ':');
    lemma_numeral_without(p2 as nat, 10, ':');
    // The last colon is the one before the port.
    let n1 = a1.len() - d1.len() - 1;
    let n2 = a2.len() - d2.len() - 1;
    assert(a1[n1] == ':' && a2[n2] == ':');
    if n1 < n2 {
        assert(d1[n2 - n1 - 1] == ':');
    } else if n2 < n1 {
        assert(d2[n1 - n2 - 1] == ':');
    }
    assert(d1 =~= a1.skip(n1 + 1));
    assert(d2 =~= a2.skip(n2 + 1));
    lemma_numeral_injective(p1 as nat, p2 as nat, 10);
    let t1 = a1.take(n1);
    let t2 = a2.take(n2);
    assert(t1 == if h1.contains(':') {
        seq!['['] + h1 + seq![']']
    } else {
        h1
    });
    assert(t2 == if h2.contains(':') {
        seq!['['] + h2 + seq![']']
    } else {
        h2
    });
    if h1.contains(':') {
        let i = choose|i: int| 0 <= i < h1.len() && h1[i] == ':';
        assert(t1[i + 1] == ':');
    }
    if h2.contains(':') {
        let i = choose|i: int| 0 <= i < h2.len() && h2[i] == ':';
        assert(t2[i + 1] == ':');
    }
    if h1.contains(':') {
        assert(h1 =~= t1.subrange(1, t1.len() - 1));
        assert(h2 =~= t2.subrange(1, t2.len() - 1));
    }
}

/// A letter or a digit.
pub open spec fn is_alphanumeric(c: char) -> bool {
    'a' <= c <= 'z' || 'A' <= c <= 'Z' || '0' <= c <= '9'
}

/// Text that a label may be written with, in either case: one to 63 letters,
/// digits and hyphens, with no hyphen at either end.
pub open spec fn is_written_label(l: Seq<char>) -> bool {
    &&& 1 <= l.len() <= 63
    &&& is_alphanumeric(l[0])
    &&& is_alphanumeric(l[l.len() - 1])
    &&& forall|i: int| 0 <= i < l.len() ==> is_alphanumeric(#[trigger] l[i]) || l[i] == '-'
}

/// `host` is `t` with its capital letters made small ones.
pub open spec fn is_in_small_letters(t: Seq<char>, host: Seq<char>) -> bool {
    &&& host.len() == t.len()
    &&& forall|i: int|
        0 <= i < t.len() ==> host[i] as int == (if 'A' <= #[trigger] t[i] <= 'Z' {
            t[i] as int + 32
        } else {
            t[i] as int
        })
}

proof fn lemma_lowered_joined(ps: Seq<Seq<char>>)
    ensures
        lowered(joined(ps, '.')) == joined(ps.map_values(|l: Seq<char>| lowered(l)), '.'),
    decreases ps.len(),
{
    let low = ps.map_values(|l: Seq<char>| lowered(l));
    if ps.len() == 0 {
        assert(lowered(joined(ps, '.')) =~= Seq::<char>::empty());
    } else if ps.len() > 1 {
        let rest = ps.drop_first();
        lemma_lowered_joined(rest);
        assert(low.drop_first() =~= rest.map_values(|l: Seq<char>| lowered(l)));
        assert(lowered(joined(ps, '.')) =~= lowered(ps[0]) + seq!['.'] + lowered(
            joined(rest, '.'),
        ));
    }
}

/// One or more labels, separated by single dots, are a host name as long as
/// there are at most 253 characters, whatever their number: it is taken in small
/// letters, and so it is with one more dot at its end. Only where the text is a
/// literal of an address, it is none.
pub proof fn law_labels_are_a_host(labels: Seq<Seq<char>>)
    requires
        labels.len() > 0,
        forall|i: int| 0 <= i < labels.len() ==> is_written_label(#[trigger] labels[i]),
        joined(labels, '.').len() <= 253,
    ensures
        address_of(joined(labels, '.')) is None ==> {
            &&& canonical(joined(labels, '.')) is Ok
            &&& is_in_small_letters(joined(labels, '.'), canonical(joined(labels, '.'))->Ok_0)
        },
        address_of(joined(labels, '.').push('.')) is None ==> {
            &&& canonical(joined(labels, '.').push('.')) is Ok
            &&& is_in_small_letters(
                joined(labels, '.'),
                canonical(joined(labels, '.').push('.'))->Ok_0,
            )
        },
{
    let t = joined(labels, '.');
    let low = labels.map_values(|l: Seq<char>| lowered(l));
    lemma_lowered_joined(labels);
    assert forall|i: int| 0 <= i < low.len() implies is_label(#[trigger] low[i])
        && !low[i].contains('.') by {
        let l = labels[i];
        assert(is_written_label(l));
        assert forall|j: int| 0 <= j < low[i].len() implies is_label_char(#[trigger] low[i][j]) by {
            assert(is_alphanumeric(l[j]) || l[j] == '-');
        }
        if low[i].contains('.') {
            let j = choose|j: int| 0 <= j < low[i].len() && low[i][j] == '.';
            assert(is_label_char(low[i][j]));
        }
    }
    lemma_joined(low, '.');
    let host = lowered(t);
    assert(is_label(low[0]));
    lemma_joined_bounds(low);
    assert(host.len() > 0);
    assert(is_host_name(host));
    lemma_labels_joined(low);
    assert(host.last() != '.');
    assert(t.last() != '.') by {
        assert(host[host.len() - 1] == lower(t[t.len() - 1]));
    }
    assert(undotted(t) == t);
    assert(undotted(t.push('.')) =~= t);
}

proof fn lemma_joined_bounds(ps: Seq<Seq<char>>)
    requires
        ps.len() > 0,
    ensures
        joined(ps, '.').len() >= ps[0].len(),
{
}

/// How labels stand in a host name.
pub open spec fn is_spelled_as_host(h: Seq<char>) -> bool {
    &&& 0 < h.len() <= 253
    &&& forall|i: int|
        0 <= i < h.len() ==> 'a' <= #[trigger] h[i] <= 'z' || '0' <= h[i] <= '9' || h[i] == '-'
            || h[i] == '.'
    &&& is_alphanumeric(h[0])
    &&& is_alphanumeric(h[h.len() - 1])
    // Next to a dot, there are letters and digits only.
    &&& forall|i: int|
        0 <= i < h.len() && #[trigger] h[i] == '.' ==> 0 < i < h.len() - 1 && is_alphanumeric(
            h[i - 1],
        ) && is_alphanumeric(h[i + 1])
    // A dot stands among any 64 characters in a row.
    &&& forall|i: int|
        #![trigger h.subrange(i, i + 64)]
        0 <= i && i + 64 <= h.len() ==> h.subrange(i, i + 64).contains('.')
}

/// Labels, separated by dots.
proof fn lemma_labels_joined(ps: Seq<Seq<char>>)
    requires
        ps.len() > 0,
        forall|i: int| 0 <= i < ps.len() ==> is_label(#[trigger] ps[i]),
    ensures
        ({
            let h = joined(ps, '.');
            h.len() <= 253 ==> is_spelled_as_host(h)
        }),
        joined(ps, '.').len() > 0,
        is_alphanumeric(joined(ps, '.').last()),
        is_alphanumeric(joined(ps, '.')[0]),
        forall|i: int|
            0 <= i < joined(ps, '.').len() ==> 'a' <= #[trigger] joined(ps, '.')[i] <= 'z' || '0'
                <= joined(ps, '.')[i] <= '9' || joined(ps, '.')[i] == '-' || joined(ps, '.')[i]
                == '.',
        forall|i: int|
            0 <= i < joined(ps, '.').len() && #[trigger] joined(ps, '.')[i] == '.' ==> 0 < i
                < joined(ps, '.').len() - 1 && is_alphanumeric(joined(ps, '.')[i - 1])
                && is_alphanumeric(joined(ps, '.')[i + 1]),
        forall|i: int|
            #![trigger joined(ps, '.').subrange(i, i + 64)]
            0 <= i && i + 64 <= joined(ps, '.').len() ==> joined(ps, '.').subrange(
                i,
                i + 64,
            ).contains('.'),
    decreases ps.len(),
{
    let h = joined(ps, '.');
    let l = ps[0];
    let n = l.len() as int;
    assert(is_label(l));
    assert(is_label_char(l[0]) && is_label_char(l[n - 1]));
    assert(forall|i: int| 0 <= i < n ==> is_label_char(#[trigger] l[i]));
    if ps.len() > 1 {
        let rest = ps.drop_first();
        assert forall|i: int| 0 <= i < rest.len() implies is_label(#[trigger] rest[i]) by {
            assert(is_label(ps[i + 1]));
        }
        lemma_labels_joined(rest);
        let r = joined(rest, '.');
        assert(h == l + seq!['.'] + r);
        assert(forall|i: int| 0 <= i < n ==> h[i] == l[i]);
        assert(h[n] == '.');
        assert(forall|i: int| 0 <= i < r.len() ==> h[n + 1 + i] == r[i]);
        assert forall|i: int| 0 <= i < h.len() implies 'a' <= #[trigger] h[i] <= 'z' || '0' <= h[i]
            <= '9' || h[i] == '-' || h[i] == '.' by {
            if i < n {
                assert(is_label_char(l[i]));
            } else if i > n {
                assert(h[i] == r[i - n - 1]);
            }
        }
        assert forall|i: int| 0 <= i < h.len() && #[trigger] h[i] == '.' implies 0 < i < h.len() - 1
            && is_alphanumeric(h[i - 1]) && is_alphanumeric(h[i + 1]) by {
            if i < n {
                assert(is_label_char(l[i]));
            } else if i == n {
                assert(h[i - 1] == l[n - 1] && h[i + 1] == r[0]);
            } else {
                let j = i - n - 1;
                assert(r[j] == '.');
                assert(h[i - 1] == r[j - 1] && h[i + 1] == r[j + 1]);
            }
        }
        assert forall|i: int|
            #![trigger h.subrange(i, i + 64)]
            0 <= i && i + 64 <= h.len() implies h.subrange(i, i + 64).contains('.') by {
            let run = h.subrange(i, i + 64);
            if i <= n {
                assert(run[n - i] == '.');
            } else {
                let j = i - n - 1;
                let inner = r.subrange(j, j + 64);
                assert(inner.contains('.'));
                let k = choose|k: int| 0 <= k < inner.len() && inner[k] == '.';
                assert(run[k] == '.');
            }
        }
    } else {
        assert(h == l);
        assert forall|i: int| 0 <= i < h.len() implies #[trigger] h[i] != '.' by {
            assert(is_label_char(l[i]));
        }
    }
}

/// What is taken for a host name is spelled as one, and is what was given in small
/// letters, but for a dot at its end.
pub proof fn law_host_is_spelled_as_one(t: Seq<char>, host: Seq<char>)
    requires
        canonical(t) == Ok::<Seq<char>, HostError>(host),
        address_of(t) is None,
    ensures
        is_spelled_as_host(host),
        is_in_small_letters(t, host) || (t.len() > 0 && t.last() == '.' && is_in_small_letters(
            t.drop_last(),
            host,
        )),
{
    lemma_parts(host, '.');
    lemma_labels_joined(parts(host, '.'));
}

/// A literal of an address is taken in its canonical form, unless the address is
/// nobody's or a group's.
pub proof fn law_address_literals(a: Address)
    requires
        is_address(a),
        unmapped(a) == a,
    ensures
        match a {
            Address::V4(o) => {
                let v = bits_v4(o);
                canonical(text_of(a)) == if v == 0 || 0xe000_0000 <= v <= 0xefff_ffff {
                    Err(HostError::UnsupportedIp)
                } else {
                    Ok::<Seq<char>, HostError>(text_of(a))
                }
            },
            Address::V6(gs) => {
                let v = bits_v6(gs);
                canonical(text_of(a)) == if v == 0 || v
                    >= 0xff00_0000_0000_0000_0000_0000_0000_0000 {
                    Err(HostError::UnsupportedIp)
                } else {
                    Ok::<Seq<char>, HostError>(text_of(a))
                }
            },
        },
{
    law_text_parses(a);
    match a {
        Address::V4(o) => {
            if bits_v4(o) == 0 {
                assert(o =~= seq![0u8, 0, 0, 0]);
            }
        },
        Address::V6(gs) => {
            if bits_v6(gs) == 0 {
                assert(gs =~= zeros(8));
            }
            if gs == zeros(8) {
                assert(bits_v6(gs) == 0);
            }
        },
    }
}

/// A policy is valid exactly when its identifier has 1 to 128 bytes on one line
/// without a NUL, and it lists at most 256 destinations, each with a host that
/// has a canonical form and a port.
pub proof fn law_policy_is_valid(policy: Policy)
    ensures
        policy.fault() is None <==> {
            &&& 1 <= encode_utf8(policy.network_id@).len() <= 128
            &&& forall|i: int|
                0 <= i < policy.network_id@.len() ==> #[trigger] policy.network_id@[i] != '\0'
                    && policy.network_id@[i] != '\n' && policy.network_id@[i] != '\r'
            &&& policy.allow@.len() <= 256
            &&& forall|i: int|
                0 <= i < policy.allow@.len() ==> canonical(
                    (#[trigger] policy.allow@[i]).host@,
                ) is Ok && policy.allow@[i].port >= 1
        },
{
    let id = policy.network_id@;
    let allow = policy.allow@;
    lemma_encoded_len(id);
    assert(!id.contains('\0') && !id.contains('\n') && !id.contains('\r') <==> forall|i: int|
        0 <= i < id.len() ==> #[trigger] id[i] != '\0' && id[i] != '\n' && id[i] != '\r') by {
        if !id.contains('\0') && !id.contains('\n') && !id.contains('\r') {
            assert forall|i: int| 0 <= i < id.len() implies #[trigger] id[i] != '\0' && id[i]
                != '\n' && id[i] != '\r' by {
                assert(id.contains(id[i]));
            }
        }
    }
    if policy.fault() is None {
        assert forall|i: int| 0 <= i < allow.len() implies canonical(
            (#[trigger] allow[i]).host@,
        ) is Ok && allow[i].port >= 1 by {
            lemma_no_fault(allow, 0, i);
        }
    }
    if forall|i: int|
        0 <= i < allow.len() ==> canonical((#[trigger] allow[i]).host@) is Ok && allow[i].port
            >= 1 {
        lemma_all_sound(allow, 0);
    }
}

proof fn lemma_all_sound(allow: Seq<Endpoint>, from: int)
    requires
        0 <= from <= allow.len(),
        forall|i: int|
            0 <= i < allow.len() ==> canonical((#[trigger] allow[i]).host@) is Ok && allow[i].port
                >= 1,
    ensures
        endpoints_fault(allow, from) is None,
    decreases allow.len() - from,
{
    if from < allow.len() {
        lemma_all_sound(allow, from + 1);
    }
}

/// Text of some length takes some bytes.
proof fn lemma_encoded_len(t: Seq<char>)
    ensures
        t.len() == 0 <==> encode_utf8(t).len() == 0,
{
    reveal_with_fuel(encode_utf8, 2);
}

/// A host and a port are read back from their one text: a colon parts them, and a
/// host that holds colons itself stands in brackets before it.
pub proof fn law_authority_is_read_back(host: Seq<char>, port: nat)
    ensures
        ({
            let t = authority_of(host, port);
            let n = host.len() as int;
            &&& !host.contains(':') ==> parts(t, ':') == seq![host, decimal(port)]
            &&& host.contains(':') ==> {
                &&& t[0] == '['
                &&& t.subrange(1, n + 1) == host
                &&& t[n + 1] == ']' && t[n + 2] == ':'
                &&& t.skip(n + 3) == decimal(port)
            }
        }),
{
    let t = authority_of(host, port);
    let n = host.len() as int;
    if host.contains(':') {
        assert(t.subrange(1, n + 1) =~= host);
        assert(t.skip(n + 3) =~= decimal(port));
    } else {
        let ps = seq![host, decimal(port)];
        lemma_numeral_without(port, 10, ':');
        assert(!ps[0].contains(':') && !ps[1].contains(':'));
        lemma_joined(ps, ':');
        assert(ps.drop_first() =~= seq![decimal(port)]);
        reveal_with_fuel(joined, 3);
        assert(joined(ps, ':') =~= t);
    }
}

/// The first thing that is wrong with a policy is reported: its identifier, then
/// the number of its destinations, then the first destination that cannot be
/// reached, by its host before its port.
pub proof fn law_first_fault_is_reported(policy: Policy, k: int)
    requires
        0 <= k < policy.allow@.len(),
        forall|i: int|
            0 <= i < k ==> canonical((#[trigger] policy.allow@[i]).host@) is Ok
                && policy.allow@[i].port >= 1,
        canonical(policy.allow@[k].host@) is Err || policy.allow@[k].port == 0,
    ensures
        ({
            let id = policy.network_id@;
            let sound = 1 <= encode_utf8(id).len() <= 128 && !id.contains('\0') && !id.contains(
                '\n',
            ) && !id.contains('\r');
            policy.fault() == Some(
                if !sound {
                    PolicyError::NetworkId
                } else if policy.allow@.len() > 256 {
                    PolicyError::TooMany
                } else {
                    match canonical(policy.allow@[k].host@) {
                        Err(fault) => PolicyError::Host(fault),
                        Ok(_) => PolicyError::Port,
                    }
                },
            )
        }),
{
    lemma_encoded_len(policy.network_id@);
    lemma_first_fault(policy.allow@, 0, k);
}

proof fn lemma_first_fault(allow: Seq<Endpoint>, from: int, k: int)
    requires
        0 <= from <= k < allow.len(),
        forall|i: int|
            0 <= i < k ==> canonical((#[trigger] allow[i]).host@) is Ok && allow[i].port >= 1,
        endpoint_fault(allow[k]) is Some,
    ensures
        endpoints_fault(allow, from) == endpoint_fault(allow[k]),
    decreases k - from,
{
    if from < k {
        assert(canonical(allow[from].host@) is Ok);
        lemma_first_fault(allow, from + 1, k);
    }
}

} // verus!
