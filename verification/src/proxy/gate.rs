//! Which requests pass, and what refused ones are answered.
use vstd::prelude::*;
use vstd::utf8::encode_utf8;
use crate::ip::{address_of, bits_v4, bits_v6, in_special_v4, in_special_v6, is_address, is_public, law_public_v4, law_public_v6, public_ip, Address, Ip};
use crate::policy::{authority, authority_of, canonical, canonical_host, endpoint_fault, law_authority_injective, lemma_no_fault, Endpoint, HostError, Policy, PolicyError};
use crate::proxy::credential::same_secret;
use crate::proxy::{addresses_of, Routes, SocketAddress};
use crate::text::{chars_of, same_text, string_of};

verus! {

/// What a destination is listed under.
pub open spec fn key_of(e: Endpoint) -> Seq<char> {
    authority_of(canonical(e.host@)->Ok_0, e.port as nat)
}

/// What the first `n` destinations are listed under.
pub open spec fn keys_of(allow: Seq<Endpoint>, n: int) -> Set<Seq<char>> {
    Set::new(|key: Seq<char>| exists|i: int| 0 <= i < n && #[trigger] key_of(allow[i]) == key)
}

/// Addresses that a destination may be pinned to: the literal itself, or public
/// addresses that its name resolved to.
pub open spec fn may_pin(e: Endpoint, addresses: Seq<(Address, u16)>) -> bool {
    match address_of(canonical(e.host@)->Ok_0) {
        Some(a) => addresses == seq![(a, e.port)],
        None => all_public(addresses),
    }
}

/// The address that a destination's host is a literal of.
pub open spec fn literal_of(e: Endpoint) -> Option<Address> {
    address_of(canonical(e.host@)->Ok_0)
}

/// Routes with the literals from `from` up to `to` pinned to themselves.
pub open spec fn with_literals(
    routes: Map<Seq<char>, Seq<(Address, u16)>>,
    allow: Seq<Endpoint>,
    from: int,
    to: int,
) -> Map<Seq<char>, Seq<(Address, u16)>>
    decreases to - from,
{
    if to <= from {
        routes
    } else {
        let e = allow[to - 1];
        with_literals(routes, allow, from, to - 1).insert(
            key_of(e),
            seq![(literal_of(e)->Some_0, e.port)],
        )
    }
}

/// Public addresses, at least one.
pub open spec fn all_public(addresses: Seq<(Address, u16)>) -> bool {
    addresses.len() > 0 && forall|i: int|
        0 <= i < addresses.len() ==> is_public((#[trigger] addresses[i]).0)
}

/// A name that has to be resolved.
pub struct Lookup {
    pub host: String,
    pub port: u16,
}

/// A name resolved to nothing, or to an address that is not public.
#[derive(Clone, Copy, Debug, PartialEq, Eq, Structural)]
pub struct NotPublic;

/// What is reported of a name that did not resolve to public addresses.
pub fn not_public_message(host: &str) -> (r: String)
    ensures
        r@ == "host "@ + host@
            + " resolves to non-public address; authorize a literal IP explicitly"@,
{
    let mut r = String::from_str("host ");
    r.append(host);
    r.append(" resolves to non-public address; authorize a literal IP explicitly");
    r
}

/// The destinations of a policy, pinned one after another. Names are resolved
/// before the execution starts, and never again.
pub struct RoutePlan {
    allow: Vec<Endpoint>,
    next: usize,
    routes: Routes,
}

impl RoutePlan {
    #[verifier::type_invariant]
    spec fn in_step(self) -> bool {
        &&& self.next <= self.allow@.len()
        &&& forall|i: int|
            0 <= i < self.allow@.len() ==> endpoint_fault(#[trigger] self.allow@[i]) is None
        &&& self.routes@.dom() == keys_of(self.allow@, self.next as int)
        &&& forall|i: int|
            0 <= i < self.next ==> may_pin(
                #[trigger] self.allow@[i],
                self.routes@[key_of(self.allow@[i])],
            )
    }

    /// The destinations.
    pub closed spec fn endpoints(self) -> Seq<Endpoint> {
        self.allow@
    }

    /// How many of them are pinned.
    pub closed spec fn pinned(self) -> int {
        self.next as int
    }

    /// The destinations that are pinned.
    pub closed spec fn routed(self) -> Map<Seq<char>, Seq<(Address, u16)>> {
        self.routes@
    }

    /// The next destination is a name that has to be resolved.
    pub open spec fn is_waiting(self) -> bool {
        0 <= self.pinned() < self.endpoints().len() && address_of(
            canonical(self.endpoints()[self.pinned()].host@)->Ok_0,
        ) is None
    }

    /// Start with a valid policy.
    pub fn new(policy: &Policy) -> (r: Result<RoutePlan, PolicyError>)
        ensures
            match policy.fault() {
                Some(fault) => r matches Err(e) && e == fault,
                None => r matches Ok(plan) && plan.pinned() == 0 && plan.endpoints().len()
                    == policy.allow@.len() && plan.routed() == Map::<
                    Seq<char>,
                    Seq<(Address, u16)>,
                >::empty() && forall|i: int|
                    0 <= i < policy.allow@.len() ==> (#[trigger] plan.endpoints()[i]).host@
                        == policy.allow@[i].host@ && plan.endpoints()[i].port
                        == policy.allow@[i].port,
            },
    {
        if let Err(fault) = policy.validate() {
            return Err(fault);
        }
        let mut allow: Vec<Endpoint> = Vec::new();
        let mut i: usize = 0;
        while i < policy.allow.len()
            invariant
                i <= policy.allow@.len(),
                policy.fault() is None,
                allow@.len() == i,
                forall|j: int|
                    0 <= j < i ==> (#[trigger] allow@[j]).host@ == policy.allow@[j].host@
                        && allow@[j].port == policy.allow@[j].port,
                forall|j: int| 0 <= j < i ==> endpoint_fault(#[trigger] allow@[j]) is None,
            decreases policy.allow@.len() - i,
        {
            let e = &policy.allow[i];
            proof {
                lemma_no_fault(policy.allow@, 0, i as int);
            }
            allow.push(Endpoint { host: e.host.clone(), port: e.port });
            i = i + 1;
        }
        let routes = Routes::new();
        proof {
            assert(routes@.dom() =~= keys_of(allow@, 0));
        }
        Ok(RoutePlan { allow, next: 0, routes })
    }

    /// Pin the literals up to the next name, and tell that name.
    pub fn pending(&mut self) -> (r: Option<Lookup>)
        ensures
            final(self).endpoints() == old(self).endpoints(),
            final(self).pinned() >= old(self).pinned(),
            forall|i: int|
                old(self).pinned() <= i < final(self).pinned() ==> literal_of(
                    #[trigger] old(self).endpoints()[i],
                ) is Some,
            final(self).routed() == with_literals(
                old(self).routed(),
                old(self).endpoints(),
                old(self).pinned(),
                final(self).pinned(),
            ),
            match r {
                Some(lookup) => {
                    &&& final(self).is_waiting()
                    &&& canonical(final(self).endpoints()[final(self).pinned()].host@) == Ok::<
                        Seq<char>,
                        HostError,
                    >(lookup.host@)
                    &&& lookup.port == final(self).endpoints()[final(self).pinned()].port
                },
                None => final(self).pinned() == final(self).endpoints().len(),
            },
    {
        let ghost allow = self.allow@;
        loop
            invariant
                self.allow@ == allow,
                allow == old(self).endpoints(),
                self.pinned() >= old(self).pinned(),
                forall|i: int|
                    old(self).pinned() <= i < self.pinned() ==> literal_of(
                        #[trigger] allow[i],
                    ) is Some,
                self.routed() == with_literals(
                    old(self).routed(),
                    allow,
                    old(self).pinned(),
                    self.pinned(),
                ),
            decreases allow.len() - self.next,
        {
            proof {
                use_type_invariant(&*self);
            }
            if self.next >= self.allow.len() {
                return None;
            }
            let at = self.next;
            let port = self.allow[at].port;
            proof {
                assert(endpoint_fault(self.allow@[at as int]) is None);
            }
            let host = match canonical_host(self.allow[at].host.as_str()) {
                Ok(host) => host,
                Err(_) => {
                    proof {
                        assert(false);
                    }
                    return None;
                },
            };
            let cs = chars_of(host.as_str());
            match Ip::parse(&cs) {
                None => {
                    return Some(Lookup { host, port });
                },
                Some(ip) => {
                    let mut addresses: Vec<SocketAddress> = Vec::new();
                    addresses.push(SocketAddress { ip, port });
                    proof {
                        assert(addresses_of(addresses@) =~= seq![(ip@, port)]);
                    }
                    self.pin(authority(host.as_str(), port), addresses);
                },
            }
        }
    }

    /// No destination at all.
    fn empty() -> (r: RoutePlan)
        ensures
            r.endpoints() == Seq::<Endpoint>::empty(),
            r.pinned() == 0,
            r.routed() == Map::<Seq<char>, Seq<(Address, u16)>>::empty(),
    {
        let allow: Vec<Endpoint> = Vec::new();
        let routes = Routes::new();
        proof {
            assert(routes@.dom() =~= keys_of(allow@, 0));
        }
        RoutePlan { allow, next: 0, routes }
    }

    /// Pin the next destination.
    fn pin(&mut self, key: String, addresses: Vec<SocketAddress>)
        requires
            old(self).pinned() < old(self).endpoints().len(),
            key@ == key_of(old(self).endpoints()[old(self).pinned()]),
            may_pin(old(self).endpoints()[old(self).pinned()], addresses_of(addresses@)),
        ensures
            final(self).endpoints() == old(self).endpoints(),
            final(self).pinned() == old(self).pinned() + 1,
            final(self).routed() == old(self).routed().insert(key@, addresses_of(addresses@)),
    {
        proof {
            use_type_invariant(&*self);
        }
        let ghost allow = self.allow@;
        let ghost at = self.next as int;
        let ghost before = self.routes@;
        let ghost name = key@;
        let ghost pinned = addresses_of(addresses@);
        let next = self.next;
        let total = self.allow.len();
        let mut plan = RoutePlan::empty();
        std::mem::swap(&mut plan, self);
        let RoutePlan { allow: endpoints, next: _, routes: mut routes } = plan;
        routes.insert(key, addresses);
        proof {
            assert forall|k: Seq<char>| #[trigger] keys_of(allow, at + 1).contains(k) <==> keys_of(
                allow,
                at,
            ).insert(name).contains(k) by {
                if keys_of(allow, at + 1).contains(k) {
                    let i = choose|i: int| 0 <= i < at + 1 && #[trigger] key_of(allow[i]) == k;
                    if i < at {
                        assert(keys_of(allow, at).contains(k));
                    }
                }
                if keys_of(allow, at).contains(k) {
                    let i = choose|i: int| 0 <= i < at && #[trigger] key_of(allow[i]) == k;
                    assert(key_of(allow[i]) == k);
                }
                if k == name {
                    assert(key_of(allow[at]) == k);
                }
            }
            assert(routes@.dom() =~= keys_of(allow, at + 1));
            assert forall|i: int| 0 <= i < at + 1 implies may_pin(
                #[trigger] allow[i],
                routes@[key_of(allow[i])],
            ) by {
                if i < at && key_of(allow[i]) == name {
                    assert(endpoint_fault(allow[i]) is None);
                    assert(endpoint_fault(allow[at]) is None);
                    law_authority_injective(
                        canonical(allow[i].host@)->Ok_0,
                        allow[i].port,
                        canonical(allow[at].host@)->Ok_0,
                        allow[at].port,
                    );
                }
            }
        }
        *self = RoutePlan { allow: endpoints, next: next + 1, routes };
    }
    /// Pin the name that was pending to what it resolved to. A name that
    /// resolves to nothing, or to an address that is not public, is refused.
    pub fn resolved(&mut self, addresses: Vec<SocketAddress>) -> (r: Result<(), NotPublic>)
        requires
            old(self).is_waiting(),
        ensures
            final(self).endpoints() == old(self).endpoints(),
            if all_public(addresses_of(addresses@)) {
                &&& r is Ok
                &&& final(self).pinned() == old(self).pinned() + 1
                &&& final(self).routed() == old(self).routed().insert(
                    key_of(old(self).endpoints()[old(self).pinned()]),
                    addresses_of(addresses@),
                )
            } else {
                &&& r is Err
                &&& final(self).pinned() == old(self).pinned()
                &&& final(self).routed() == old(self).routed()
            },
    {
        proof {
            use_type_invariant(&*self);
        }
        let ghost given = addresses_of(addresses@);
        if addresses.len() == 0 {
            return Err(NotPublic);
        }
        let mut i: usize = 0;
        while i < addresses.len()
            invariant
                i <= addresses@.len(),
                given == addresses_of(addresses@),
                forall|j: int| 0 <= j < i ==> is_public((#[trigger] given[j]).0),
                self.allow@ == old(self).endpoints(),
                self.next == old(self).pinned(),
                self.routes@ == old(self).routed(),
            decreases addresses@.len() - i,
        {
            if !public_ip(addresses[i].ip) {
                proof {
                    assert(!is_public(given[i as int].0));
                }
                return Err(NotPublic);
            }
            i = i + 1;
        }
        let at = self.next;
        let port = self.allow[at].port;
        proof {
            use_type_invariant(&*self);
            assert(endpoint_fault(self.allow@[at as int]) is None);
        }
        match canonical_host(self.allow[at].host.as_str()) {
            Ok(host) => self.pin(authority(host.as_str(), port), addresses),
            Err(_) => {
                proof {
                    assert(false);
                }
            },
        }
        Ok(())
    }

    /// The routes of a policy whose destinations are all pinned: exactly the
    /// listed ones.
    pub fn finish(self) -> (r: Routes)
        requires
            self.pinned() == self.endpoints().len(),
        ensures
            r@ == self.routed(),
            r@.dom() == keys_of(self.endpoints(), self.endpoints().len() as int),
            forall|i: int|
                0 <= i < self.endpoints().len() ==> may_pin(
                    #[trigger] self.endpoints()[i],
                    r@[key_of(self.endpoints()[i])],
                ),
    {
        proof {
            use_type_invariant(&self);
        }
        self.routes
    }
}

/// A request, as far as the proxy decides on it.
pub struct Request {
    /// The method is `CONNECT`.
    pub connect: bool,
    /// The value of the `Proxy-Authorization` header, empty without one.
    pub authorization: Vec<u8>,
    /// The scheme of an absolute URL.
    pub scheme: Option<String>,
    /// The host and the port that the request line names.
    pub destination: Option<Destination>,
}

/// A host, and a port where one is given.
pub struct Destination {
    pub host: String,
    pub port: Option<u16>,
}

/// Why a request does not pass.
#[derive(Clone, Copy, Debug, PartialEq, Eq, Structural)]
pub enum Refusal {
    /// The execution's credential is missing or wrong.
    Credential,
    /// The request line names no destination.
    AbsoluteUrl,
    /// A request that is not `CONNECT` has to be plain HTTP.
    HttpUrl,
    /// The destination's host is not one.
    Host,
    /// `CONNECT` without a port.
    ConnectPort,
    /// The policy does not list the destination.
    Denied,
    /// No address of the destination accepts a connection.
    Unavailable,
}

impl Refusal {
    /// The status that the client is answered.
    pub open spec fn code(self) -> u16 {
        match self {
            Refusal::Credential => 407,
            Refusal::AbsoluteUrl | Refusal::HttpUrl | Refusal::ConnectPort => 400,
            Refusal::Denied => 403,
            Refusal::Host | Refusal::Unavailable => 502,
        }
    }

    /// The status that the client is answered.
    pub fn status(self) -> (r: u16)
        ensures
            r == self.code(),
    {
        match self {
            Refusal::Credential => 407,
            Refusal::AbsoluteUrl => 400,
            Refusal::HttpUrl => 400,
            Refusal::ConnectPort => 400,
            Refusal::Denied => 403,
            Refusal::Host => 502,
            Refusal::Unavailable => 502,
        }
    }

    /// The text that the client is answered.
    pub fn message(self) -> (r: &'static str)
        ensures
            r@ == match self {
                Refusal::Credential => "execution proxy credential required"@,
                Refusal::AbsoluteUrl => "absolute URL required"@,
                Refusal::HttpUrl => "HTTP URL required"@,
                Refusal::ConnectPort => "CONNECT port required"@,
                Refusal::Denied => "destination denied by Network policy"@,
                Refusal::Host | Refusal::Unavailable => "upstream unavailable"@,
            },
    {
        match self {
            Refusal::Credential => "execution proxy credential required",
            Refusal::AbsoluteUrl => "absolute URL required",
            Refusal::HttpUrl => "HTTP URL required",
            Refusal::ConnectPort => "CONNECT port required",
            Refusal::Denied => "destination denied by Network policy",
            Refusal::Host => "upstream unavailable",
            Refusal::Unavailable => "upstream unavailable",
        }
    }

    /// The value of the `Proxy-Authenticate` header of the answer, if it has
    /// one.
    pub fn challenge(self) -> (r: Option<&'static str>)
        ensures
            match r {
                Some(t) => self == Refusal::Credential && t@ == "Basic realm=\"world\""@,
                None => self != Refusal::Credential,
            },
    {
        match self {
            Refusal::Credential => Some("Basic realm=\"world\""),
            _ => None,
        }
    }
}

/// The port of a request without one that is not `CONNECT`.
pub const HTTP_PORT: u16 = 80;

/// `t` without the brackets at its start.
pub open spec fn unbracketed_start(t: Seq<char>) -> Seq<char>
    decreases t.len(),
{
    if t.len() > 0 && (t[0] == '[' || t[0] == ']') {
        unbracketed_start(t.skip(1))
    } else {
        t
    }
}

/// `t` without the brackets at its end.
pub open spec fn unbracketed_end(t: Seq<char>) -> Seq<char>
    decreases t.len(),
{
    if t.len() > 0 && (t.last() == '[' || t.last() == ']') {
        unbracketed_end(t.drop_last())
    } else {
        t
    }
}

/// `t` without the brackets around it.
pub open spec fn unbracketed(t: Seq<char>) -> Seq<char> {
    unbracketed_end(unbracketed_start(t))
}

/// What is decided on a request: what its destination is listed under, or why
/// it is refused.
pub open spec fn verdict(
    routes: Map<Seq<char>, Seq<(Address, u16)>>,
    authorization: Seq<char>,
    request: Request,
) -> Result<Seq<char>, Refusal> {
    if request.authorization@ != encode_utf8(authorization) {
        Err(Refusal::Credential)
    } else {
        match request.destination {
            None => Err(Refusal::AbsoluteUrl),
            Some(destination) => if !request.connect && !(request.scheme matches Some(s) && s@
                == "http"@) {
                Err(Refusal::HttpUrl)
            } else {
                match canonical(unbracketed(destination.host@)) {
                    Err(_) => Err(Refusal::Host),
                    Ok(host) => if destination.port is None && request.connect {
                        Err(Refusal::ConnectPort)
                    } else {
                        let port = match destination.port {
                            Some(port) => port,
                            None => HTTP_PORT,
                        };
                        let key = authority_of(host, port as nat);
                        if routes.contains_key(key) {
                            Ok(key)
                        } else {
                            Err(Refusal::Denied)
                        }
                    },
                }
            },
        }
    }
}

/// `t` without the brackets around it.
fn trim_brackets(t: &[char]) -> (r: &[char])
    ensures
        r@ == unbracketed(t@),
{
    let mut start: usize = 0;
    proof {
        assert(t@.skip(0) =~= t@);
    }
    while start < t.len() && (t[start] == '[' || t[start] == ']')
        invariant
            start <= t@.len(),
            unbracketed_start(t@.skip(start as int)) == unbracketed_start(t@),
        decreases t@.len() - start,
    {
        proof {
            assert(t@.skip(start as int).skip(1) =~= t@.skip(start + 1));
        }
        start = start + 1;
    }
    let ghost left = t@.skip(start as int);
    proof {
        assert(unbracketed_start(left) == left);
        assert(t@.subrange(start as int, t@.len() as int) =~= left);
    }
    let mut end: usize = t.len();
    while end > start && (t[end - 1] == '[' || t[end - 1] == ']')
        invariant
            start <= end <= t@.len(),
            unbracketed_end(t@.subrange(start as int, end as int)) == unbracketed_end(left),
        decreases end - start,
    {
        proof {
            assert(t@.subrange(start as int, end as int).drop_last() =~= t@.subrange(
                start as int,
                end - 1,
            ));
        }
        end = end - 1;
    }
    proof {
        let rest = t@.subrange(start as int, end as int);
        assert(unbracketed_end(rest) == rest);
    }
    &t[start..end]
}

/// What one execution's proxy lets pass.
pub struct Gate {
    routes: Routes,
    authorization: String,
}

impl Gate {
    /// The destinations that pass.
    pub closed spec fn routed(self) -> Map<Seq<char>, Seq<(Address, u16)>> {
        self.routes@
    }

    /// The authorization that passes.
    pub closed spec fn expected(self) -> Seq<char> {
        self.authorization@
    }

    /// Let the holder of `authorization` reach `routes`.
    pub fn new(routes: Routes, authorization: String) -> (r: Gate)
        ensures
            r.routed() == routes@,
            r.expected() == authorization@,
    {
        Gate { routes, authorization }
    }

    /// Decide on a request: the addresses to try, or why it is refused.
    pub fn decide(&self, request: &Request) -> (r: Result<&Vec<SocketAddress>, Refusal>)
        ensures
            match verdict(self.routed(), self.expected(), *request) {
                Ok(key) => r matches Ok(addresses) && addresses_of(addresses@)
                    == self.routed()[key],
                Err(refusal) => r matches Err(e) && e == refusal,
            },
    {
        if !same_secret(&request.authorization, self.authorization.as_str().as_bytes()) {
            return Err(Refusal::Credential);
        }
        let destination = match &request.destination {
            Some(destination) => destination,
            None => {
                return Err(Refusal::AbsoluteUrl);
            },
        };
        if !request.connect {
            let http = match &request.scheme {
                Some(scheme) => same_text(scheme.as_str(), "http"),
                None => false,
            };
            if !http {
                return Err(Refusal::HttpUrl);
            }
        }
        let cs = chars_of(destination.host.as_str());
        let bare = string_of(trim_brackets(&cs));
        let host = match canonical_host(bare.as_str()) {
            Ok(host) => host,
            Err(_) => {
                return Err(Refusal::Host);
            },
        };
        let port = match destination.port {
            Some(port) => port,
            None => if request.connect {
                return Err(Refusal::ConnectPort);
            } else {
                HTTP_PORT
            },
        };
        let key = authority(host.as_str(), port);
        match self.routes.get(key.as_str()) {
            Some(addresses) => Ok(addresses),
            None => Err(Refusal::Denied),
        }
    }
}

/// The address to try after `failed` of them did not accept a connection.
pub fn dial(addresses: &[SocketAddress], failed: usize) -> (r: Result<SocketAddress, Refusal>)
    ensures
        match r {
            Ok(address) => failed < addresses@.len() && address == addresses@[failed as int],
            Err(e) => failed >= addresses@.len() && e == Refusal::Unavailable,
        },
{
    if failed < addresses.len() {
        Ok(addresses[failed])
    } else {
        Err(Refusal::Unavailable)
    }
}

/// Without the credential nothing passes, whatever else the request says.
pub proof fn law_credential_first(
    routes: Map<Seq<char>, Seq<(Address, u16)>>,
    authorization: Seq<char>,
    request: Request,
)
    requires
        request.authorization@ != encode_utf8(authorization),
    ensures
        verdict(routes, authorization, request) == Err::<Seq<char>, Refusal>(Refusal::Credential),
{
}

/// A request passes exactly when the policy lists its host and port: `i` is
/// where.
pub proof fn law_passes_only_listed(
    routes: Map<Seq<char>, Seq<(Address, u16)>>,
    allow: Seq<Endpoint>,
    authorization: Seq<char>,
    request: Request,
) -> (i: int)
    requires
        routes.dom() == keys_of(allow, allow.len() as int),
        forall|i: int| 0 <= i < allow.len() ==> endpoint_fault(#[trigger] allow[i]) is None,
        verdict(routes, authorization, request) is Ok,
    ensures
        0 <= i < allow.len(),
        request.destination is Some,
        canonical(allow[i].host@) == canonical(unbracketed(request.destination->0.host@)),
        allow[i].port == match request.destination->0.port {
            Some(port) => port,
            None => HTTP_PORT,
        },
{
    let key = verdict(routes, authorization, request)->Ok_0;
    assert(keys_of(allow, allow.len() as int).contains(key));
    let i = choose|i: int| 0 <= i < allow.len() && #[trigger] key_of(allow[i]) == key;
    let destination = request.destination->0;
    let bare = unbracketed(destination.host@);
    let port = match destination.port {
        Some(port) => port,
        None => HTTP_PORT,
    };
    assert(endpoint_fault(allow[i]) is None);
    law_authority_injective(
        canonical(allow[i].host@)->Ok_0,
        allow[i].port,
        canonical(bare)->Ok_0,
        port,
    );
    i
}

/// A request with the credential for a listed destination passes.
pub proof fn law_listed_passes(
    routes: Map<Seq<char>, Seq<(Address, u16)>>,
    allow: Seq<Endpoint>,
    authorization: Seq<char>,
    request: Request,
    i: int,
)
    requires
        routes.dom() == keys_of(allow, allow.len() as int),
        0 <= i < allow.len(),
        request.authorization@ == encode_utf8(authorization),
        request.connect || (request.scheme matches Some(s) && s@ == "http"@),
        request.destination matches Some(d) && canonical(unbracketed(d.host@)) is Ok && canonical(
            unbracketed(d.host@),
        ) == canonical(allow[i].host@) && (d.port == Some(allow[i].port) || (d.port is None
            && !request.connect && allow[i].port == HTTP_PORT)),
    ensures
        verdict(routes, authorization, request) == Ok::<Seq<char>, Refusal>(key_of(allow[i])),
{
    assert(key_of(allow[i]) == key_of(allow[i]));
    assert(keys_of(allow, allow.len() as int).contains(key_of(allow[i])));
}

/// The address is nobody's, a group's, an example's, or reached only from near
/// by.
pub open spec fn in_special(a: Address) -> bool {
    match a {
        Address::V4(o) => in_special_v4(bits_v4(o)),
        Address::V6(gs) => in_special_v6(bits_v6(gs)),
    }
}

/// A name may be pinned to some addresses, one at least, as long as none of them
/// is special; a literal is pinned to its own address and port, whatever they
/// are.
pub proof fn law_names_are_pinned_to_public_addresses(
    e: Endpoint,
    addresses: Seq<(Address, u16)>,
)
    requires
        forall|i: int| 0 <= i < addresses.len() ==> is_address((#[trigger] addresses[i]).0),
    ensures
        address_of(canonical(e.host@)->Ok_0) is None ==> (may_pin(e, addresses)
            <==> addresses.len() >= 1 && forall|i: int|
            0 <= i < addresses.len() ==> !in_special((#[trigger] addresses[i]).0)),
        address_of(canonical(e.host@)->Ok_0) matches Some(a) ==> (may_pin(e, addresses)
            <==> addresses.len() == 1 && addresses[0] == (a, e.port)),
{
    assert forall|i: int| 0 <= i < addresses.len() implies is_public((#[trigger] addresses[i]).0)
        == !in_special(addresses[i].0) by {
        match addresses[i].0 {
            Address::V4(o) => law_public_v4(o),
            Address::V6(gs) => law_public_v6(gs),
        }
    }
    if let Some(a) = address_of(canonical(e.host@)->Ok_0) {
        if addresses.len() == 1 && addresses[0] == (a, e.port) {
            assert(addresses =~= seq![(a, e.port)]);
        }
    }
}

/// Brackets around a host are no part of it: with them or without, a request has
/// the same destination.
pub proof fn law_brackets_are_no_part(host: Seq<char>)
    requires
        host.len() > 0,
        host[0] != '[' && host[0] != ']',
        host.last() != '[' && host.last() != ']',
    ensures
        unbracketed(host) == host,
        unbracketed(seq!['['] + host + seq![']']) == host,
{
    let t = seq!['['] + host + seq![']'];
    assert(t.skip(1) =~= host + seq![']']);
    let rest = host + seq![']'];
    assert(rest[0] == host[0]);
    assert(unbracketed_start(rest) == rest);
    assert(rest.drop_last() =~= host);
    reveal_with_fuel(unbracketed_start, 2);
    reveal_with_fuel(unbracketed_end, 2);
}

/// What a refused request is answered: 407 without the credential, 400 where the
/// request is not one for a proxy, 502 where its host is none, and 403 where it
/// is not listed.
pub proof fn law_refusals_are_answered(
    routes: Map<Seq<char>, Seq<(Address, u16)>>,
    authorization: Seq<char>,
    request: Request,
)
    ensures
        ({
            let v = verdict(routes, authorization, request);
            let known = request.authorization@ == encode_utf8(authorization);
            let plain = request.scheme matches Some(s) && s@ == "http"@;
            &&& !known <==> v is Err && v->Err_0.code() == 407
            &&& known && (request.destination is None || (!request.connect && !plain)) ==> v is Err
                && v->Err_0.code() == 400
            &&& known && (request.connect || plain) ==> match request.destination {
                None => true,
                Some(d) => match canonical(unbracketed(d.host@)) {
                    Err(_) => v is Err && v->Err_0.code() == 502,
                    Ok(host) => if d.port is None && request.connect {
                        v is Err && v->Err_0.code() == 400
                    } else {
                        let port: nat = if d.port is Some {
                            d.port->0 as nat
                        } else {
                            80
                        };
                        if routes.contains_key(authority_of(host, port)) {
                            v == Ok::<Seq<char>, Refusal>(authority_of(host, port))
                        } else {
                            v is Err && v->Err_0.code() == 403
                        }
                    },
                },
            }
        }),
{
}

/// Pinning literals gives every one of them its own address and port, and leaves
/// every other route as it is.
pub proof fn law_literals_are_pinned(
    routes: Map<Seq<char>, Seq<(Address, u16)>>,
    allow: Seq<Endpoint>,
    from: int,
    to: int,
    key: Seq<char>,
)
    requires
        0 <= from <= to <= allow.len(),
    ensures
        ({
            let after = with_literals(routes, allow, from, to);
            &&& forall|i: int|
                from <= i < to ==> after.contains_key(#[trigger] key_of(allow[i])) && after[key_of(
                    allow[i],
                )] == seq![(address_of(canonical(allow[i].host@)->Ok_0)->Some_0, allow[i].port)]
            &&& (forall|i: int| from <= i < to ==> #[trigger] key_of(allow[i]) != key) ==> (
            after.contains_key(key) <==> routes.contains_key(key)) && (routes.contains_key(key)
                ==> after[key] == routes[key])
        }),
    decreases to - from,
{
    if from < to {
        law_literals_are_pinned(routes, allow, from, to - 1, key);
        let e = allow[to - 1];
        let before = with_literals(routes, allow, from, to - 1);
        let after = with_literals(routes, allow, from, to);
        assert forall|i: int| from <= i < to implies after.contains_key(#[trigger] key_of(allow[i]))
            && after[key_of(allow[i])] == seq![
            (address_of(canonical(allow[i].host@)->Ok_0)->Some_0, allow[i].port),
        ] by {
            if key_of(allow[i]) == key_of(e) {
                law_authority_injective(
                    canonical(allow[i].host@)->Ok_0,
                    allow[i].port,
                    canonical(e.host@)->Ok_0,
                    e.port,
                );
            } else {
                assert(before.contains_key(key_of(allow[i])));
            }
        }
        assert(key_of(allow[to - 1]) == key_of(e));
    }
}

} // verus!
