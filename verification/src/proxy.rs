//! The proxy through which an execution reaches its destinations.
pub mod credential;
pub mod gate;
pub mod headers;

use vstd::prelude::*;
use crate::ip::{Address, Ip};
use crate::proxy::credential::{authorization_of, url_of, Credential};
use crate::proxy::gate::{verdict, Gate, Refusal, Request};
use crate::table::Table;

verus! {

/// An address and a port.
#[derive(Clone, Copy, Debug, PartialEq, Eq)]
pub struct SocketAddress {
    pub ip: Ip,
    pub port: u16,
}

impl View for SocketAddress {
    type V = (Address, u16);

    open spec fn view(&self) -> (Address, u16) {
        (self.ip@, self.port)
    }
}

/// What some addresses stand for.
pub open spec fn addresses_of(addresses: Seq<SocketAddress>) -> Seq<(Address, u16)> {
    Seq::new(addresses.len(), |i: int| addresses[i]@)
}

/// The destinations that are allowed, by authority, and the addresses that each
/// was pinned to.
pub struct Routes {
    table: Table<Vec<SocketAddress>>,
}

impl View for Routes {
    type V = Map<Seq<char>, Seq<(Address, u16)>>;

    closed spec fn view(&self) -> Map<Seq<char>, Seq<(Address, u16)>> {
        Map::new(
            |key: Seq<char>| self.table@.contains_key(key),
            |key: Seq<char>| addresses_of(self.table@[key]@),
        )
    }
}

impl Routes {
    /// No destination at all.
    pub fn new() -> (r: Routes)
        ensures
            r@ == Map::<Seq<char>, Seq<(Address, u16)>>::empty(),
    {
        let r = Routes { table: Table::new() };
        proof {
            assert(r@ =~= Map::<Seq<char>, Seq<(Address, u16)>>::empty());
        }
        r
    }

    /// The addresses that a destination was pinned to.
    pub fn get(&self, key: &str) -> (r: Option<&Vec<SocketAddress>>)
        ensures
            match r {
                Some(addresses) => self@.contains_key(key@) && self@[key@] == addresses_of(
                    addresses@,
                ),
                None => !self@.contains_key(key@),
            },
    {
        self.table.get(key)
    }

    /// Pin a destination to some addresses.
    pub fn insert(&mut self, key: String, addresses: Vec<SocketAddress>)
        ensures
            final(self)@ == old(self)@.insert(key@, addresses_of(addresses@)),
    {
        let ghost before = self@;
        let ghost name = key@;
        let ghost pinned = addresses_of(addresses@);
        self.table.insert(key, addresses);
        proof {
            assert(self@ =~= before.insert(name, pinned));
        }
    }
}

/// The proxy of one execution: where it listens, and what it lets pass while it
/// is open.
pub struct Proxy {
    port: u16,
    credential: Credential,
    gate: Gate,
    open: bool,
}

impl Proxy {
    /// The port that it listens on.
    pub closed spec fn listens_on(self) -> u16 {
        self.port
    }

    /// The execution's credential.
    pub closed spec fn secret(self) -> Seq<char> {
        self.credential@
    }

    /// What it lets pass.
    pub closed spec fn filter(self) -> Gate {
        self.gate
    }

    /// Whether it lets anything pass at all.
    pub closed spec fn is_open(self) -> bool {
        self.open
    }

    /// Let the holder of `credential` reach `routes` through `port`.
    pub fn start(routes: Routes, credential: Credential, port: u16) -> (r: Proxy)
        ensures
            r.listens_on() == port,
            r.secret() == credential@,
            r.filter().routed() == routes@,
            r.filter().expected() == authorization_of(credential@),
            r.is_open(),
    {
        let authorization = credential.authorization();
        Proxy { port, credential, gate: Gate::new(routes, authorization), open: true }
    }

    /// The port that it listens on.
    pub fn port(&self) -> (r: u16)
        ensures
            r == self.listens_on(),
    {
        self.port
    }

    /// The address of the proxy. It holds the execution's credential: never log
    /// this value.
    pub fn url(&self) -> (r: String)
        ensures
            r@ == url_of(self.secret(), self.listens_on() as nat),
    {
        self.credential.url(self.port)
    }

    /// Take a connection that came in, or the failure to accept one, which closes
    /// the proxy. Whether the connection is served.
    pub fn accept(&mut self, accepted: bool) -> (r: bool)
        ensures
            r == (old(self).is_open() && accepted),
            final(self).is_open() == (old(self).is_open() && accepted),
            final(self).listens_on() == old(self).listens_on(),
            final(self).secret() == old(self).secret(),
            final(self).filter() == old(self).filter(),
    {
        if !accepted {
            self.open = false;
        }
        self.open
    }

    /// Decide on a request: the addresses to try, or why it is refused. A closed
    /// proxy answers nothing.
    pub fn decide(&self, request: &Request) -> (r: Option<Result<&Vec<SocketAddress>, Refusal>>)
        ensures
            r is Some <==> self.is_open(),
            self.is_open() ==> match verdict(
                self.filter().routed(),
                self.filter().expected(),
                *request,
            ) {
                Ok(key) => r->Some_0 is Ok && addresses_of(r->Some_0->Ok_0@)
                    == self.filter().routed()[key],
                Err(refusal) => r->Some_0 is Err && r->Some_0->Err_0 == refusal,
            },
    {
        if self.open {
            Some(self.gate.decide(request))
        } else {
            None
        }
    }

    /// Let nothing pass any more.
    pub fn close(&mut self)
        ensures
            !final(self).is_open(),
            final(self).listens_on() == old(self).listens_on(),
            final(self).secret() == old(self).secret(),
            final(self).filter() == old(self).filter(),
    {
        self.open = false;
    }
}

} // verus!
