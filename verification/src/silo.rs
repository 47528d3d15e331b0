//! Worlds: named workspaces, each with an address of its own on the loopback
//! network.
pub mod exec;
pub mod lifecycle;

use vstd::prelude::*;
use crate::bytes::{components, copied};
use crate::linux::holder::Holder;
use crate::path::{are_entry_names, join, joined, law_joined_parts, law_names_are_parts, law_relative_names_are_parts, law_within_by_names, parts, same};
use crate::run::{path_of, workdir_fault, workdir, WorkdirError};
use crate::table::Table;
use crate::text::{chars_of, same_text};
use crate::tmp_path::host::{lemma_components_single, lemma_components_split, lemma_slashed_starts, rendered, slashed};

verus! {

/// Longest identifier of a World, in bytes.
pub const MAX_ID_BYTES: usize = 128;

/// How many addresses there are for Worlds.
pub const POOL: u32 = 65534;

/// A workspace with an address of its own.
pub struct World {
    pub id: String,
    pub ip: [u8; 4],
    pub workdir: Vec<u8>,
}

/// What a World holds.
#[verifier::ext_equal]
pub struct WorldView {
    pub id: Seq<char>,
    pub ip: Seq<u8>,
    pub workdir: Seq<u8>,
}

impl View for World {
    type V = WorldView;

    open spec fn view(&self) -> WorldView {
        WorldView { id: self.id@, ip: self.ip@, workdir: self.workdir@ }
    }
}

impl World {
    /// A copy of the World.
    pub fn copy(&self) -> (r: World)
        ensures
            r@ == self@,
    {
        World { id: self.id.clone(), ip: self.ip, workdir: copied(&self.workdir) }
    }
}

/// Whether a text identifies a World: neither empty nor too long, and on one
/// line.
pub open spec fn is_id(id: Seq<char>) -> bool {
    &&& 0 < id.len()
    &&& vstd::utf8::encode_utf8(id).len() <= MAX_ID_BYTES
    &&& !id.contains('\0')
    &&& !id.contains('\r')
    &&& !id.contains('\n')
}

/// Whether a text identifies a World.
pub fn valid_id(id: &str) -> (r: bool)
    ensures
        r == is_id(id@),
{
    if id.is_empty() || id.as_bytes().len() > MAX_ID_BYTES {
        return false;
    }
    let cs = chars_of(id);
    let mut i: usize = 0;
    while i < cs.len()
        invariant
            i <= cs@.len(),
            cs@ == id@,
            forall|j: int| 0 <= j < i ==> cs@[j] != '\0' && cs@[j] != '\r' && cs@[j] != '\n',
        decreases cs@.len() - i,
    {
        let c = cs[i];
        if c == '\0' || c == '\r' || c == '\n' {
            proof {
                assert(cs@.contains(cs@[i as int]));
            }
            return false;
        }
        i = i + 1;
    }
    true
}

/// The address with a number in the pool.
pub open spec fn address(n: u32) -> Seq<u8> {
    seq![127, 77, (n / 256) as u8, (n % 256) as u8]
}

/// The address with a number in the pool.
fn pool_address(n: u32) -> (r: [u8; 4])
    requires
        n <= POOL,
    ensures
        r@ == address(n),
{
    let r = [127, 77, (n / 256) as u8, (n % 256) as u8];
    proof {
        assert(r@ =~= address(n));
    }
    r
}

/// Whether a World has an address.
pub open spec fn is_used(worlds: Map<Seq<char>, World>, ip: Seq<u8>) -> bool {
    exists|id: Seq<char>| #[trigger] worlds.contains_key(id) && worlds[id].ip@ == ip
}

/// Whether some World has an address.
fn used(worlds: &Table<World>, ip: &[u8; 4]) -> (r: bool)
    ensures
        r == is_used(worlds@, ip@),
{
    let total = worlds.len();
    let mut i: usize = 0;
    while i < total
        invariant
            i <= total == worlds.order().len(),
            forall|key: Seq<char>| #[trigger]
                worlds@.contains_key(key) ==> exists|j: int|
                    0 <= j < total && (#[trigger] worlds.order()[j]).0 == key,
            forall|j: int|
                0 <= j < total ==> worlds@.contains_key((#[trigger] worlds.order()[j]).0)
                    && worlds@[worlds.order()[j].0] == worlds.order()[j].1,
            forall|j: int| 0 <= j < i ==> (#[trigger] worlds.order()[j]).1.ip@ != ip@,
        decreases total - i,
    {
        let other = worlds.value_at(i);
        if crate::bytes::equal(&other.ip, ip) {
            proof {
                let key = worlds.order()[i as int].0;
                assert(worlds@.contains_key(key) && worlds@[key].ip@ == ip@);
            }
            return true;
        }
        i = i + 1;
    }
    proof {
        if is_used(worlds@, ip@) {
            let key = choose|key: Seq<char>| #[trigger]
                worlds@.contains_key(key) && worlds@[key].ip@ == ip@;
            let j = choose|j: int| 0 <= j < total && (#[trigger] worlds.order()[j]).0 == key;
            assert(worlds.order()[j].1.ip@ != ip@);
        }
    }
    false
}

/// Whether an address is not free: a World has it, or `busy` says so.
pub open spec fn is_taken<F: Fn([u8; 4]) -> bool>(
    worlds: Map<Seq<char>, World>,
    busy: &F,
    n: u32,
) -> bool {
    is_used(worlds, address(n)) || exists|ip: [u8; 4]|
        ip@ == address(n) && #[trigger] call_ensures(busy, (ip,), true)
}

/// The first free address. `busy` is asked only of what no World has.
pub fn allocate<F: Fn([u8; 4]) -> bool>(worlds: &Table<World>, busy: &F) -> (r: Option<[u8; 4]>)
    requires
        forall|ip: [u8; 4]| #[trigger] call_requires(busy, (ip,)),
    ensures
        match r {
            Some(ip) => {
                &&& !is_used(worlds@, ip@)
                &&& call_ensures(busy, (ip,), false)
                &&& exists|n: u32|
                    {
                        &&& 1 <= n <= POOL
                        &&& ip@ == #[trigger] address(n)
                        &&& forall|m: u32| 1 <= m < n ==> #[trigger] is_taken(worlds@, busy, m)
                    }
            },
            None => forall|m: u32| 1 <= m <= POOL ==> #[trigger] is_taken(worlds@, busy, m),
        },
{
    let mut n: u32 = 1;
    while n <= POOL
        invariant
            1 <= n <= POOL + 1,
            forall|ip: [u8; 4]| #[trigger] call_requires(busy, (ip,)),
            forall|m: u32| 1 <= m < n ==> #[trigger] is_taken(worlds@, busy, m),
        decreases POOL + 1 - n,
    {
        let ip = pool_address(n);
        if !used(worlds, &ip) {
            if !busy(ip) {
                proof {
                    assert(ip@ == address(n));
                }
                return Some(ip);
            }
            proof {
                assert(call_ensures(busy, (ip,), true));
                assert(is_taken(worlds@, busy, n));
            }
        }
        n = n + 1;
    }
    None
}

/// Why a World is not created.
#[derive(Clone, Copy, Debug, PartialEq, Eq, Structural)]
pub enum CreateError {
    NoBackend,
    InvalidId,
    Workdir(WorkdirError),
    OtherWorkdir,
    PoolExhausted,
}

impl CreateError {
    /// The error in words.
    pub fn message(self) -> (r: &'static str)
        ensures
            r@ == (match self {
                CreateError::NoBackend => "silo backend requires macOS or Linux"@,
                CreateError::InvalidId => "invalid World ID"@,
                CreateError::Workdir(e) => e.words(),
                CreateError::OtherWorkdir => "World already belongs to another workdir"@,
                CreateError::PoolExhausted => "World address pool exhausted"@,
            }),
    {
        match self {
            CreateError::NoBackend => "silo backend requires macOS or Linux",
            CreateError::InvalidId => "invalid World ID",
            CreateError::Workdir(e) => e.message(),
            CreateError::OtherWorkdir => "World already belongs to another workdir",
            CreateError::PoolExhausted => "World address pool exhausted",
        }
    }
}

/// What keeps a World from being created before any is looked at.
pub open spec fn create_fault(
    supported: bool,
    id: Seq<char>,
    dir: Option<Seq<u8>>,
    is_dir: bool,
    home: Option<Seq<u8>>,
) -> Option<CreateError> {
    if !supported {
        Some(CreateError::NoBackend)
    } else if !is_id(id) {
        Some(CreateError::InvalidId)
    } else {
        match workdir_fault(dir, is_dir, home) {
            Some(e) => Some(CreateError::Workdir(e)),
            None => None,
        }
    }
}

/// The directory that a World is created for.
pub struct Place {
    /// Its canonical name, if it has one.
    pub dir: Option<Vec<u8>>,
    pub is_dir: bool,
    /// The canonical name of the home directory, if it has one.
    pub home: Option<Vec<u8>>,
}

/// The directory for a World that may be created.
pub fn workspace(supported: bool, id: &str, place: Place) -> (r: Result<Vec<u8>, CreateError>)
    ensures
        match create_fault(supported, id@, path_of(place.dir), place.is_dir, path_of(place.home)) {
            Some(fault) => r == Err::<Vec<u8>, CreateError>(fault),
            None => r == Ok::<Vec<u8>, CreateError>(place.dir->Some_0),
        },
{
    if !supported {
        return Err(CreateError::NoBackend);
    }
    if !valid_id(id) {
        return Err(CreateError::InvalidId);
    }
    match workdir(place.dir, place.is_dir, place.home) {
        Ok(dir) => Ok(dir),
        Err(e) => Err(CreateError::Workdir(e)),
    }
}

/// What becomes of the Worlds when one with a name and a directory is asked for.
/// The one that has the name is given back, if it is in the same directory; a new
/// one gets the first free address of the pool.
pub open spec fn enrolls<F: Fn([u8; 4]) -> bool>(
    before: Map<Seq<char>, World>,
    after: Map<Seq<char>, World>,
    id: Seq<char>,
    dir: Seq<u8>,
    busy: &F,
    r: Result<World, CreateError>,
) -> bool {
    if before.contains_key(id) {
        &&& after == before
        &&& if parts(before[id].workdir@) == parts(dir) {
            r is Ok && r->Ok_0@ == before[id]@
        } else {
            r == Err::<World, CreateError>(CreateError::OtherWorkdir)
        }
    } else {
        match r {
            Ok(world) => {
                &&& world.id@ == id
                &&& world.workdir@ == dir
                &&& !is_used(before, world.ip@)
                &&& call_ensures(busy, (world.ip,), false)
                &&& exists|n: u32|
                    {
                        &&& 1 <= n <= POOL
                        &&& world.ip@ == #[trigger] address(n)
                        &&& forall|m: u32| 1 <= m < n ==> #[trigger] is_taken(before, busy, m)
                    }
                &&& after.contains_key(id)
                &&& after[id]@ == world@
                &&& after == before.insert(id, after[id])
            },
            Err(e) => {
                &&& e == CreateError::PoolExhausted
                &&& after == before
                &&& forall|m: u32| 1 <= m <= POOL ==> #[trigger] is_taken(before, busy, m)
            },
        }
    }
}

/// Give back the World with a name, or a new one in `dir`.
pub fn enroll<F: Fn([u8; 4]) -> bool>(
    worlds: &mut Table<World>,
    id: &str,
    dir: Vec<u8>,
    busy: &F,
) -> (r: Result<World, CreateError>)
    requires
        forall|ip: [u8; 4]| #[trigger] call_requires(busy, (ip,)),
    ensures
        enrolls(old(worlds)@, final(worlds)@, id@, dir@, busy, r),
{
    if let Some(world) = worlds.get(id) {
        if !same(&world.workdir, &dir) {
            return Err(CreateError::OtherWorkdir);
        }
        return Ok(world.copy());
    }
    let ip = match allocate(&*worlds, busy) {
        Some(ip) => ip,
        None => {
            return Err(CreateError::PoolExhausted);
        },
    };
    let world = World { id: String::from_str(id), ip, workdir: dir };
    let stored = world.copy();
    worlds.insert(String::from_str(id), stored);
    Ok(world)
}

/// Create a World, or give back the one that has its name.
pub fn create<F: Fn([u8; 4]) -> bool>(
    worlds: &mut Table<World>,
    supported: bool,
    id: &str,
    place: Place,
    busy: &F,
) -> (r: Result<World, CreateError>)
    requires
        forall|ip: [u8; 4]| #[trigger] call_requires(busy, (ip,)),
    ensures
        match create_fault(supported, id@, path_of(place.dir), place.is_dir, path_of(place.home)) {
            Some(fault) => r == Err::<World, CreateError>(fault) && final(worlds)@ == old(worlds)@,
            None => enrolls(old(worlds)@, final(worlds)@, id@, place.dir->Some_0@, busy, r),
        },
{
    match workspace(supported, id, place) {
        Ok(dir) => enroll(worlds, id, dir, busy),
        Err(e) => Err(e),
    }
}

/// Asking for a World again, in the same directory, gives the same one back and
/// changes nothing.
pub proof fn law_created_once<F: Fn([u8; 4]) -> bool>(
    first: Map<Seq<char>, World>,
    second: Map<Seq<char>, World>,
    third: Map<Seq<char>, World>,
    id: Seq<char>,
    dir: Seq<u8>,
    busy: &F,
    a: Result<World, CreateError>,
    b: Result<World, CreateError>,
)
    requires
        enrolls(first, second, id, dir, busy, a),
        enrolls(second, third, id, dir, busy, b),
        a is Ok,
    ensures
        b is Ok,
        b->Ok_0@ == a->Ok_0@,
        third == second,
{
}

/// Whether no two Worlds have one address.
pub open spec fn distinct_addresses(worlds: Map<Seq<char>, World>) -> bool {
    forall|a: Seq<char>, b: Seq<char>|
        #[trigger] worlds.contains_key(a) && #[trigger] worlds.contains_key(b) && a != b
            ==> worlds[a].ip@ != worlds[b].ip@
}

/// No two Worlds ever share an address: asking for one keeps them apart.
pub proof fn law_addresses_stay_distinct<F: Fn([u8; 4]) -> bool>(
    before: Map<Seq<char>, World>,
    after: Map<Seq<char>, World>,
    id: Seq<char>,
    dir: Seq<u8>,
    busy: &F,
    r: Result<World, CreateError>,
)
    requires
        distinct_addresses(before),
        enrolls(before, after, id, dir, busy, r),
    ensures
        distinct_addresses(after),
{
    assert forall|a: Seq<char>, b: Seq<char>| #[trigger]
        after.contains_key(a) && #[trigger] after.contains_key(b) && a != b implies after[a].ip@
        != after[b].ip@ by {
        if a != id {
            assert(before.contains_key(a));
        }
        if b != id {
            assert(before.contains_key(b));
        }
        if !before.contains_key(id) && r is Ok {
            assert(after[id]@.ip == r->Ok_0@.ip);
        }
    }
}

/// Why a World is not found.
#[derive(Clone, Copy, Debug, PartialEq, Eq, Structural)]
pub enum InspectError {
    Unknown,
    Invalid,
}

impl InspectError {
    /// The error in words.
    pub fn message(self) -> (r: &'static str)
        ensures
            r@ == (match self {
                InspectError::Unknown => "unknown World; create it first"@,
                InspectError::Invalid => "invalid World registry entry"@,
            }),
    {
        match self {
            InspectError::Unknown => "unknown World; create it first",
            InspectError::Invalid => "invalid World registry entry",
        }
    }
}

/// Whether a World stands under its own name, with an address of the pool's
/// network.
pub open spec fn is_entry(id: Seq<char>, world: World) -> bool {
    world.id@ == id && world.ip@[0] == 127 && world.ip@[1] == 77
}

/// The World with a name.
pub fn inspect(worlds: &Table<World>, id: &str) -> (r: Result<World, InspectError>)
    ensures
        if !worlds@.contains_key(id@) {
            r == Err::<World, InspectError>(InspectError::Unknown)
        } else if !is_entry(id@, worlds@[id@]) {
            r == Err::<World, InspectError>(InspectError::Invalid)
        } else {
            r is Ok && r->Ok_0@ == worlds@[id@]@
        },
{
    match worlds.get(id) {
        None => Err(InspectError::Unknown),
        Some(world) => if same_text(world.id.as_str(), id) && world.ip[0] == 127 && world.ip[1]
            == 77 {
            Ok(world.copy())
        } else {
            Err(InspectError::Invalid)
        },
    }
}

/// A World that was just created is found under its name.
pub proof fn law_created_is_found<F: Fn([u8; 4]) -> bool>(
    before: Map<Seq<char>, World>,
    after: Map<Seq<char>, World>,
    id: Seq<char>,
    dir: Seq<u8>,
    busy: &F,
    r: Result<World, CreateError>,
)
    requires
        enrolls(before, after, id, dir, busy, r),
        r is Ok,
        !before.contains_key(id),
    ensures
        after.contains_key(id),
        is_entry(id, after[id]),
        after[id]@ == r->Ok_0@,
{
    let world = r->Ok_0;
    let n = choose|n: u32| 1 <= n <= POOL && world.ip@ == #[trigger] address(n);
    assert(after[id]@.ip == address(n));
}

/// Where Worlds are recorded by default, below the home directory.
pub open spec fn state_dir(home: Seq<u8>) -> Seq<u8> {
    joined(home, vstd::utf8::encode_utf8(".local/share/world/silo"@))
}

/// Where Worlds are recorded by default. Without a home directory it is nowhere.
pub fn default_state_dir(home: Option<&[u8]>) -> (r: Option<Vec<u8>>)
    ensures
        match home {
            Some(home) => r is Some && r->Some_0@ == state_dir(home@),
            None => r is None,
        },
{
    match home {
        Some(home) => Some(join(home, ".local/share/world/silo".as_bytes())),
        None => None,
    }
}

/// The recorded holder of a World's namespaces.
pub fn holder(holders: &Table<Holder>, id: &str) -> (r: Option<Holder>)
    ensures
        r == if holders@.contains_key(id@) {
            Some(holders@[id@])
        } else {
            None
        },
{
    match holders.get(id) {
        Some(holder) => Some(*holder),
        None => None,
    }
}

/// A text is a World's name exactly where it takes one to a hundred and twenty-eight
/// bytes and none of its characters ends a line or a string.
pub proof fn law_id_is_one_line(id: Seq<char>)
    ensures
        is_id(id) <==> {
            &&& id.len() >= 1
            &&& vstd::utf8::encode_utf8(id).len() <= 128
            &&& forall|i: int|
                0 <= i < id.len() ==> #[trigger] id[i] as int != 0 && id[i] as int != 10
                    && id[i] as int != 13
        },
{
    if is_id(id) {
        assert forall|i: int| 0 <= i < id.len() implies #[trigger] id[i] as int != 0
            && id[i] as int != 10 && id[i] as int != 13 by {
            assert(id.contains(id[i]));
        }
    }
}

/// An address of the pool is the number that its last two bytes spell, on the
/// network 127.77; different numbers have different addresses.
pub proof fn law_pool_addresses_differ(n: u32, m: u32)
    requires
        1 <= n <= 65534,
        1 <= m <= 65534,
    ensures
        address(n).len() == 4,
        address(n)[0] == 127 && address(n)[1] == 77,
        address(n)[2] * 256 + address(n)[3] == n,
        n != m ==> address(n) != address(m),
{
    assert(address(m)[2] * 256 + address(m)[3] == m);
}

/// As long as one of the pool's addresses is neither a World's nor busy, a new
/// World gets an address, and one whose number is no higher.
pub proof fn law_free_address_is_given<F: Fn([u8; 4]) -> bool>(
    before: Map<Seq<char>, World>,
    after: Map<Seq<char>, World>,
    id: Seq<char>,
    dir: Seq<u8>,
    busy: &F,
    r: Result<World, CreateError>,
    third: u8,
    fourth: u8,
)
    requires
        enrolls(before, after, id, dir, busy, r),
        !before.contains_key(id),
        1 <= third * 256 + fourth <= 65534,
        forall|other: Seq<char>| #[trigger]
            before.contains_key(other) ==> before[other].ip@ != seq![127u8, 77, third, fourth],
        forall|ip: [u8; 4]|
            ip@ == seq![127u8, 77, third, fourth] ==> !(#[trigger] call_ensures(busy, (ip,), true)),
    ensures
        r is Ok,
        r->Ok_0.id@ == id,
        r->Ok_0.workdir@ == dir,
        r->Ok_0.ip@[0] == 127 && r->Ok_0.ip@[1] == 77,
        1 <= r->Ok_0.ip@[2] * 256 + r->Ok_0.ip@[3] <= third * 256 + fourth,
        forall|other: Seq<char>| #[trigger]
            before.contains_key(other) ==> before[other].ip@ != r->Ok_0.ip@ && after.contains_key(
                other,
            ) && after[other] == before[other],
{
    let free = (third * 256 + fourth) as u32;
    assert(address(free) =~= seq![127u8, 77, third, fourth]);
    assert(!is_taken(before, busy, free));
    if let Ok(world) = r {
        let n = choose|n: u32|
            {
                &&& 1 <= n <= POOL
                &&& world.ip@ == #[trigger] address(n)
                &&& forall|m: u32| 1 <= m < n ==> #[trigger] is_taken(before, busy, m)
            };
        assert(n <= free);
        law_pool_addresses_differ(n, free);
        assert forall|other: Seq<char>| #[trigger] before.contains_key(
            other,
        ) implies before[other].ip@ != world.ip@ by {
            assert(!is_used(before, world.ip@));
        }
    }
}

/// A World that exists is given back to whoever names its directory, and to
/// nobody else.
pub proof fn law_world_keeps_its_workdir<F: Fn([u8; 4]) -> bool>(
    before: Map<Seq<char>, World>,
    after: Map<Seq<char>, World>,
    id: Seq<char>,
    dir: Seq<Seq<u8>>,
    busy: &F,
    r: Result<World, CreateError>,
    own: Seq<Seq<u8>>,
)
    requires
        enrolls(before, after, id, rendered(dir), busy, r),
        before.contains_key(id),
        before[id].workdir@ == rendered(own),
        are_entry_names(own),
        are_entry_names(dir),
    ensures
        after == before,
        r is Ok <==> dir == own,
        r is Ok ==> r->Ok_0@ == before[id]@,
        r is Err ==> r->Err_0 == CreateError::OtherWorkdir,
{
    law_within_by_names(own, dir);
}

/// A recorded World counts exactly where it has the name that it stands under and
/// an address on the network 127.77.
pub proof fn law_entry_is_sound(id: Seq<char>, world: World)
    ensures
        is_entry(id, world) <==> world.id@ == id && world.ip@[0] * 256 + world.ip@[1] == 127 * 256 + 77,
{
}

/// Worlds are recorded four directories below the home directory.
pub proof fn law_state_is_below_home(home: Seq<Seq<u8>>)
    requires
        are_entry_names(home),
    ensures
        parts(state_dir(rendered(home))) == seq![seq![47u8]] + home + seq![
            vstd::utf8::encode_utf8(".local"@),
            vstd::utf8::encode_utf8("share"@),
            vstd::utf8::encode_utf8("world"@),
            vstd::utf8::encode_utf8("silo"@),
        ],
{
    let path = vstd::utf8::encode_utf8(".local/share/world/silo"@);
    reveal_strlit(".local/share/world/silo");
    reveal_strlit(".local");
    reveal_strlit("share");
    reveal_strlit("world");
    reveal_strlit("silo");
    vstd::utf8::is_ascii_chars_encode_utf8(".local/share/world/silo"@);
    vstd::utf8::is_ascii_chars_encode_utf8(".local"@);
    vstd::utf8::is_ascii_chars_encode_utf8("share"@);
    vstd::utf8::is_ascii_chars_encode_utf8("world"@);
    vstd::utf8::is_ascii_chars_encode_utf8("silo"@);
    let local = vstd::utf8::encode_utf8(".local"@);
    let share = vstd::utf8::encode_utf8("share"@);
    let world = vstd::utf8::encode_utf8("world"@);
    let silo = vstd::utf8::encode_utf8("silo"@);
    let names = seq![local, share, world, silo];
    assert(local =~= seq![46u8, 108, 111, 99, 97, 108]);
    assert(share =~= seq![115u8, 104, 97, 114, 101]);
    assert(world =~= seq![119u8, 111, 114, 108, 100]);
    assert(silo =~= seq![115u8, 105, 108, 111]);
    assert(path =~= local + seq![47u8] + share + seq![47u8] + world + seq![47u8] + silo);
    assert(are_entry_names(names));
    lemma_components_single(local);
    lemma_components_single(share);
    lemma_components_single(world);
    lemma_components_single(silo);
    lemma_components_split(local, share);
    lemma_components_split(local + seq![47u8] + share, world);
    lemma_components_split(local + seq![47u8] + share + seq![47u8] + world, silo);
    assert(components(path) =~= names);
    assert(components(path)[0] == local);
    assert(local[1] == 108);
    law_joined_parts(rendered(home), path);
    law_names_are_parts(home);
    law_relative_names_are_parts(names);
    reveal_with_fuel(slashed, 5);
    assert(names.drop_last() =~= seq![local, share, world]);
    assert(names.drop_last().drop_last() =~= seq![local, share]);
    assert(names.drop_last().drop_last().drop_last() =~= seq![local]);
    assert(seq![local].drop_last() =~= Seq::<Seq<u8>>::empty());
    assert(slashed(names).skip(1) =~= path);
    if home.len() > 0 {
        lemma_slashed_starts(home);
    }
}

} // verus!
