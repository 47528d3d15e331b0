//! Loopback listeners that an execution's namespace hands to its supervisor.
use vstd::prelude::*;
use crate::bytes::{little, read32, signed};
use crate::ip::bits_v4;

verus! {

/// A step of opening the listeners and passing them on.
#[derive(Clone, Copy, Debug, PartialEq, Eq, Structural)]
pub enum Stage {
    /// Make the IPv4 socket.
    Socket4,
    /// Bind it to `127.0.0.1`.
    Bind4,
    Listen4,
    /// Make the IPv6 socket.
    Socket6,
    /// Keep it from taking IPv4 connections too.
    Only6,
    /// Bind it to `::1`.
    Bind6,
    Listen6,
    /// Pass the IPv4 listener on, and the IPv6 one if there is one.
    Send { six: bool },
    Done,
}

/// What follows a step.
#[derive(Clone, Copy, Debug, PartialEq, Eq, Structural)]
pub enum Next {
    To(Stage),
    /// Close the IPv6 socket, then go on.
    CloseSix(Stage),
    /// Give up with the error of the step.
    Fail,
}

/// What follows a step. IPv6 is optional: the host's kernel may have disabled
/// it.
pub open spec fn following(stage: Stage, ok: bool) -> Next {
    match stage {
        Stage::Socket4 => if ok {
            Next::To(Stage::Bind4)
        } else {
            Next::Fail
        },
        Stage::Bind4 => if ok {
            Next::To(Stage::Listen4)
        } else {
            Next::Fail
        },
        Stage::Listen4 => if ok {
            Next::To(Stage::Socket6)
        } else {
            Next::Fail
        },
        Stage::Socket6 => if ok {
            Next::To(Stage::Only6)
        } else {
            Next::To(Stage::Send { six: false })
        },
        Stage::Only6 => if ok {
            Next::To(Stage::Bind6)
        } else {
            Next::CloseSix(Stage::Send { six: false })
        },
        Stage::Bind6 => if ok {
            Next::To(Stage::Listen6)
        } else {
            Next::CloseSix(Stage::Send { six: false })
        },
        Stage::Listen6 => if ok {
            Next::To(Stage::Send { six: true })
        } else {
            Next::CloseSix(Stage::Send { six: false })
        },
        Stage::Send { six } => if ok {
            Next::To(Stage::Done)
        } else {
            Next::Fail
        },
        Stage::Done => Next::To(Stage::Done),
    }
}

/// What follows a step that succeeded or not.
pub fn next_stage(stage: Stage, ok: bool) -> (r: Next)
    ensures
        r == following(stage, ok),
{
    match stage {
        Stage::Socket4 => if ok {
            Next::To(Stage::Bind4)
        } else {
            Next::Fail
        },
        Stage::Bind4 => if ok {
            Next::To(Stage::Listen4)
        } else {
            Next::Fail
        },
        Stage::Listen4 => if ok {
            Next::To(Stage::Socket6)
        } else {
            Next::Fail
        },
        Stage::Socket6 => if ok {
            Next::To(Stage::Only6)
        } else {
            Next::To(Stage::Send { six: false })
        },
        Stage::Only6 => if ok {
            Next::To(Stage::Bind6)
        } else {
            Next::CloseSix(Stage::Send { six: false })
        },
        Stage::Bind6 => if ok {
            Next::To(Stage::Listen6)
        } else {
            Next::CloseSix(Stage::Send { six: false })
        },
        Stage::Listen6 => if ok {
            Next::To(Stage::Send { six: true })
        } else {
            Next::CloseSix(Stage::Send { six: false })
        },
        Stage::Send { six } => if ok {
            Next::To(Stage::Done)
        } else {
            Next::Fail
        },
        Stage::Done => Next::To(Stage::Done),
    }
}

/// Where the steps lead when `results` tells which succeed; None where one that
/// has to succeed does not.
pub open spec fn reached(stage: Stage, results: Seq<bool>) -> Option<Stage>
    decreases results.len(),
{
    if results.len() == 0 || stage is Done {
        Some(stage)
    } else {
        match following(stage, results[0]) {
            Next::To(next) => reached(next, results.drop_first()),
            Next::CloseSix(next) => reached(next, results.drop_first()),
            Next::Fail => None,
        }
    }
}

/// A step that is about the IPv6 listener.
pub open spec fn is_six(stage: Stage) -> bool {
    stage is Socket6 || stage is Only6 || stage is Bind6 || stage is Listen6
}

/// Whatever becomes of IPv6, the IPv4 listener is passed on once it listens: no
/// step of the IPv6 listener ends the run, one that fails leads to passing on
/// the IPv4 listener alone, and whichever of the four `results` tell of success,
/// some of them lead to passing the listeners on.
pub proof fn law_six_is_optional(stage: Stage, ok: bool, results: Seq<bool>)
    requires
        results.len() == 4,
    ensures
        is_six(stage) ==> following(stage, ok) !is Fail,
        is_six(stage) ==> match following(stage, false) {
            Next::To(next) => next == Stage::Send { six: false },
            Next::CloseSix(next) => next == Stage::Send { six: false },
            Next::Fail => false,
        },
        exists|n: int|
            0 < n <= 4 && #[trigger] reached(Stage::Socket6, results.take(n)) == Some(
                Stage::Send { six: !results.contains(false) },
            ),
{
    reveal_with_fuel(reached, 5);
    let n: int = if !results[0] {
        1
    } else if !results[1] {
        2
    } else if !results[2] {
        3
    } else {
        4
    };
    let one = results.take(n);
    let two = one.drop_first();
    let three = two.drop_first();
    let four = three.drop_first();
    assert(n > 1 ==> two[0] == results[1]);
    assert(n > 2 ==> three[0] == results[2]);
    assert(n > 3 ==> four[0] == results[3]);
    let last = results[n - 1];
    assert(results.contains(false) == !last) by {
        if !last {
            assert(results.contains(results[n - 1]));
        }
    }
    assert(reached(Stage::Socket6, one) == Some(Stage::Send { six: last }));
}

/// The address `127.0.0.1` with a port, as the kernel takes it: the family in
/// host order, the port and the address in network order.
pub open spec fn loopback4(port: u16) -> Seq<u8> {
    seq![2u8, 0, (port / 256) as u8, (port % 256) as u8, 127, 0, 0, 1, 0, 0, 0, 0, 0, 0, 0, 0]
}

/// The address `::1` with a port.
pub open spec fn loopback6(port: u16) -> Seq<u8> {
    seq![10u8, 0, (port / 256) as u8, (port % 256) as u8, 0, 0, 0, 0] + seq![
        0u8,
        0,
        0,
        0,
        0,
        0,
        0,
        0,
        0,
        0,
        0,
        0,
        0,
        0,
        0,
        1,
    ] + seq![0u8, 0, 0, 0]
}

/// The address of the IPv4 listener.
pub fn loopback4_address(port: u16) -> (r: [u8; 16])
    ensures
        r@ == loopback4(port),
{
    let r = [
        2u8,
        0,
        (port / 256) as u8,
        (port % 256) as u8,
        127,
        0,
        0,
        1,
        0,
        0,
        0,
        0,
        0,
        0,
        0,
        0,
    ];
    proof {
        assert(r@ =~= loopback4(port));
    }
    r
}

/// The address of the IPv6 listener.
pub fn loopback6_address(port: u16) -> (r: [u8; 28])
    ensures
        r@ == loopback6(port),
{
    let mut r = [0u8; 28];
    r[0] = 10;
    r[2] = (port / 256) as u8;
    r[3] = (port % 256) as u8;
    r[23] = 1;
    proof {
        assert(r@ =~= loopback6(port));
    }
    r
}

/// The level of control messages about sockets.
pub const SOL_SOCKET: u32 = 1;
/// A control message that passes descriptors.
pub const SCM_RIGHTS: u32 = 1;
/// The length of a control message's header: its length, its level and its
/// type.
pub const HEADER: usize = 16;
/// The room for control messages.
pub const CONTROL: usize = 64;

/// `n` rounded up to a whole number of words.
pub open spec fn aligned(n: int) -> int {
    (n + 7) / 8 * 8
}

/// The descriptors in the data of a control message.
pub open spec fn rights_at(b: Seq<u8>, at: int, count: nat) -> Seq<i32> {
    Seq::new(count, |i: int| signed(little(b, at + 4 * i, 4) as int) as i32)
}

/// The descriptors that the control messages from `at` on pass. A message that
/// is not whole ends them.
pub open spec fn rights_from(b: Seq<u8>, at: int) -> Seq<i32>
    decreases b.len() - at,
{
    let len = little(b, at, 8) as int;
    if at < 0 || at + HEADER > b.len() || len < HEADER || at + len > b.len() {
        Seq::empty()
    } else {
        let here = if little(b, at + 8, 4) == SOL_SOCKET && little(b, at + 12, 4) == SCM_RIGHTS {
            rights_at(b, at + HEADER, ((len - HEADER) / 4) as nat)
        } else {
            Seq::empty()
        };
        if at + aligned(len) <= b.len() {
            here + rights_from(b, at + aligned(len))
        } else {
            here
        }
    }
}

/// The number of eight bytes at `at`.
fn read64(b: &[u8], at: usize) -> (r: u64)
    requires
        at + 8 <= b@.len(),
    ensures
        r == little(b@, at as int, 8),
{
    let total = b.len();
    let low = read32(b, at) as u64;
    let high = read32(b, at + 4) as u64;
    proof {
        reveal_with_fuel(little, 9);
        assert(little(b@, at as int, 8) == little(b@, at as int, 4) + 4294967296 * little(
            b@,
            at + 4,
            4,
        ));
    }
    low + 4294967296 * high
}

/// The descriptors that control messages pass.
pub fn received_rights(b: &[u8]) -> (r: Vec<i32>)
    ensures
        r@ == rights_from(b@, 0),
{
    let mut r: Vec<i32> = Vec::new();
    let total = b.len();
    let mut at: usize = 0;
    proof {
        assert(Seq::<i32>::empty() + rights_from(b@, 0) =~= rights_from(b@, 0));
    }
    loop
        invariant
            total == b@.len(),
            rights_from(b@, 0) == r@ + rights_from(b@, at as int),
        decreases b@.len() - at,
    {
        let ghost before = r@;
        if at > total || total - at < HEADER {
            proof {
                assert(r@ + Seq::<i32>::empty() =~= r@);
            }
            return r;
        }
        let len = read64(b, at);
        if len < HEADER as u64 || len > (total - at) as u64 {
            proof {
                assert(r@ + Seq::<i32>::empty() =~= r@);
            }
            return r;
        }
        let len = len as usize;
        let ghost here = if little(b@, at + 8, 4) == SOL_SOCKET && little(b@, at + 12, 4)
            == SCM_RIGHTS {
            rights_at(b@, at + HEADER, ((len - HEADER) / 4) as nat)
        } else {
            Seq::empty()
        };
        if read32(b, at + 8) == SOL_SOCKET && read32(b, at + 12) == SCM_RIGHTS {
            let count = (len - HEADER) / 4;
            let mut i: usize = 0;
            while i < count
                invariant
                    i <= count,
                    count == (len - HEADER) / 4,
                    at + len <= total,
                    total == b@.len(),
                    HEADER <= len,
                    here == rights_at(b@, at + HEADER, count as nat),
                    r@ == before + here.take(i as int),
                decreases count - i,
            {
                let v = read32(b, at + HEADER + 4 * i);
                let fd = if v < 0x8000_0000 {
                    v as i32
                } else {
                    (v as i64 - 0x1_0000_0000) as i32
                };
                r.push(fd);
                proof {
                    assert(here[i as int] == fd);
                    assert(r@ =~= before + here.take(i + 1));
                }
                i = i + 1;
            }
            proof {
                assert(here.take(count as int) =~= here);
            }
        } else {
            proof {
                assert(before + here =~= before);
            }
        }
        let odd = len % 8;
        let gap = if odd == 0 {
            0
        } else {
            8 - odd
        };
        proof {
            assert(aligned(len as int) == len + gap);
        }
        if gap > total - at - len {
            return r;
        }
        proof {
            let rest = rights_from(b@, at + aligned(len as int));
            assert(before + (here + rest) =~= r@ + rest);
        }
        at = at + len + gap;
    }
}

/// The four bytes of a number, least significant first.
pub open spec fn bytes32(v: int) -> Seq<u8> {
    seq![
        (v % 256) as u8,
        (v / 256 % 256) as u8,
        (v / 65536 % 256) as u8,
        (v / 16777216 % 256) as u8,
    ]
}

/// The bytes of some descriptors.
pub open spec fn bytes_of(fds: Seq<i32>) -> Seq<u8>
    decreases fds.len(),
{
    if fds.len() == 0 {
        Seq::empty()
    } else {
        bytes_of(fds.drop_last()) + bytes32(fds.last() as int)
    }
}

/// The control message that passes `fds`.
pub open spec fn rights_message_of(fds: Seq<i32>) -> Seq<u8> {
    bytes32(HEADER + 4 * fds.len()) + bytes32(0) + bytes32(SOL_SOCKET as int) + bytes32(
        SCM_RIGHTS as int,
    ) + bytes_of(fds) + if fds.len() % 2 == 0 {
        Seq::empty()
    } else {
        bytes32(0)
    }
}

/// Append the four bytes of a number.
fn push32(b: &mut Vec<u8>, v: u32)
    ensures
        final(b)@ == old(b)@ + bytes32(v as int),
{
    let ghost before = b@;
    b.push((v % 256) as u8);
    b.push((v / 256 % 256) as u8);
    b.push((v / 65536 % 256) as u8);
    b.push((v / 16777216 % 256) as u8);
    proof {
        assert(b@ =~= before + bytes32(v as int));
    }
}

/// Write the control message that passes `fds` in place of what `b` held. With
/// room for [`CONTROL`] bytes in `b`, nothing is allocated.
pub fn write_rights(b: &mut Vec<u8>, fds: &[i32])
    requires
        fds@.len() <= 12,
        forall|i: int| 0 <= i < fds@.len() ==> #[trigger] fds@[i] >= 0,
    ensures
        final(b)@ == rights_message_of(fds@),
{
    b.clear();
    push32(b, (HEADER + 4 * fds.len()) as u32);
    push32(b, 0);
    push32(b, SOL_SOCKET);
    push32(b, SCM_RIGHTS);
    let ghost head = b@;
    let mut i: usize = 0;
    proof {
        assert(fds@.take(0) =~= Seq::<i32>::empty());
        assert(head + bytes_of(fds@.take(0)) =~= head);
    }
    while i < fds.len()
        invariant
            i <= fds@.len(),
            forall|j: int| 0 <= j < fds@.len() ==> #[trigger] fds@[j] >= 0,
            b@ == head + bytes_of(fds@.take(i as int)),
        decreases fds@.len() - i,
    {
        proof {
            assert(fds@[i as int] >= 0);
            assert(fds@.take(i + 1).drop_last() =~= fds@.take(i as int));
        }
        push32(b, fds[i] as u32);
        i = i + 1;
        proof {
            assert(b@ =~= head + bytes_of(fds@.take(i as int)));
        }
    }
    proof {
        assert(fds@.take(i as int) =~= fds@);
    }
    if fds.len() % 2 != 0 {
        push32(b, 0);
    }
    proof {
        assert(b@ =~= rights_message_of(fds@));
    }
}

/// The control message that passes `fds`.
pub fn rights_message(fds: &[i32]) -> (r: Vec<u8>)
    requires
        fds@.len() <= 12,
        forall|i: int| 0 <= i < fds@.len() ==> #[trigger] fds@[i] >= 0,
    ensures
        r@ == rights_message_of(fds@),
{
    let mut b: Vec<u8> = Vec::new();
    write_rights(&mut b, fds);
    b
}

proof fn lemma_bytes32(v: int)
    requires
        0 <= v < 0x1_0000_0000,
    ensures
        little(bytes32(v), 0, 4) == v,
{
    reveal_with_fuel(little, 5);
}

proof fn lemma_little_shift(a: Seq<u8>, b: Seq<u8>, at: int, from: int, n: nat)
    requires
        0 <= at,
        0 <= from,
        at + n <= a.len(),
        from + n <= b.len(),
        forall|i: int| 0 <= i < n ==> a[at + i] == #[trigger] b[from + i],
    ensures
        little(a, at, n) == little(b, from, n),
    decreases n,
{
    if n > 0 {
        assert(a[at + 0] == b[from + 0]);
        assert forall|i: int| 0 <= i < n - 1 implies a[at + 1 + i] == #[trigger] b[from + 1
            + i] by {
            assert(a[at + (i + 1)] == b[from + (i + 1)]);
        }
        lemma_little_shift(a, b, at + 1, from + 1, (n - 1) as nat);
    }
}

proof fn lemma_bytes_of(fds: Seq<i32>, i: int)
    requires
        forall|j: int| 0 <= j < fds.len() ==> #[trigger] fds[j] >= 0,
        0 <= i < fds.len(),
    ensures
        bytes_of(fds).len() == 4 * fds.len(),
        little(bytes_of(fds), 4 * i, 4) == fds[i],
    decreases fds.len(),
{
    let less = fds.drop_last();
    let b = bytes_of(fds);
    assert forall|j: int| 0 <= j < less.len() implies #[trigger] less[j] >= 0 by {
        assert(fds[j] >= 0);
    }
    lemma_bytes_len(less);
    lemma_bytes_len(fds);
    if i == fds.len() - 1 {
        let v = fds.last() as int;
        assert(fds[i] >= 0);
        lemma_bytes32(v);
        lemma_little_shift(b, bytes32(v), 4 * i, 0, 4);
    } else {
        lemma_bytes_of(less, i);
        lemma_little_shift(b, bytes_of(less), 4 * i, 4 * i, 4);
    }
}

proof fn lemma_bytes_len(fds: Seq<i32>)
    ensures
        bytes_of(fds).len() == 4 * fds.len(),
    decreases fds.len(),
{
    if fds.len() > 0 {
        lemma_bytes_len(fds.drop_last());
    }
}

/// What is passed is what is received.
pub proof fn law_rights_round_trip(fds: Seq<i32>)
    requires
        fds.len() <= 12,
        forall|j: int| 0 <= j < fds.len() ==> #[trigger] fds[j] >= 0,
    ensures
        rights_from(rights_message_of(fds), 0) == fds,
{
    let m = rights_message_of(fds);
    let n = fds.len() as int;
    lemma_bytes_len(fds);
    assert(m.len() == HEADER + 4 * n + if n % 2 == 0 {
        0int
    } else {
        4int
    });
    let len = HEADER + 4 * n;
    lemma_bytes32(len);
    lemma_bytes32(0);
    lemma_bytes32(SOL_SOCKET as int);
    lemma_bytes32(SCM_RIGHTS as int);
    lemma_little_shift(m, bytes32(len), 0, 0, 4);
    lemma_little_shift(m, bytes32(0), 4, 0, 4);
    lemma_little_shift(m, bytes32(SOL_SOCKET as int), 8, 0, 4);
    lemma_little_shift(m, bytes32(SCM_RIGHTS as int), 12, 0, 4);
    assert(little(m, 0, 8) == little(m, 0, 4) + 4294967296 * little(m, 4, 4)) by {
        reveal_with_fuel(little, 9);
    }
    let got = rights_at(m, HEADER as int, n as nat);
    assert forall|i: int| 0 <= i < n implies #[trigger] got[i] == fds[i] by {
        lemma_bytes_of(fds, i);
        lemma_little_shift(m, bytes_of(fds), HEADER + 4 * i, 4 * i, 4);
    }
    assert(got =~= fds);
    assert(aligned(len) == m.len());
    let after = rights_from(m, m.len() as int);
    assert(after =~= Seq::<i32>::empty());
    assert(got + after =~= fds);
}

/// The supervisor got no listener.
#[derive(Clone, Copy, Debug, PartialEq, Eq, Structural)]
pub struct NoListener;

/// The listeners of a message: `received` bytes of data came with it, and
/// `truncated` tells whether control messages were cut off.
pub fn receive_listeners(received: i64, truncated: bool, control: &[u8]) -> (r: Result<
    Vec<i32>,
    NoListener,
>)
    ensures
        if received != 1 || truncated || rights_from(control@, 0).len() == 0 {
            r is Err
        } else {
            r matches Ok(fds) && fds@ == rights_from(control@, 0)
        },
{
    if received != 1 || truncated {
        return Err(NoListener);
    }
    let fds = received_rights(control);
    if fds.len() == 0 {
        return Err(NoListener);
    }
    Ok(fds)
}

/// `StdRng::from_rng` takes a seed from the system's random source, or fails.
/// `Rng::gen_range` of an inclusive range then yields a number of that range.
/// Which one, and when the source fails, is not known.
#[verifier::external_body]
fn random_in(low: u16, high: u16) -> (r: Option<u16>)
    requires
        low <= high,
    ensures
        r matches Some(n) ==> low <= n <= high,
{
    match <rand::rngs::StdRng as rand::SeedableRng>::from_rng(rand::rngs::OsRng) {
        Ok(mut rng) => Some(rand::Rng::gen_range(&mut rng, low..=high)),
        Err(_) => None,
    }
}

/// The ephemeral range of a new namespace.
pub const FIRST_PORT: u16 = 32768;
pub const LAST_PORT: u16 = 60999;

/// A port for the proxy. Every port is free in a new namespace; services with
/// fixed ports avoid the ephemeral range. None means that the system has no
/// random source.
pub fn random_port() -> (r: Option<u16>)
    ensures
        r matches Some(port) ==> FIRST_PORT <= port <= LAST_PORT,
        r matches Some(port) ==> 32768 <= port < 61000,
{
    random_in(FIRST_PORT, LAST_PORT)
}

/// The listeners are passed on once every step succeeded, the one for IPv6 with
/// the other; without the one for IPv4 there is nothing to pass on.
pub proof fn law_listeners_are_passed_on(failing: int)
    requires
        0 <= failing < 3,
    ensures
        reached(Stage::Socket4, Seq::new(7, |i: int| true)) == Some(Stage::Send { six: true }),
        reached(Stage::Socket4, Seq::new(8, |i: int| true)) == Some(Stage::Done),
        reached(Stage::Socket4, Seq::new((failing + 1) as nat, |i: int| i < failing)) is None,
        following(Stage::Send { six: true }, false) == Next::Fail,
        following(Stage::Send { six: false }, false) == Next::Fail,
{
    let seven = Seq::new(7, |i: int| true);
    let eight = Seq::new(8, |i: int| true);
    let some = Seq::new((failing + 1) as nat, |i: int| i < failing);
    lemma_reached_skip(Stage::Socket4, seven, 0);
    lemma_reached_skip(Stage::Bind4, seven, 1);
    lemma_reached_skip(Stage::Listen4, seven, 2);
    lemma_reached_skip(Stage::Socket6, seven, 3);
    lemma_reached_skip(Stage::Only6, seven, 4);
    lemma_reached_skip(Stage::Bind6, seven, 5);
    lemma_reached_skip(Stage::Listen6, seven, 6);
    lemma_reached_skip(Stage::Socket4, eight, 0);
    lemma_reached_skip(Stage::Bind4, eight, 1);
    lemma_reached_skip(Stage::Listen4, eight, 2);
    lemma_reached_skip(Stage::Socket6, eight, 3);
    lemma_reached_skip(Stage::Only6, eight, 4);
    lemma_reached_skip(Stage::Bind6, eight, 5);
    lemma_reached_skip(Stage::Listen6, eight, 6);
    lemma_reached_skip(Stage::Send { six: true }, eight, 7);
    assert(seven.skip(0) =~= seven && eight.skip(0) =~= eight && some.skip(0) =~= some);
    lemma_reached_skip(Stage::Socket4, some, 0);
    if failing > 0 {
        lemma_reached_skip(Stage::Bind4, some, 1);
    }
    if failing > 1 {
        lemma_reached_skip(Stage::Listen4, some, 2);
    }
}

proof fn lemma_reached_skip(stage: Stage, results: Seq<bool>, i: int)
    requires
        0 <= i < results.len(),
        !(stage is Done),
    ensures
        reached(stage, results.skip(i)) == match following(stage, results[i]) {
            Next::To(next) => reached(next, results.skip(i + 1)),
            Next::CloseSix(next) => reached(next, results.skip(i + 1)),
            Next::Fail => None,
        },
{
    assert(results.skip(i).drop_first() =~= results.skip(i + 1));
}

/// Listeners stand on the loopback addresses 127.0.0.1 and ::1, with the port's
/// high byte first.
pub proof fn law_listeners_are_on_loopback(port: u16)
    ensures
        ({
            let four = loopback4(port);
            let six = loopback6(port);
            &&& four.len() == 16
            &&& four[0] + 256 * four[1] == 2
            &&& four[2] * 256 + four[3] == port
            &&& bits_v4(four.subrange(4, 8)) == 0x7f00_0001
            &&& forall|i: int| 8 <= i < 16 ==> #[trigger] four[i] == 0
            &&& six.len() == 28
            &&& six[0] + 256 * six[1] == 10
            &&& six[2] * 256 + six[3] == port
            &&& six[23] == 1
            &&& forall|i: int| 4 <= i < 28 && i != 23 ==> #[trigger] six[i] == 0
        }),
{
}

} // verus!
