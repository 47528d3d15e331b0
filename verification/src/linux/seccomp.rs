//! The filter of system calls that could leave a network namespace.
use vstd::prelude::*;

verus! {

/// A processor that the filter is written for.
#[derive(Clone, Copy, Debug, PartialEq, Eq, Structural)]
pub enum Architecture {
    X86_64,
    Aarch64,
    /// Any other: there is no filter for it.
    Other,
}

/// One instruction of a classic BPF program.
#[derive(Clone, Copy, Debug, PartialEq, Eq, Structural)]
pub struct Instruction {
    pub code: u16,
    pub jt: u8,
    pub jf: u8,
    pub k: u32,
}

/// What the kernel tells a filter of a system call: the architecture, the
/// number, and the low words of the first two arguments.
pub struct Call {
    pub arch: u32,
    pub nr: u32,
    pub arg0: u32,
    pub arg1: u32,
}

/// The numbers that an architecture gives to the calls that matter.
#[derive(Clone, Copy, Debug, PartialEq, Eq, Structural)]
pub struct Numbers {
    /// What audits call the architecture.
    pub arch: u32,
    pub socket: u32,
    pub socketpair: u32,
    pub io_uring_setup: u32,
    pub keyctl: u32,
    pub add_key: u32,
    pub request_key: u32,
}

/// Load a word.
pub const LD_W_ABS: u16 = 0x20;
/// Jump if equal.
pub const JEQ_K: u16 = 0x15;
/// Jump if greater or equal.
pub const JGE_K: u16 = 0x35;
/// Mask.
pub const AND_K: u16 = 0x54;
/// Return.
pub const RET_K: u16 = 0x06;

/// Kill the process.
pub const RET_KILL_PROCESS: u32 = 0x8000_0000;
/// Fail with `EACCES`.
pub const RET_EACCES: u32 = 0x0005_000d;
/// Fail with `EPERM`.
pub const RET_EPERM: u32 = 0x0005_0001;
/// Let the call through.
pub const RET_ALLOW: u32 = 0x7fff_0000;

/// Where the number stands in what the kernel tells.
pub const AT_NR: u32 = 0;
/// Where the architecture stands.
pub const AT_ARCH: u32 = 4;
/// Where the low word of the first argument stands.
pub const AT_ARG0: u32 = 16;
/// Where the low word of the second argument stands.
pub const AT_ARG1: u32 = 24;

/// The first number of the x32 calls, which share the audit architecture of
/// x86_64.
pub const X32_FIRST: u32 = 0x4000_0000;

/// Socket families that a network namespace confines.
pub const AF_INET: u32 = 2;
pub const AF_INET6: u32 = 10;
pub const AF_NETLINK: u32 = 16;

/// Socket types whose pairs ignore destinations.
pub const SOCK_STREAM: u32 = 1;
pub const SOCK_SEQPACKET: u32 = 5;

/// Every bit of a socket type but `SOCK_NONBLOCK` and `SOCK_CLOEXEC`.
pub const TYPE_MASK: u32 = 0xfff7_f7ff;

impl Architecture {
    /// The numbers of its calls.
    pub open spec fn numbers(self) -> Option<Numbers> {
        match self {
            Architecture::X86_64 => Some(
                Numbers {
                    arch: 0xc000_003e,
                    socket: 41,
                    socketpair: 53,
                    io_uring_setup: 425,
                    keyctl: 250,
                    add_key: 248,
                    request_key: 249,
                },
            ),
            Architecture::Aarch64 => Some(
                Numbers {
                    arch: 0xc000_00b7,
                    socket: 198,
                    socketpair: 199,
                    io_uring_setup: 425,
                    keyctl: 219,
                    add_key: 217,
                    request_key: 218,
                },
            ),
            Architecture::Other => None,
        }
    }

    /// The numbers of its calls.
    pub fn call_numbers(self) -> (r: Option<Numbers>)
        ensures
            r == self.numbers(),
    {
        match self {
            Architecture::X86_64 => Some(
                Numbers {
                    arch: 0xc000_003e,
                    socket: 41,
                    socketpair: 53,
                    io_uring_setup: 425,
                    keyctl: 250,
                    add_key: 248,
                    request_key: 249,
                },
            ),
            Architecture::Aarch64 => Some(
                Numbers {
                    arch: 0xc000_00b7,
                    socket: 198,
                    socketpair: 199,
                    io_uring_setup: 425,
                    keyctl: 219,
                    add_key: 217,
                    request_key: 218,
                },
            ),
            Architecture::Other => None,
        }
    }
}

/// What is decided on a call. Sockets of families that the namespace does not
/// confine are refused, and so are pairs of datagram sockets, an end of which
/// could be redirected to a host socket; so are `io_uring`, which can make
/// sockets without these calls, and key management, since the caller's session
/// keyring is inherited.
pub open spec fn decision(n: Numbers, x32_guard: bool, call: Call) -> u32 {
    if call.arch != n.arch {
        RET_KILL_PROCESS
    } else if x32_guard && call.nr >= X32_FIRST {
        RET_EPERM
    } else if call.nr == n.socket {
        if call.arg0 == AF_INET || call.arg0 == AF_INET6 || call.arg0 == AF_NETLINK {
            RET_ALLOW
        } else {
            RET_EACCES
        }
    } else if call.nr == n.socketpair {
        if call.arg1 & TYPE_MASK == SOCK_STREAM || call.arg1 & TYPE_MASK == SOCK_SEQPACKET {
            RET_ALLOW
        } else {
            RET_EACCES
        }
    } else if call.nr == n.io_uring_setup || call.nr == n.keyctl || call.nr == n.add_key || call.nr
        == n.request_key {
        RET_EPERM
    } else {
        RET_ALLOW
    }
}

/// What a load reads.
pub open spec fn loaded(call: Call, k: u32) -> Option<u32> {
    if k == AT_NR {
        Some(call.nr)
    } else if k == AT_ARCH {
        Some(call.arch)
    } else if k == AT_ARG0 {
        Some(call.arg0)
    } else if k == AT_ARG1 {
        Some(call.arg1)
    } else {
        None
    }
}

/// How many instructions there are from `pc` on.
pub open spec fn left(program: Seq<Instruction>, pc: int) -> nat {
    if pc < program.len() {
        (program.len() - pc) as nat
    } else {
        0
    }
}

/// What `program` returns for a call, from `pc` on with `acc` in the
/// accumulator. None if it runs off its end or holds an unknown instruction.
pub open spec fn run_from(program: Seq<Instruction>, call: Call, pc: int, acc: u32) -> Option<u32>
    decreases left(program, pc),
{
    if pc < 0 || pc >= program.len() {
        None
    } else {
        let ins = program[pc];
        if ins.code == LD_W_ABS {
            match loaded(call, ins.k) {
                Some(word) => run_from(program, call, pc + 1, word),
                None => None,
            }
        } else if ins.code == AND_K {
            run_from(program, call, pc + 1, acc & ins.k)
        } else if ins.code == RET_K {
            Some(ins.k)
        } else if ins.code == JEQ_K {
            run_from(
                program,
                call,
                pc + 1 + if acc == ins.k {
                    ins.jt as int
                } else {
                    ins.jf as int
                },
                acc,
            )
        } else if ins.code == JGE_K {
            run_from(
                program,
                call,
                pc + 1 + if acc >= ins.k {
                    ins.jt as int
                } else {
                    ins.jf as int
                },
                acc,
            )
        } else {
            None
        }
    }
}

/// What `program` returns for a call.
pub open spec fn outcome(program: Seq<Instruction>, call: Call) -> Option<u32> {
    run_from(program, call, 0, 0)
}

fn op(code: u16, k: u32, jt: u8, jf: u8) -> (r: Instruction)
    ensures
        r == (Instruction { code, jt, jf, k }),
{
    Instruction { code, jt, jf, k }
}

/// The part of the filter after the guard.
spec fn body(n: Numbers) -> Seq<Instruction> {
    seq![
        Instruction { code: JEQ_K, k: n.socket, jt: 6, jf: 0 },
        Instruction { code: JEQ_K, k: n.socketpair, jt: 10, jf: 0 },
        Instruction { code: JEQ_K, k: n.io_uring_setup, jt: 15, jf: 0 },
        Instruction { code: JEQ_K, k: n.keyctl, jt: 14, jf: 0 },
        Instruction { code: JEQ_K, k: n.add_key, jt: 13, jf: 0 },
        Instruction { code: JEQ_K, k: n.request_key, jt: 12, jf: 0 },
        Instruction { code: RET_K, k: RET_ALLOW, jt: 0, jf: 0 },
        Instruction { code: LD_W_ABS, k: AT_ARG0, jt: 0, jf: 0 },
        Instruction { code: JEQ_K, k: AF_INET, jt: 8, jf: 0 },
        Instruction { code: JEQ_K, k: AF_INET6, jt: 7, jf: 0 },
        Instruction { code: JEQ_K, k: AF_NETLINK, jt: 6, jf: 0 },
        Instruction { code: RET_K, k: RET_EACCES, jt: 0, jf: 0 },
        Instruction { code: LD_W_ABS, k: AT_ARG1, jt: 0, jf: 0 },
        Instruction { code: AND_K, k: TYPE_MASK, jt: 0, jf: 0 },
        Instruction { code: JEQ_K, k: SOCK_STREAM, jt: 2, jf: 0 },
        Instruction { code: JEQ_K, k: SOCK_SEQPACKET, jt: 1, jf: 0 },
        Instruction { code: RET_K, k: RET_EACCES, jt: 0, jf: 0 },
        Instruction { code: RET_K, k: RET_ALLOW, jt: 0, jf: 0 },
        Instruction { code: RET_K, k: RET_EPERM, jt: 0, jf: 0 },
    ]
}

/// Only the instructions from `at` on matter to a run from there.
proof fn lemma_run_suffix(program: Seq<Instruction>, call: Call, at: int, pc: int, acc: u32)
    requires
        0 <= at <= pc,
        at <= program.len(),
    ensures
        run_from(program, call, pc, acc) == run_from(program.skip(at), call, pc - at, acc),
    decreases left(program, pc),
{
    if pc < program.len() {
        let ins = program[pc];
        assert(program.skip(at)[pc - at] == ins);
        if ins.code == LD_W_ABS {
            if let Some(word) = loaded(call, ins.k) {
                lemma_run_suffix(program, call, at, pc + 1, word);
            }
        } else if ins.code == AND_K {
            lemma_run_suffix(program, call, at, pc + 1, acc & ins.k);
        } else if ins.code == JEQ_K {
            let jump = if acc == ins.k {
                ins.jt as int
            } else {
                ins.jf as int
            };
            lemma_run_suffix(program, call, at, pc + 1 + jump, acc);
        } else if ins.code == JGE_K {
            let jump = if acc >= ins.k {
                ins.jt as int
            } else {
                ins.jf as int
            };
            lemma_run_suffix(program, call, at, pc + 1 + jump, acc);
        }
    }
}

/// The part of the filter after the guard decides as it should, and its last
/// instruction refuses.
proof fn lemma_body(n: Numbers, call: Call)
    requires
        call.arch == n.arch,
        n.socket != n.socketpair,
    ensures
        run_from(body(n), call, 0, call.nr) == Some(decision(n, false, call)),
        run_from(body(n), call, 18, call.nr) == Some(RET_EPERM),
{
    reveal_with_fuel(run_from, 12);
    let b = body(n);
    assert(b.len() == 19);
    assert(run_from(b, call, 17, call.arg0) == Some(RET_ALLOW));
    assert(run_from(b, call, 17, call.arg1 & TYPE_MASK) == Some(RET_ALLOW));
    assert(run_from(b, call, 18, call.nr) == Some(RET_EPERM));
    assert(run_from(b, call, 16, call.arg1 & TYPE_MASK) == Some(RET_EACCES));
    assert(run_from(b, call, 11, call.arg0) == Some(RET_EACCES));
}

/// The filter for an architecture. Jump offsets are relative, so the optional
/// x32 guard does not move any other jump target.
pub fn build(n: Numbers, x32_guard: bool) -> (r: Vec<Instruction>)
    requires
        n.socket != n.socketpair,
    ensures
        forall|call: Call| #[trigger] outcome(r@, call) == Some(decision(n, x32_guard, call)),
        r@.len() == if x32_guard {
            24int
        } else {
            23
        },
{
    let mut filter: Vec<Instruction> = Vec::new();
    filter.push(op(LD_W_ABS, AT_ARCH, 0, 0));
    filter.push(op(JEQ_K, n.arch, 1, 0));
    filter.push(op(RET_K, RET_KILL_PROCESS, 0, 0));
    filter.push(op(LD_W_ABS, AT_NR, 0, 0));
    if x32_guard {
        filter.push(op(JGE_K, X32_FIRST, 18, 0));
    }
    let ghost at = filter@.len() as int;
    filter.push(op(JEQ_K, n.socket, 6, 0));
    filter.push(op(JEQ_K, n.socketpair, 10, 0));
    filter.push(op(JEQ_K, n.io_uring_setup, 15, 0));
    // The caller's session keyring survives the making of namespaces.
    filter.push(op(JEQ_K, n.keyctl, 14, 0));
    filter.push(op(JEQ_K, n.add_key, 13, 0));
    filter.push(op(JEQ_K, n.request_key, 12, 0));
    filter.push(op(RET_K, RET_ALLOW, 0, 0));
    // socket: the domain.
    filter.push(op(LD_W_ABS, AT_ARG0, 0, 0));
    filter.push(op(JEQ_K, AF_INET, 8, 0));
    filter.push(op(JEQ_K, AF_INET6, 7, 0));
    filter.push(op(JEQ_K, AF_NETLINK, 6, 0));
    filter.push(op(RET_K, RET_EACCES, 0, 0));
    // socketpair: the type without its flags.
    filter.push(op(LD_W_ABS, AT_ARG1, 0, 0));
    filter.push(op(AND_K, TYPE_MASK, 0, 0));
    filter.push(op(JEQ_K, SOCK_STREAM, 2, 0));
    filter.push(op(JEQ_K, SOCK_SEQPACKET, 1, 0));
    filter.push(op(RET_K, RET_EACCES, 0, 0));
    filter.push(op(RET_K, RET_ALLOW, 0, 0));
    filter.push(op(RET_K, RET_EPERM, 0, 0));
    proof {
        let f = filter@;
        assert(f.skip(at) =~= body(n));
        assert forall|call: Call| #[trigger] outcome(f, call) == Some(
            decision(n, x32_guard, call),
        ) by {
            reveal_with_fuel(run_from, 5);
            if call.arch == n.arch {
                lemma_body(n, call);
                lemma_run_suffix(f, call, at, at, call.nr);
                lemma_run_suffix(f, call, at, at + 18, call.nr);
                assert(run_from(f, call, 3, call.arch) == run_from(f, call, 4, call.nr));
            } else {
                assert(run_from(f, call, 2, call.arch) == Some(RET_KILL_PROCESS));
            }
        }
    }
    filter
}

/// There is no filter for the architecture.
#[derive(Clone, Copy, Debug, PartialEq, Eq, Structural)]
pub struct Unsupported;

/// The filter to install, or why there is none: execution without a filter is
/// refused.
pub fn socket_filter(target: Architecture) -> (r: Result<Vec<Instruction>, Unsupported>)
    ensures
        match target.numbers() {
            Some(n) => r matches Ok(filter) && forall|call: Call| #[trigger]
                outcome(filter@, call) == Some(
                    decision(n, target == Architecture::X86_64, call),
                ),
            None => r is Err,
        },
{
    match target.call_numbers() {
        Some(n) => Ok(build(n, target == Architecture::X86_64)),
        None => Err(Unsupported),
    }
}

/// The system call is the filter's to refuse with an error: what could open a
/// socket of another family, a pair of another kind, or reach around the filter.
pub open spec fn is_refused(target: Architecture, call: Call) -> bool {
    let (socket, pair, keyctl, add_key, request_key) = match target {
        Architecture::X86_64 => (41u32, 53u32, 250u32, 248u32, 249u32),
        _ => (198u32, 199u32, 219u32, 217u32, 218u32),
    };
    ||| target is X86_64 && call.nr >= 0x4000_0000
    ||| call.nr == socket && call.arg0 != 2 && call.arg0 != 10 && call.arg0 != 16
    ||| call.nr == pair && !is_stream_pair(call.arg1)
    ||| call.nr == 425
    ||| call.nr == keyctl
    ||| call.nr == add_key
    ||| call.nr == request_key
}

/// The pair is of streams or of packets in sequence, whether or not it waits and
/// whether or not it is closed on execution.
pub open spec fn is_stream_pair(kind: u32) -> bool {
    ||| kind == 1
    ||| kind == 0x801
    ||| kind == 0x8_0001
    ||| kind == 0x8_0801
    ||| kind == 5
    ||| kind == 0x805
    ||| kind == 0x8_0005
    ||| kind == 0x8_0805
}

/// A call of another architecture ends the process. Any other call is allowed
/// unless it is refused; then it fails, and where it is about sockets, as one
/// that is not permitted.
pub proof fn law_calls_are_refused_or_allowed(target: Architecture, call: Call)
    requires
        target != Architecture::Other,
    ensures
        target.numbers() is Some,
        ({
            let arch: u32 = if target is X86_64 {
                0xc000_003e
            } else {
                0xc000_00b7
            };
            let answer = decision(
                target.numbers()->Some_0,
                target == Architecture::X86_64,
                call,
            );
            let about_sockets = (if target is X86_64 {
                call.nr == 41 || call.nr == 53
            } else {
                call.nr == 198 || call.nr == 199
            });
            &&& call.arch != arch ==> answer == 0x8000_0000
            &&& call.arch == arch && !is_refused(target, call) ==> answer == 0x7fff_0000
            &&& call.arch == arch && is_refused(target, call) ==> answer == 0x5_0000 + (
            if about_sockets {
                13int
            } else {
                1
            })
        }),
{
    let kind = call.arg1;
    assert(kind & 0xfff7_f7ff == 1 || kind & 0xfff7_f7ff == 5 <==> (kind == 1 || kind == 0x801
        || kind == 0x8_0001 || kind == 0x8_0801 || kind == 5 || kind == 0x805 || kind == 0x8_0005
        || kind == 0x8_0805)) by (bit_vector);
}

/// A filter finds the call's number first in what it is told, then its
/// architecture, and its first two arguments eight bytes apart behind the
/// sixteenth byte.
pub proof fn law_filter_reads_the_call(call: Call, k: u32, rest: Seq<Instruction>)
    ensures
        loaded(call, 0) == Some(call.nr),
        loaded(call, 4) == Some(call.arch),
        loaded(call, 16) == Some(call.arg0),
        loaded(call, 24) == Some(call.arg1),
        k != 0 && k != 4 && k != 16 && k != 24 ==> loaded(call, k) is None,
        outcome(seq![Instruction { code: 6, jt: 0, jf: 0, k }] + rest, call) == Some(k),
        rest.len() == 0 ==> outcome(rest, call) is None,
{
}

} // verus!
