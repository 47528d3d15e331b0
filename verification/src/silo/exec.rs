//! How a command is run in a World.
use vstd::prelude::*;
use vstd::utf8::encode_utf8;
use crate::bytes::{copied, equal, starts_with, SLASH};
use crate::ip::{text_of, Ip};
use crate::path::{are_entry_names, is_entry_name, is_within, join, joined, law_joined_parts, law_relative_names_are_parts, law_within_by_names, parts, parts_of, within};
use crate::run::stdin::check_sigchld;
use crate::run::{command_fault, validate_command, CommandError, Platform, Timeout};
use crate::sys::no_child_wait;
use crate::text::string_of;
use crate::tmp_path::host::{rendered, slashed};

verus! {

/// Why a command is not run in a World.
#[derive(Clone, Copy, Debug, PartialEq, Eq, Structural)]
pub enum ExecError {
    Command(CommandError),
    /// The caller keeps no exit statuses.
    StatusLost,
    NoBackend,
}

impl ExecError {
    /// The error in words.
    pub fn message(self) -> (r: &'static str)
        ensures
            r@ == (match self {
                ExecError::Command(e) => e.words(),
                ExecError::StatusLost => "SIGCHLD must not be ignored; exit statuses would be lost"@,
                ExecError::NoBackend =>
                    "silo backend requires macOS or Linux; refusing unisolated execution"@,
            }),
    {
        match self {
            ExecError::Command(e) => e.message(),
            ExecError::StatusLost => "SIGCHLD must not be ignored; exit statuses would be lost",
            ExecError::NoBackend =>
                "silo backend requires macOS or Linux; refusing unisolated execution",
        }
    }
}

/// Whether a command may be run in a World. `ignored` and `flags` are what the
/// caller does about the end of its children.
pub fn exec(
    command: &[Vec<u8>],
    timeout: Timeout,
    ignored: bool,
    flags: i32,
    platform: Platform,
) -> (r: Result<(), ExecError>)
    ensures
        r == if command_fault(command@, timeout) is Some {
            Err(ExecError::Command(command_fault(command@, timeout)->Some_0))
        } else if ignored || flags & no_child_wait(platform) != 0 {
            Err(ExecError::StatusLost)
        } else if platform is Other {
            Err(ExecError::NoBackend)
        } else {
            Ok::<(), ExecError>(())
        },
        r is Ok <==> command_fault(command@, timeout) is None && !ignored && match platform {
            Platform::Mac => flags & 0x20 == 0,
            Platform::Linux => flags & 2 == 0,
            Platform::Other => false,
        },
{
    if let Err(e) = validate_command(command, timeout) {
        return Err(ExecError::Command(e));
    }
    if check_sigchld(ignored, flags, platform).is_err() {
        return Err(ExecError::StatusLost);
    }
    match platform {
        Platform::Other => Err(ExecError::NoBackend),
        _ => Ok(()),
    }
}

/// A variable of the environment.
pub struct Variable {
    pub name: Vec<u8>,
    pub value: Vec<u8>,
}

impl View for Variable {
    type V = (Seq<u8>, Seq<u8>);

    open spec fn view(&self) -> (Seq<u8>, Seq<u8>) {
        (self.name@, self.value@)
    }
}

/// What some variables hold.
pub open spec fn variables(env: Seq<Variable>) -> Seq<(Seq<u8>, Seq<u8>)> {
    Seq::new(env.len(), |i: int| env[i]@)
}

/// Whether a variable is passed on: it is not set anew, and where a library is
/// injected, it has nothing to do with that.
pub open spec fn is_kept(name: Seq<u8>, injected: bool) -> bool {
    &&& name != encode_utf8("WORLD_ID"@)
    &&& injected ==> !encode_utf8("DYLD_"@).is_prefix_of(name) && !encode_utf8(
        "SILO_"@,
    ).is_prefix_of(name) && !encode_utf8("WORLD_SILO_"@).is_prefix_of(name)
}

/// The variables that are passed on.
pub open spec fn kept(env: Seq<(Seq<u8>, Seq<u8>)>, injected: bool) -> Seq<(Seq<u8>, Seq<u8>)> {
    env.filter(|v: (Seq<u8>, Seq<u8>)| is_kept(v.0, injected))
}

fn keeps(name: &[u8], injected: bool) -> (r: bool)
    ensures
        r == is_kept(name@, injected),
{
    if equal(name, "WORLD_ID".as_bytes()) {
        return false;
    }
    !injected || !(starts_with(name, "DYLD_".as_bytes()) || starts_with(name, "SILO_".as_bytes())
        || starts_with(name, "WORLD_SILO_".as_bytes()))
}

fn set(env: &mut Vec<Variable>, name: &str, value: &[u8])
    ensures
        variables(final(env)@) == variables(old(env)@).push((encode_utf8(name@), value@)),
{
    let ghost before = env@;
    env.push(Variable { name: copied(name.as_bytes()), value: copied(value) });
    proof {
        assert(variables(env@) =~= variables(before).push((encode_utf8(name@), value@)));
    }
}

fn pass_on(inherited: &[Variable], injected: bool) -> (r: Vec<Variable>)
    ensures
        variables(r@) == kept(variables(inherited@), injected),
{
    let ghost all = variables(inherited@);
    let ghost pred = |v: (Seq<u8>, Seq<u8>)| is_kept(v.0, injected);
    let mut r: Vec<Variable> = Vec::new();
    let mut i: usize = 0;
    proof {
        reveal(Seq::filter);
        assert(all.take(0) =~= Seq::empty());
        assert(variables(r@) =~= all.take(0).filter(pred));
    }
    while i < inherited.len()
        invariant
            i <= inherited@.len(),
            all == variables(inherited@),
            pred == (|v: (Seq<u8>, Seq<u8>)| is_kept(v.0, injected)),
            variables(r@) == all.take(i as int).filter(pred),
        decreases inherited@.len() - i,
    {
        let ghost before = variables(r@);
        let ghost done = all.take(i as int);
        let v = &inherited[i];
        proof {
            reveal(Seq::filter);
            assert(all.take(i + 1).drop_last() =~= done);
            assert(all.take(i + 1).last() == v@);
        }
        if keeps(&v.name, injected) {
            r.push(Variable { name: copied(&v.name), value: copied(&v.value) });
            proof {
                assert(variables(r@) =~= before.push(v@));
            }
        }
        i = i + 1;
    }
    proof {
        assert(all.take(i as int) =~= all);
    }
    r
}

/// The caller's variables, with the World's name among them.
pub open spec fn world_variables(inherited: Seq<(Seq<u8>, Seq<u8>)>, id: Seq<char>) -> Seq<
    (Seq<u8>, Seq<u8>),
> {
    kept(inherited, false).push((encode_utf8("WORLD_ID"@), encode_utf8(id)))
}

/// The environment of a command in a World's network namespace: the caller's,
/// with the World's name in it.
pub fn world_environment(inherited: &[Variable], id: &str) -> (r: Vec<Variable>)
    ensures
        variables(r@) == world_variables(variables(inherited@), id@),
{
    let mut r = pass_on(inherited, false);
    set(&mut r, "WORLD_ID", id.as_bytes());
    r
}

/// A variable's name is one that tells an injected library its World, or may
/// keep one from being injected.
pub open spec fn names_injection(name: Seq<u8>) -> bool {
    ||| name.len() >= 5 && name.take(5) == encode_utf8("DYLD_"@)
    ||| name.len() >= 5 && name.take(5) == encode_utf8("SILO_"@)
    ||| name.len() >= 11 && name.take(11) == encode_utf8("WORLD_SILO_"@)
}

/// Every variable of the caller is passed on with its value and in its place,
/// unless it is the World's own name; where a library is injected, also unless
/// it has to do with that. None is added, and what becomes of one does not
/// depend on the others.
pub proof fn law_variables_are_passed_on(
    before: Seq<(Seq<u8>, Seq<u8>)>,
    v: (Seq<u8>, Seq<u8>),
    after: Seq<(Seq<u8>, Seq<u8>)>,
    injected: bool,
)
    ensures
        kept(Seq::empty(), injected) == Seq::<(Seq<u8>, Seq<u8>)>::empty(),
        kept(before + seq![v] + after, injected) == kept(before, injected) + (if v.0
            != encode_utf8("WORLD_ID"@) && !(injected && names_injection(v.0)) {
            seq![v]
        } else {
            Seq::empty()
        }) + kept(after, injected),
{
    let pred = |v: (Seq<u8>, Seq<u8>)| is_kept(v.0, injected);
    Seq::<(Seq<u8>, Seq<u8>)>::filter_distributes_over_add(before + seq![v], after, pred);
    Seq::<(Seq<u8>, Seq<u8>)>::filter_distributes_over_add(before, seq![v], pred);
    reveal(Seq::filter);
    assert(seq![v].drop_last() =~= Seq::<(Seq<u8>, Seq<u8>)>::empty());
    assert(seq![v].drop_last().filter(pred) =~= Seq::<(Seq<u8>, Seq<u8>)>::empty());
    assert(seq![v].filter(pred) =~= if pred(v) {
        seq![v]
    } else {
        Seq::empty()
    });
    lemma_prefix_names();
    assert(is_kept(v.0, injected) == (v.0 != encode_utf8("WORLD_ID"@) && !(injected
        && names_injection(v.0)))) by {
        let name = v.0;
        assert(name.len() >= 5 ==> name.take(5) =~= name.subrange(0, 5));
        assert(name.len() >= 11 ==> name.take(11) =~= name.subrange(0, 11));
    }
}

/// How long the names are that an injected library's begin with.
proof fn lemma_prefix_names()
    ensures
        encode_utf8("DYLD_"@).len() == 5,
        encode_utf8("SILO_"@).len() == 5,
        encode_utf8("WORLD_SILO_"@).len() == 11,
{
    reveal_strlit("DYLD_");
    reveal_strlit("SILO_");
    reveal_strlit("WORLD_SILO_");
    vstd::utf8::is_ascii_chars_encode_utf8("DYLD_"@);
    vstd::utf8::is_ascii_chars_encode_utf8("SILO_"@);
    vstd::utf8::is_ascii_chars_encode_utf8("WORLD_SILO_"@);
}

/// What tells an injected library its World.
pub open spec fn injection(
    library: Seq<u8>,
    ip: Seq<char>,
    ack: Seq<u8>,
    id: Seq<char>,
) -> Seq<(Seq<u8>, Seq<u8>)> {
    seq![
        (encode_utf8("DYLD_INSERT_LIBRARIES"@), library),
        (encode_utf8("SILO_IP"@), encode_utf8(ip)),
        (encode_utf8("SILO_CONNECT"@), encode_utf8("1"@)),
        (encode_utf8("WORLD_SILO_ACTIVE"@), encode_utf8("1"@)),
        (encode_utf8("WORLD_SILO_ACK"@), ack),
        (encode_utf8("WORLD_ID"@), encode_utf8(id)),
    ]
}

/// The caller's variables, with what tells an injected library its World among
/// them.
pub open spec fn injected_variables(
    inherited: Seq<(Seq<u8>, Seq<u8>)>,
    library: Seq<u8>,
    ip: Seq<char>,
    ack: Seq<u8>,
    id: Seq<char>,
) -> Seq<(Seq<u8>, Seq<u8>)> {
    kept(inherited, true) + injection(library, ip, ack, id)
}

/// The environment of a command that a library is injected into.
pub fn injected_environment(
    inherited: &[Variable],
    library: &[u8],
    ip: [u8; 4],
    ack: &[u8],
    id: &str,
) -> (r: Vec<Variable>)
    ensures
        variables(r@) == injected_variables(
            variables(inherited@),
            library@,
            text_of(Ip::V4(ip)@),
            ack@,
            id@,
        ),
{
    let mut r = pass_on(inherited, true);
    let ghost before = variables(r@);
    let address = string_of(&Ip::V4(ip).text());
    set(&mut r, "DYLD_INSERT_LIBRARIES", library);
    set(&mut r, "SILO_IP", address.as_str().as_bytes());
    set(&mut r, "SILO_CONNECT", "1".as_bytes());
    set(&mut r, "WORLD_SILO_ACTIVE", "1".as_bytes());
    set(&mut r, "WORLD_SILO_ACK", ack);
    set(&mut r, "WORLD_ID", id.as_bytes());
    proof {
        assert(variables(r@) =~= before + injection(
            library@,
            text_of(Ip::V4(ip)@),
            ack@,
            id@,
        ));
    }
    r
}

/// `:`
pub const COLON: u8 = 58;

/// Where the entry of a search path that starts at `pos` ends.
pub open spec fn entry_end(s: Seq<u8>, pos: int) -> int
    decreases s.len() - pos,
{
    if pos >= s.len() || s[pos] == COLON {
        pos
    } else {
        entry_end(s, pos + 1)
    }
}

/// The entries of a search path from `pos` on: one more than it has colons.
pub open spec fn entries_from(s: Seq<u8>, pos: int) -> Seq<Seq<u8>>
    decreases s.len() - pos,
    when 0 <= pos <= s.len()
    via entries_decrease
{
    let end = entry_end(s, pos);
    if end < s.len() {
        seq![s.subrange(pos, end)] + entries_from(s, end + 1)
    } else {
        seq![s.subrange(pos, end)]
    }
}

#[via_fn]
proof fn entries_decrease(s: Seq<u8>, pos: int) {
    lemma_entry_end(s, pos);
}

proof fn lemma_entry_end(s: Seq<u8>, pos: int)
    requires
        0 <= pos <= s.len(),
    ensures
        pos <= entry_end(s, pos) <= s.len(),
    decreases s.len() - pos,
{
    if pos < s.len() && s[pos] != COLON {
        lemma_entry_end(s, pos + 1);
    }
}

/// Where a program may be: a name with a directory in it, or an absolute one, is
/// taken from the workspace; any other is looked for along the search path,
/// whose entries are taken from the workspace too.
pub open spec fn places(name: Seq<u8>, workdir: Seq<u8>, search: Seq<u8>) -> Seq<Seq<u8>> {
    if parts(name).len() > 1 || (name.len() > 0 && name[0] == SLASH) {
        seq![joined(workdir, name)]
    } else {
        entries_from(search, 0).map_values(
            |entry: Seq<u8>| joined(joined(workdir, entry), name),
        )
    }
}

/// What some paths hold.
pub open spec fn paths(r: Seq<Vec<u8>>) -> Seq<Seq<u8>> {
    Seq::new(r.len(), |i: int| r[i]@)
}

/// Where a program may be, and whether it is to be looked for there.
pub fn program_places(name: &[u8], workdir: &[u8], search: &[u8]) -> (r: (bool, Vec<Vec<u8>>))
    ensures
        r.0 == !(parts(name@).len() > 1 || (name@.len() > 0 && name@[0] == SLASH)),
        paths(r.1@) == places(name@, workdir@, search@),
{
    let named = parts_of(name);
    proof {
        assert(parts(name@).len() == named@.len());
    }
    let mut r: Vec<Vec<u8>> = Vec::new();
    if named.len() > 1 || (name.len() > 0 && name[0] == SLASH) {
        r.push(join(workdir, name));
        proof {
            assert(paths(r@) =~= places(name@, workdir@, search@));
        }
        return (false, r);
    }
    let ghost place = |entry: Seq<u8>| joined(joined(workdir@, entry), name@);
    let mut pos: usize = 0;
    let mut more = true;
    proof {
        assert(paths(r@) + entries_from(search@, 0).map_values(place) =~= places(
            name@,
            workdir@,
            search@,
        ));
    }
    while more
        invariant
            more ==> pos <= search@.len(),
            place == (|entry: Seq<u8>| joined(joined(workdir@, entry), name@)),
            paths(r@) + (if more {
                entries_from(search@, pos as int).map_values(place)
            } else {
                Seq::empty()
            }) == places(name@, workdir@, search@),
        decreases
                (if more {
                    search@.len() - pos + 1
                } else {
                    0
                }),
    {
        let mut end: usize = pos;
        while end < search.len() && search[end] != COLON
            invariant
                pos <= end <= search@.len(),
                entry_end(search@, pos as int) == entry_end(search@, end as int),
            decreases search@.len() - end,
        {
            end = end + 1;
        }
        let entry = &search[pos..end];
        let ghost before = paths(r@);
        let dir = join(workdir, entry);
        r.push(join(&dir, name));
        proof {
            assert(end == entry_end(search@, pos as int));
            assert(paths(r@) =~= before.push(place(entry@)));
            let all = entries_from(search@, pos as int);
            let rest = if end < search@.len() {
                entries_from(search@, end + 1)
            } else {
                Seq::empty()
            };
            assert(all =~= seq![entry@] + rest);
            assert(all.map_values(place) =~= seq![place(entry@)] + rest.map_values(place));
            assert(before + all.map_values(place) =~= paths(r@) + rest.map_values(place));
            assert(Seq::<Seq<u8>>::empty().map_values(place) =~= Seq::empty());
        }
        if end < search.len() {
            pos = end + 1;
        } else {
            more = false;
        }
    }
    proof {
        assert(paths(r@) =~= places(name@, workdir@, search@));
    }
    (true, r)
}

/// Why no library can be injected into a program.
#[derive(Clone, Copy, Debug, PartialEq, Eq, Structural)]
pub enum ProgramError {
    /// The system protects it.
    Protected,
    /// It changes its user or group.
    Privileged,
    /// It is a script, or too short for a program.
    Script,
    Format,
}

impl ProgramError {
    /// The error in words; the protected program's name stands between two
    /// parts.
    pub fn message(self) -> (r: (&'static str, &'static str))
        ensures
            (r.0@, r.1@) == (match self {
                ProgramError::Protected => (
                    "SIP-protected executable unsupported: "@,
                    "; use a non-SIP toolchain"@,
                ),
                ProgramError::Privileged => (
                    "privileged executable unsupported: setuid/setgid can suppress silo injection"@,
                    ""@,
                ),
                ProgramError::Script => (
                    "use an explicit native, non-SIP interpreter for scripts"@,
                    ""@,
                ),
                ProgramError::Format => ("unsupported executable format"@, ""@),
            }),
    {
        match self {
            ProgramError::Protected => (
                "SIP-protected executable unsupported: ",
                "; use a non-SIP toolchain",
            ),
            ProgramError::Privileged => (
                "privileged executable unsupported: setuid/setgid can suppress silo injection",
                "",
            ),
            ProgramError::Script => ("use an explicit native, non-SIP interpreter for scripts", ""),
            ProgramError::Format => ("unsupported executable format", ""),
        }
    }
}

/// Whether the system protects a program against injection.
pub open spec fn is_protected(path: Seq<u8>) -> bool {
    ||| is_within(path, encode_utf8("/bin"@))
    ||| is_within(path, encode_utf8("/sbin"@))
    ||| is_within(path, encode_utf8("/usr/bin"@))
    ||| is_within(path, encode_utf8("/usr/sbin"@))
    ||| is_within(path, encode_utf8("/System"@))
}

/// Fewest bytes that a program begins with.
pub const MIN_HEADER: usize = 28;

/// The bits of a mode that change the user or the group.
pub const SET_ID: u32 = 0o6000;

/// Whether a program's first four bytes are those of a native one: for either
/// word size, or for several machines.
pub open spec fn is_native(header: Seq<u8>) -> bool {
    let start = header.take(4);
    ||| start == seq![0xcfu8, 0xfa, 0xed, 0xfe]
    ||| start == seq![0xceu8, 0xfa, 0xed, 0xfe]
    ||| start == seq![0xcau8, 0xfe, 0xba, 0xbe]
    ||| start == seq![0xbeu8, 0xba, 0xfe, 0xca]
}

/// What keeps a library from being injected into a program, if anything.
pub open spec fn program_fault(path: Seq<u8>, mode: u32, header: Seq<u8>) -> Option<ProgramError> {
    if is_protected(path) {
        Some(ProgramError::Protected)
    } else if mode & SET_ID != 0 {
        Some(ProgramError::Privileged)
    } else if header.len() < MIN_HEADER || header.take(2) == seq![35u8, 33] {
        Some(ProgramError::Script)
    } else if !is_native(header) {
        Some(ProgramError::Format)
    } else {
        None
    }
}

/// Whether a library can be injected into a program, given its canonical name,
/// its mode and its first bytes.
pub fn resolve_executable(path: &[u8], mode: u32, header: &[u8]) -> (r: Result<(), ProgramError>)
    ensures
        r == match program_fault(path@, mode, header@) {
            Some(fault) => Err(fault),
            None => Ok::<(), ProgramError>(()),
        },
{
    if within(path, "/bin".as_bytes()) || within(path, "/sbin".as_bytes()) || within(
        path,
        "/usr/bin".as_bytes(),
    ) || within(path, "/usr/sbin".as_bytes()) || within(path, "/System".as_bytes()) {
        return Err(ProgramError::Protected);
    }
    if mode & SET_ID != 0 {
        return Err(ProgramError::Privileged);
    }
    if header.len() < MIN_HEADER {
        return Err(ProgramError::Script);
    }
    let script: [u8; 2] = [35, 33];
    proof {
        assert(script@ =~= seq![35u8, 33]);
        assert(header@.take(2) =~= header@.subrange(0, 2));
        assert(header@.take(4) =~= header@.subrange(0, 4));
    }
    if equal(&header[0..2], &script) {
        return Err(ProgramError::Script);
    }
    let start = &header[0..4];
    let wide: [u8; 4] = [0xcf, 0xfa, 0xed, 0xfe];
    let narrow: [u8; 4] = [0xce, 0xfa, 0xed, 0xfe];
    let many: [u8; 4] = [0xca, 0xfe, 0xba, 0xbe];
    let swapped: [u8; 4] = [0xbe, 0xba, 0xfe, 0xca];
    proof {
        assert(wide@ =~= seq![0xcfu8, 0xfa, 0xed, 0xfe]);
        assert(narrow@ =~= seq![0xceu8, 0xfa, 0xed, 0xfe]);
        assert(many@ =~= seq![0xcau8, 0xfe, 0xba, 0xbe]);
        assert(swapped@ =~= seq![0xbeu8, 0xba, 0xfe, 0xca]);
    }
    if equal(start, &wide) || equal(start, &narrow) || equal(start, &many) || equal(
        start,
        &swapped,
    ) {
        Ok(())
    } else {
        Err(ProgramError::Format)
    }
}

/// A search path is the entries that colons part: one entry is itself, and what
/// follows a colon is a search path of its own.
pub proof fn law_colons_part_entries(entry: Seq<u8>, rest: Seq<u8>)
    requires
        !entry.contains(58u8),
    ensures
        entries_from(entry, 0) == seq![entry],
        entries_from(entry + seq![58u8] + rest, 0) == seq![entry] + entries_from(rest, 0),
{
    let n = entry.len() as int;
    let s = entry + seq![58u8] + rest;
    assert forall|i: int| 0 <= i < n implies #[trigger] entry[i] != COLON by {
        assert(entry.contains(entry[i]));
    }
    lemma_entry_end_is(entry, 0, n);
    assert(entry.subrange(0, n) =~= entry);
    lemma_entry_end_is(s, 0, n);
    assert(s.subrange(0, n) =~= entry);
    lemma_entries_suffix(s, n + 1);
    assert(s.skip(n + 1) =~= rest);
}

/// An entry ends where the first colon is.
proof fn lemma_entry_end_is(s: Seq<u8>, pos: int, end: int)
    requires
        0 <= pos <= end <= s.len(),
        end < s.len() ==> s[end] == COLON,
        forall|i: int| pos <= i < end ==> s[i] != COLON,
    ensures
        entry_end(s, pos) == end,
    decreases end - pos,
{
    if pos < end {
        lemma_entry_end_is(s, pos + 1, end);
    }
}

/// Entries do not depend on what stands before them.
proof fn lemma_entries_suffix(s: Seq<u8>, pos: int)
    requires
        0 <= pos <= s.len(),
    ensures
        entries_from(s, pos) == entries_from(s.skip(pos), 0),
    decreases s.len() - pos,
{
    let t = s.skip(pos);
    lemma_entry_end(s, pos);
    let end = entry_end(s, pos);
    lemma_entry_end_parts(s, pos);
    lemma_entry_end_is(t, 0, end - pos);
    assert(t.subrange(0, end - pos) =~= s.subrange(pos, end));
    if end < s.len() {
        lemma_entries_suffix(s, end + 1);
        lemma_entries_suffix(t, end - pos + 1);
        assert(t.skip(end - pos + 1) =~= s.skip(end + 1));
    }
}

/// No colon stands in an entry, and one ends it.
proof fn lemma_entry_end_parts(s: Seq<u8>, pos: int)
    requires
        0 <= pos <= s.len(),
    ensures
        entry_end(s, pos) < s.len() ==> s[entry_end(s, pos)] == COLON,
        forall|i: int| pos <= i < entry_end(s, pos) ==> s[i] != COLON,
    decreases s.len() - pos,
{
    if pos < s.len() && s[pos] != COLON {
        lemma_entry_end_parts(s, pos + 1);
    }
}

/// A program's name that names no directory is looked for in the entries of the
/// search path, in their order; one that names a directory is looked for in the
/// workspace alone, and an absolute one nowhere but where it says.
pub proof fn law_program_is_searched(
    dir: Seq<u8>,
    name: Seq<u8>,
    workdir: Seq<u8>,
    entry: Seq<u8>,
    rest: Seq<u8>,
)
    requires
        is_entry_name(dir),
        is_entry_name(name),
        workdir.len() > 0,
        !entry.contains(58u8),
    ensures
        places(name, workdir, entry) == seq![joined(joined(workdir, entry), name)],
        places(name, workdir, entry + seq![58u8] + rest) == places(name, workdir, entry)
            + places(name, workdir, rest),
        places(dir + seq![47u8] + name, workdir, rest) == seq![
            joined(workdir, dir + seq![47u8] + name),
        ],
        places(seq![47u8] + name, workdir, rest) == seq![seq![47u8] + name],
{
    let place = |entry: Seq<u8>| joined(joined(workdir, entry), name);
    law_colons_part_entries(entry, rest);
    law_relative_names_are_parts(seq![name]);
    law_relative_names_are_parts(seq![dir, name]);
    reveal_with_fuel(slashed, 3);
    assert(seq![name].drop_last() =~= Seq::<Seq<u8>>::empty());
    assert(seq![dir, name].drop_last() =~= seq![dir]);
    assert(seq![dir].drop_last() =~= Seq::<Seq<u8>>::empty());
    assert(slashed(seq![name]).skip(1) =~= name);
    assert(slashed(seq![dir, name]).skip(1) =~= dir + seq![47u8] + name);
    assert(name[0] != SLASH) by {
        assert(name.contains(name[0]));
    }
    assert(seq![entry].map_values(place) =~= seq![place(entry)]);
    assert((seq![entry] + entries_from(rest, 0)).map_values(place) =~= seq![entry].map_values(place)
        + entries_from(rest, 0).map_values(place));
    assert((seq![47u8] + name)[0] == SLASH);
    law_joined_parts(workdir, seq![47u8] + name);
}

/// The system protects what lies in `/bin`, `/sbin`, `/System`, `/usr/bin` and
/// `/usr/sbin`, and nothing else.
pub proof fn law_protected_by_names(names: Seq<Seq<u8>>)
    requires
        are_entry_names(names),
    ensures
        is_protected(rendered(names)) <==> {
            ||| names.len() >= 1 && names[0] == encode_utf8("bin"@)
            ||| names.len() >= 1 && names[0] == encode_utf8("sbin"@)
            ||| names.len() >= 1 && names[0] == encode_utf8("System"@)
            ||| names.len() >= 2 && names[0] == encode_utf8("usr"@) && names[1] == encode_utf8(
                "bin"@,
            )
            ||| names.len() >= 2 && names[0] == encode_utf8("usr"@) && names[1] == encode_utf8(
                "sbin"@,
            )
        },
{
    reveal_strlit("bin");
    reveal_strlit("sbin");
    reveal_strlit("usr");
    reveal_strlit("System");
    reveal_strlit("/bin");
    reveal_strlit("/sbin");
    reveal_strlit("/usr/bin");
    reveal_strlit("/usr/sbin");
    reveal_strlit("/System");
    vstd::utf8::is_ascii_chars_encode_utf8("bin"@);
    vstd::utf8::is_ascii_chars_encode_utf8("sbin"@);
    vstd::utf8::is_ascii_chars_encode_utf8("usr"@);
    vstd::utf8::is_ascii_chars_encode_utf8("System"@);
    vstd::utf8::is_ascii_chars_encode_utf8("/bin"@);
    vstd::utf8::is_ascii_chars_encode_utf8("/sbin"@);
    vstd::utf8::is_ascii_chars_encode_utf8("/usr/bin"@);
    vstd::utf8::is_ascii_chars_encode_utf8("/usr/sbin"@);
    vstd::utf8::is_ascii_chars_encode_utf8("/System"@);
    let bin = encode_utf8("bin"@);
    let sbin = encode_utf8("sbin"@);
    let usr = encode_utf8("usr"@);
    let system = encode_utf8("System"@);
    assert(bin =~= seq![98u8, 105, 110]);
    assert(sbin =~= seq![115u8, 98, 105, 110]);
    assert(usr =~= seq![117u8, 115, 114]);
    assert(system =~= seq![83u8, 121, 115, 116, 101, 109]);
    lemma_within_one(names, bin, encode_utf8("/bin"@));
    lemma_within_one(names, sbin, encode_utf8("/sbin"@));
    lemma_within_one(names, system, encode_utf8("/System"@));
    lemma_within_two(names, usr, bin, encode_utf8("/usr/bin"@));
    lemma_within_two(names, usr, sbin, encode_utf8("/usr/sbin"@));
}

proof fn lemma_within_one(names: Seq<Seq<u8>>, top: Seq<u8>, dir: Seq<u8>)
    requires
        are_entry_names(names),
        is_entry_name(top),
        dir =~= seq![47u8] + top,
    ensures
        is_within(rendered(names), dir) <==> names.len() >= 1 && names[0] == top,
{
    let d = seq![top];
    reveal_with_fuel(slashed, 2);
    assert(d.drop_last() =~= Seq::<Seq<u8>>::empty());
    assert(rendered(d) =~= dir);
    law_within_by_names(names, d);
    if names.len() >= 1 && names[0] == top {
        assert forall|i: int| 0 <= i < d.len() implies #[trigger] d[i] == names[i] by {}
    } else if is_within(rendered(names), dir) {
        assert(d[0] == names[0]);
    }
}

proof fn lemma_within_two(names: Seq<Seq<u8>>, top: Seq<u8>, next: Seq<u8>, dir: Seq<u8>)
    requires
        are_entry_names(names),
        is_entry_name(top),
        is_entry_name(next),
        dir =~= seq![47u8] + top + seq![47u8] + next,
    ensures
        is_within(rendered(names), dir) <==> names.len() >= 2 && names[0] == top && names[1]
            == next,
{
    let d = seq![top, next];
    reveal_with_fuel(slashed, 3);
    assert(d.drop_last() =~= seq![top]);
    assert(seq![top].drop_last() =~= Seq::<Seq<u8>>::empty());
    assert(rendered(d) =~= dir);
    law_within_by_names(names, d);
    if names.len() >= 2 && names[0] == top && names[1] == next {
        assert forall|i: int| 0 <= i < d.len() implies #[trigger] d[i] == names[i] by {}
    } else if is_within(rendered(names), dir) {
        assert(d[0] == names[0]);
        assert(d[1] == names[1]);
    }
}

/// A library is injected exactly into a native program that the system does not
/// protect and that changes neither user nor group; a script is none.
pub proof fn law_native_programs_are_accepted(names: Seq<Seq<u8>>, mode: u32, header: Seq<u8>)
    requires
        are_entry_names(names),
    ensures
        ({
            let fault = program_fault(rendered(names), mode, header);
            let first = |a: u8, b: u8, c: u8, d: u8|
                header[0] == a && header[1] == b && header[2] == c && header[3] == d;
            let native = first(0xcf, 0xfa, 0xed, 0xfe) || first(0xce, 0xfa, 0xed, 0xfe) || first(
                0xca,
                0xfe,
                0xba,
                0xbe,
            ) || first(0xbe, 0xba, 0xfe, 0xca);
            let free = !is_protected(rendered(names));
            let plain = mode & 0x800 == 0 && mode & 0x400 == 0;
            &&& fault is None <==> free && plain && header.len() >= 28 && native
            &&& fault == Some(ProgramError::Protected) <==> !free
            &&& fault == Some(ProgramError::Privileged) <==> free && !plain
            &&& fault == Some(ProgramError::Script) <==> free && plain && (header.len() < 28 || (
            header[0] == 35 && header[1] == 33))
        }),
{
    assert(mode & SET_ID != 0 <==> mode & 0x800 != 0 || mode & 0x400 != 0) by (bit_vector);
    if header.len() >= 28 {
        let start = header.take(4);
        assert(start.len() == 4);
        assert(forall|i: int| 0 <= i < 4 ==> start[i] == header[i]);
        assert(start =~= seq![header[0], header[1], header[2], header[3]]);
        assert(header.take(2) =~= seq![header[0], header[1]]);
        assert(seq![35u8, 33][0] == 35 && seq![35u8, 33][1] == 33);
        let a = seq![0xcfu8, 0xfa, 0xed, 0xfe];
        let b = seq![0xceu8, 0xfa, 0xed, 0xfe];
        let c = seq![0xcau8, 0xfe, 0xba, 0xbe];
        let d = seq![0xbeu8, 0xba, 0xfe, 0xca];
        assert(a[0] == 0xcf && a[1] == 0xfa && a[2] == 0xed && a[3] == 0xfe);
        assert(b[0] == 0xce && b[1] == 0xfa && b[2] == 0xed && b[3] == 0xfe);
        assert(c[0] == 0xca && c[1] == 0xfe && c[2] == 0xba && c[3] == 0xbe);
        assert(d[0] == 0xbe && d[1] == 0xba && d[2] == 0xfe && d[3] == 0xca);
    }
}

/// What a variable is set to last, if it is set.
pub open spec fn variable_of(env: Seq<(Seq<u8>, Seq<u8>)>, name: Seq<u8>) -> Option<Seq<u8>>
    decreases env.len(),
{
    if env.len() == 0 {
        None
    } else if env.last().0 == name {
        Some(env.last().1)
    } else {
        variable_of(env.drop_last(), name)
    }
}

/// A command finds its World's name in its environment, whatever the caller had
/// there, and every other variable as the caller had it.
pub proof fn law_world_is_named(
    inherited: Seq<(Seq<u8>, Seq<u8>)>,
    id: Seq<char>,
    name: Seq<u8>,
)
    ensures
        variable_of(world_variables(inherited, id), name) == if name == encode_utf8("WORLD_ID"@) {
            Some(encode_utf8(id))
        } else {
            variable_of(inherited, name)
        },
        world_variables(inherited, id).len() <= inherited.len() + 1,
{
    let all = kept(inherited, false);
    let env = world_variables(inherited, id);
    lemma_kept_variable(inherited, false, name);
    assert(env.drop_last() =~= all);
    inherited.lemma_filter_len(|v: (Seq<u8>, Seq<u8>)| is_kept(v.0, false));
}

/// An injected library is told its World by variables that nothing inherited
/// stands beside, and every variable that has nothing to do with it is as the
/// caller had it.
pub proof fn law_injection_is_told(
    inherited: Seq<(Seq<u8>, Seq<u8>)>,
    library: Seq<u8>,
    ip: Seq<char>,
    ack: Seq<u8>,
    id: Seq<char>,
    name: Seq<u8>,
)
    ensures
        ({
            let env = injected_variables(inherited, library, ip, ack, id);
            &&& variable_of(env, encode_utf8("DYLD_INSERT_LIBRARIES"@)) == Some(library)
            &&& variable_of(env, encode_utf8("SILO_IP"@)) == Some(encode_utf8(ip))
            &&& variable_of(env, encode_utf8("SILO_CONNECT"@)) == Some(encode_utf8("1"@))
            &&& variable_of(env, encode_utf8("WORLD_SILO_ACTIVE"@)) == Some(encode_utf8("1"@))
            &&& variable_of(env, encode_utf8("WORLD_SILO_ACK"@)) == Some(ack)
            &&& variable_of(env, encode_utf8("WORLD_ID"@)) == Some(encode_utf8(id))
            &&& !names_injection(name) && name != encode_utf8("WORLD_ID"@) ==> variable_of(
                env,
                name,
            ) == variable_of(inherited, name)
            &&& names_injection(name) && name != encode_utf8("DYLD_INSERT_LIBRARIES"@) && name
                != encode_utf8("SILO_IP"@) && name != encode_utf8("SILO_CONNECT"@) && name
                != encode_utf8("WORLD_SILO_ACTIVE"@) && name != encode_utf8("WORLD_SILO_ACK"@)
                ==> variable_of(env, name) is None
        }),
{
    let env = injected_variables(inherited, library, ip, ack, id);
    let all = kept(inherited, true);
    let told = injection(library, ip, ack, id);
    lemma_told_names();
    let n = all.len() as int;
    assert(forall|i: int| n <= i < env.len() ==> #[trigger] env[i] == told[i - n]);
    lemma_variable_of(env, encode_utf8("DYLD_INSERT_LIBRARIES"@), n);
    lemma_variable_of(env, encode_utf8("SILO_IP"@), n + 1);
    lemma_variable_of(env, encode_utf8("SILO_CONNECT"@), n + 2);
    lemma_variable_of(env, encode_utf8("WORLD_SILO_ACTIVE"@), n + 3);
    lemma_variable_of(env, encode_utf8("WORLD_SILO_ACK"@), n + 4);
    lemma_variable_of(env, encode_utf8("WORLD_ID"@), n + 5);
    lemma_kept_variable(inherited, true, name);
    if name != encode_utf8("DYLD_INSERT_LIBRARIES"@) && name != encode_utf8("SILO_IP"@) && name
        != encode_utf8("SILO_CONNECT"@) && name != encode_utf8("WORLD_SILO_ACTIVE"@) && name
        != encode_utf8("WORLD_SILO_ACK"@) && name != encode_utf8("WORLD_ID"@) {
        lemma_not_told(all, told, name);
    }
}

/// What the variables are called that an injected library reads: no two alike,
/// and each by how it begins.
proof fn lemma_told_names()
    ensures
        ({
            let library = encode_utf8("DYLD_INSERT_LIBRARIES"@);
            let ip = encode_utf8("SILO_IP"@);
            let connect = encode_utf8("SILO_CONNECT"@);
            let active = encode_utf8("WORLD_SILO_ACTIVE"@);
            let ack = encode_utf8("WORLD_SILO_ACK"@);
            let id = encode_utf8("WORLD_ID"@);
            &&& library.len() == 21 && ip.len() == 7 && connect.len() == 12
            &&& active.len() == 17 && ack.len() == 14 && id.len() == 8
            &&& names_injection(library) && names_injection(ip) && names_injection(connect)
            &&& names_injection(active) && names_injection(ack) && !names_injection(id)
        }),
{
    reveal_strlit("DYLD_INSERT_LIBRARIES");
    reveal_strlit("SILO_IP");
    reveal_strlit("SILO_CONNECT");
    reveal_strlit("WORLD_SILO_ACTIVE");
    reveal_strlit("WORLD_SILO_ACK");
    reveal_strlit("WORLD_ID");
    reveal_strlit("DYLD_");
    reveal_strlit("SILO_");
    reveal_strlit("WORLD_SILO_");
    vstd::utf8::is_ascii_chars_encode_utf8("DYLD_INSERT_LIBRARIES"@);
    vstd::utf8::is_ascii_chars_encode_utf8("SILO_IP"@);
    vstd::utf8::is_ascii_chars_encode_utf8("SILO_CONNECT"@);
    vstd::utf8::is_ascii_chars_encode_utf8("WORLD_SILO_ACTIVE"@);
    vstd::utf8::is_ascii_chars_encode_utf8("WORLD_SILO_ACK"@);
    vstd::utf8::is_ascii_chars_encode_utf8("WORLD_ID"@);
    vstd::utf8::is_ascii_chars_encode_utf8("DYLD_"@);
    vstd::utf8::is_ascii_chars_encode_utf8("SILO_"@);
    vstd::utf8::is_ascii_chars_encode_utf8("WORLD_SILO_"@);
    assert(encode_utf8("DYLD_INSERT_LIBRARIES"@).take(5) =~= encode_utf8("DYLD_"@));
    assert(encode_utf8("SILO_IP"@).take(5) =~= encode_utf8("SILO_"@));
    assert(encode_utf8("SILO_CONNECT"@).take(5) =~= encode_utf8("SILO_"@));
    assert(encode_utf8("WORLD_SILO_ACTIVE"@).take(11) =~= encode_utf8("WORLD_SILO_"@));
    assert(encode_utf8("WORLD_SILO_ACK"@).take(11) =~= encode_utf8("WORLD_SILO_"@));
    assert(encode_utf8("WORLD_ID"@).take(5)[0] == 87);
    assert(encode_utf8("DYLD_"@)[0] == 68 && encode_utf8("SILO_"@)[0] == 83);
}

/// A variable is set to what its last entry says.
proof fn lemma_variable_of(env: Seq<(Seq<u8>, Seq<u8>)>, name: Seq<u8>, at: int)
    requires
        0 <= at < env.len(),
        env[at].0 == name,
        forall|i: int| at < i < env.len() ==> (#[trigger] env[i]).0 != name,
    ensures
        variable_of(env, name) == Some(env[at].1),
    decreases env.len(),
{
    if at < env.len() - 1 {
        lemma_variable_of(env.drop_last(), name, at);
    }
}

/// Entries of other names change nothing.
proof fn lemma_not_told(
    all: Seq<(Seq<u8>, Seq<u8>)>,
    told: Seq<(Seq<u8>, Seq<u8>)>,
    name: Seq<u8>,
)
    requires
        forall|i: int| 0 <= i < told.len() ==> (#[trigger] told[i]).0 != name,
    ensures
        variable_of(all + told, name) == variable_of(all, name),
    decreases told.len(),
{
    if told.len() == 0 {
        assert(all + told =~= all);
    } else {
        assert((all + told).drop_last() =~= all + told.drop_last());
        lemma_not_told(all, told.drop_last(), name);
    }
}

/// What is passed on of a variable depends on its name alone.
proof fn lemma_kept_variable(env: Seq<(Seq<u8>, Seq<u8>)>, injected: bool, name: Seq<u8>)
    ensures
        variable_of(kept(env, injected), name) == if name != encode_utf8("WORLD_ID"@) && !(injected
            && names_injection(name)) {
            variable_of(env, name)
        } else {
            None
        },
    decreases env.len(),
{
    let none = Seq::<(Seq<u8>, Seq<u8>)>::empty();
    if env.len() == 0 {
        assert(env =~= none);
        law_variables_are_passed_on(none, (Seq::empty(), Seq::empty()), none, injected);
    } else {
        let v = env.last();
        lemma_kept_variable(env.drop_last(), injected, name);
        law_variables_are_passed_on(env.drop_last(), v, none, injected);
        assert(env.drop_last() + seq![v] + none =~= env);
        let before = kept(env.drop_last(), injected);
        assert(before + Seq::empty() + none =~= before);
        assert(before + seq![v] + none =~= before.push(v));
        assert(before.push(v).drop_last() =~= before);
    }
}

} // verus!
