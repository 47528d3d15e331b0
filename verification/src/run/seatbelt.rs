//! The sandbox profile of an execution on macOS, and how it is started.
use vstd::prelude::*;
use vstd::utf8::encode_utf8;
use crate::bytes::copied;
use crate::text::{chars_of, decimal, digit, digit_value, joined, lemma_joined, lemma_numeral_without, parts, push_numeral, string_of};

verus! {

/// What `serde_json` fails with.
#[verifier::external_type_specification]
#[verifier::external_body]
pub struct ExJsonError(serde_json::Error);

/// How a character stands in a JSON string.
pub open spec fn escaped(c: char) -> Seq<char> {
    if c == '"' || c == '\\' {
        seq!['\\', c]
    } else if c as int == 8 {
        seq!['\\', 'b']
    } else if c as int == 9 {
        seq!['\\', 't']
    } else if c as int == 10 {
        seq!['\\', 'n']
    } else if c as int == 12 {
        seq!['\\', 'f']
    } else if c as int == 13 {
        seq!['\\', 'r']
    } else if (c as int) < 32 {
        seq!['\\', 'u', '0', '0', digit(c as int / 16), digit(c as int % 16)]
    } else {
        seq![c]
    }
}

/// How a text stands in a JSON string, without the quotes.
pub open spec fn escaped_all(t: Seq<char>) -> Seq<char>
    decreases t.len(),
{
    if t.len() == 0 {
        Seq::empty()
    } else {
        escaped_all(t.drop_last()) + escaped(t.last())
    }
}

/// A text as a JSON string.
pub open spec fn json_string(t: Seq<char>) -> Seq<char> {
    seq!['"'] + escaped_all(t) + seq!['"']
}

/// A text as a JSON string, by `serde_json::to_string`. It writes to memory,
/// which does not fail, and escapes quotes, backslashes and control characters,
/// the common ones by a letter and the others by their number.
#[verifier::external_body]
fn json_text(t: &str) -> (r: Result<String, serde_json::Error>)
    ensures
        r is Ok,
        r->Ok_0@ == json_string(t@),
{
    serde_json::to_string(t)
}

/// Where the JSON string that is being read ends, if it does: at the first quote
/// that no backslash goes before.
pub open spec fn string_end(t: Seq<char>, pos: int) -> Option<int>
    decreases
            (if pos < t.len() {
                t.len() - pos
            } else {
                0
            }),
{
    if pos < 0 || pos >= t.len() {
        None
    } else if t[pos] == '"' {
        Some(pos)
    } else if t[pos] == '\\' {
        string_end(t, pos + 2)
    } else {
        string_end(t, pos + 1)
    }
}

/// No text leaves the string that it is quoted in: the string ends with the
/// closing quote, whatever follows.
pub proof fn law_quoted_text_stays_inside(t: Seq<char>, rest: Seq<char>)
    ensures
        string_end(json_string(t) + rest, 1) == Some(json_string(t).len() - 1),
{
    let all = json_string(t) + rest;
    lemma_skip(t, seq!['"'], seq!['"'] + rest);
    assert(all =~= seq!['"'] + escaped_all(t) + (seq!['"'] + rest));
    assert(all[json_string(t).len() - 1] == '"');
}

/// An escape is a backslash with one more character, and digits behind it in the
/// long form; what needs no escape stands alone.
proof fn lemma_escaped(c: char)
    ensures
        ({
            let e = escaped(c);
            ||| e.len() == 1 && e[0] != '"' && e[0] != '\\'
            ||| e.len() == 2 && e[0] == '\\'
            ||| {
                &&& e.len() == 6 && e[0] == '\\'
                &&& forall|i: int| 2 <= i < 6 ==> e[i] != '"' && e[i] != '\\'
            }
        }),
{
    if (c as int) < 32 {
        let high = c as int / 16;
        let low = c as int % 16;
        assert(0 <= high < 16 && 0 <= low < 16);
        assert(digit(high) != '"' && digit(high) != '\\');
        assert(digit(low) != '"' && digit(low) != '\\');
    }
}

proof fn lemma_skip(t: Seq<char>, before: Seq<char>, after: Seq<char>)
    ensures
        string_end(before + escaped_all(t) + after, before.len() as int) == string_end(
            before + escaped_all(t) + after,
            (before + escaped_all(t)).len() as int,
        ),
    decreases t.len(),
{
    if t.len() > 0 {
        let c = t.last();
        let less = t.drop_last();
        lemma_skip(less, before, escaped(c) + after);
        let all = before + escaped_all(t) + after;
        assert(all =~= before + escaped_all(less) + (escaped(c) + after));
        let at = (before + escaped_all(less)).len() as int;
        let e = escaped(c);
        assert forall|i: int| 0 <= i < e.len() implies all[at + i] == e[i] by {}
        assert((before + escaped_all(t)).len() == at + e.len());
        assert(all[at] == e[0]);
        lemma_escaped(c);
        if e.len() == 6 {
            assert(all[at + 2] == e[2]);
            assert(all[at + 3] == e[3]);
            assert(all[at + 4] == e[4]);
            assert(all[at + 5] == e[5]);
            assert(string_end(all, at) == string_end(all, at + 2));
            assert(string_end(all, at + 2) == string_end(all, at + 3));
            assert(string_end(all, at + 3) == string_end(all, at + 4));
            assert(string_end(all, at + 4) == string_end(all, at + 5));
            assert(string_end(all, at + 5) == string_end(all, at + 6));
        } else if e.len() == 2 {
            assert(string_end(all, at) == string_end(all, at + 2));
        } else {
            assert(string_end(all, at) == string_end(all, at + 1));
        }
    } else {
        assert(before + escaped_all(t) =~= before);
    }
}

/// What every profile begins with: nothing reaches the network, other processes
/// or other files.
pub open spec fn denials() -> Seq<char> {
    "(version 1)\n(allow default)\n(deny network*)\n(deny mach-lookup)\n(deny mach-register)\n(deny ipc-posix*)\n(deny ipc-sysv*)\n(deny process-info*)\n(allow process-info* (target self))\n(deny signal)\n(allow signal (target same-sandbox))\n(deny file-write*)\n(allow file-write* (subpath "@
}

/// The profile of an execution: it writes only below its directories and to the
/// null device, and connects only to its proxy.
pub open spec fn profile_of(workdir: Seq<char>, temp: Seq<char>, port: Option<u16>) -> Seq<char> {
    denials() + json_string(workdir) + ") (subpath "@ + json_string(temp)
        + ") (literal \"/dev/null\"))\n"@ + (match port {
        Some(p) => "(allow network-outbound (remote tcp \"localhost:"@ + decimal(p as nat)
            + "\"))\n"@,
        None => Seq::empty(),
    })
}

/// Why there is no profile.
#[derive(Clone, Copy, Debug, PartialEq, Eq, Structural)]
pub enum ProfileError {
    /// A path is no text.
    NotText,
}

impl ProfileError {
    /// The error in words.
    pub fn message(self) -> (r: &'static str)
        ensures
            r@ == (match self {
                ProfileError::NotText => "non-UTF8 sandbox path"@,
            }),
    {
        match self {
            ProfileError::NotText => "non-UTF8 sandbox path",
        }
    }
}

fn push_text(t: &mut Vec<char>, more: &str)
    ensures
        final(t)@ == old(t)@ + more@,
{
    let mut cs = chars_of(more);
    t.append(&mut cs);
}

/// The profile of an execution whose directories have these names, if they are
/// text, and whose proxy listens on `port`.
pub fn seatbelt_profile(workdir: Option<&str>, temp: Option<&str>, port: Option<u16>) -> (r: Result<
    String,
    ProfileError,
>)
    ensures
        match r {
            Ok(profile) => workdir is Some && temp is Some && profile@ == profile_of(
                workdir->Some_0@,
                temp->Some_0@,
                port,
            ),
            Err(e) => e == ProfileError::NotText && (workdir is None || temp is None),
        },
{
    let (workdir, temp) = match (workdir, temp) {
        (Some(workdir), Some(temp)) => (workdir, temp),
        _ => return Err(ProfileError::NotText),
    };
    let (first, second) = (json_text(workdir).unwrap(), json_text(temp).unwrap());
    let mut t: Vec<char> = Vec::new();
    push_text(
        &mut t,
        "(version 1)\n(allow default)\n(deny network*)\n(deny mach-lookup)\n(deny mach-register)\n(deny ipc-posix*)\n(deny ipc-sysv*)\n(deny process-info*)\n(allow process-info* (target self))\n(deny signal)\n(allow signal (target same-sandbox))\n(deny file-write*)\n(allow file-write* (subpath ",
    );
    push_text(&mut t, first.as_str());
    push_text(&mut t, ") (subpath ");
    push_text(&mut t, second.as_str());
    push_text(&mut t, ") (literal \"/dev/null\"))\n");
    let ghost fixed = t@;
    if let Some(port) = port {
        push_text(&mut t, "(allow network-outbound (remote tcp \"localhost:");
        push_numeral(&mut t, port as u64, 10);
        push_text(&mut t, "\"))\n");
    }
    proof {
        assert(fixed =~= denials() + json_string(workdir@) + ") (subpath "@ + json_string(temp@)
            + ") (literal \"/dev/null\"))\n"@);
        assert(t@ =~= profile_of(workdir@, temp@, port));
    }
    Ok(string_of(&t))
}

/// A script that closes every descriptor but the standard ones and then runs its
/// arguments.
pub open spec fn close_descriptors() -> Seq<char> {
    "\nfor file in /dev/fd/*; do\n fd=${file##*/}\n case \"$fd\" in 0|1|2) continue ;; ''|*[!0-9]*) exit 125 ;; esac\n eval \"exec ${fd}>&-\" || exit 125\ndone\nexec \"$@\"\n"@
}

/// What some arguments hold.
pub open spec fn arguments(r: Seq<Vec<u8>>) -> Seq<Seq<u8>> {
    Seq::new(r.len(), |i: int| r[i]@)
}

/// The arguments of the shell that starts a sandboxed command. The command and
/// the profile are arguments of their own, so that no text of theirs becomes a
/// part of the script.
pub open spec fn shell_arguments(profile: Seq<char>, command: Seq<Seq<u8>>) -> Seq<Seq<u8>> {
    seq![
        encode_utf8("-c"@),
        encode_utf8(close_descriptors()),
        encode_utf8("world-fd-guard"@),
        encode_utf8("/usr/bin/sandbox-exec"@),
        encode_utf8("-p"@),
        encode_utf8(profile),
        encode_utf8("--"@),
    ] + command
}

fn argument(args: &mut Vec<Vec<u8>>, value: &[u8])
    ensures
        arguments(final(args)@) == arguments(old(args)@).push(value@),
{
    let ghost before = args@;
    args.push(copied(value));
    proof {
        assert(arguments(args@) =~= arguments(before).push(value@));
    }
}

/// The arguments of the shell that starts a sandboxed command.
pub fn sandbox_arguments(profile: &str, command: &[Vec<u8>]) -> (r: Vec<Vec<u8>>)
    ensures
        arguments(r@) == shell_arguments(profile@, arguments(command@)),
{
    let mut args: Vec<Vec<u8>> = Vec::new();
    argument(&mut args, "-c".as_bytes());
    argument(
        &mut args,
        "\nfor file in /dev/fd/*; do\n fd=${file##*/}\n case \"$fd\" in 0|1|2) continue ;; ''|*[!0-9]*) exit 125 ;; esac\n eval \"exec ${fd}>&-\" || exit 125\ndone\nexec \"$@\"\n".as_bytes(),
    );
    argument(&mut args, "world-fd-guard".as_bytes());
    argument(&mut args, "/usr/bin/sandbox-exec".as_bytes());
    argument(&mut args, "-p".as_bytes());
    argument(&mut args, profile.as_bytes());
    argument(&mut args, "--".as_bytes());
    let ghost fixed = arguments(args@);
    proof {
        assert(fixed =~= shell_arguments(profile@, Seq::empty()));
    }
    let mut i: usize = 0;
    while i < command.len()
        invariant
            i <= command@.len(),
            arguments(args@) == fixed + arguments(command@).take(i as int),
        decreases command@.len() - i,
    {
        let ghost before = arguments(args@);
        argument(&mut args, &command[i]);
        i = i + 1;
        proof {
            assert(before.push(command@[i - 1]@) =~= fixed + arguments(command@).take(i as int));
        }
    }
    proof {
        assert(arguments(args@) =~= shell_arguments(profile@, arguments(command@)));
    }
    args
}

/// The character that a letter stands for behind a backslash.
pub open spec fn named(c: char) -> char {
    if c == 'b' {
        '\u{8}'
    } else if c == 't' {
        '\u{9}'
    } else if c == 'n' {
        '\u{a}'
    } else if c == 'f' {
        '\u{c}'
    } else if c == 'r' {
        '\u{d}'
    } else {
        c
    }
}

/// What a reader of a JSON string makes of what stands between its quotes.
pub open spec fn unescaped(t: Seq<char>) -> Seq<char>
    decreases t.len(),
{
    if t.len() == 0 {
        Seq::empty()
    } else if t[0] != '\\' {
        seq![t[0]] + unescaped(t.skip(1))
    } else if t.len() < 2 {
        Seq::empty()
    } else if t[1] != 'u' {
        seq![named(t[1])] + unescaped(t.skip(2))
    } else if t.len() < 6 {
        Seq::empty()
    } else {
        let n = 4096 * digit_value(t[2]) + 256 * digit_value(t[3]) + 16 * digit_value(t[4])
            + digit_value(t[5]);
        seq![n as char] + unescaped(t.skip(6))
    }
}

/// Whoever reads a quoted text gets the text back: no path is changed by being
/// written into a profile.
pub proof fn law_quoted_text_is_read_back(t: Seq<char>)
    ensures
        unescaped(escaped_all(t)) == t,
    decreases t.len(),
{
    if t.len() > 0 {
        let rest = t.skip(1);
        law_quoted_text_is_read_back(rest);
        lemma_escaped_first(t[0], rest);
        lemma_unescaped(t[0], escaped_all(rest));
        assert(seq![t[0]] + rest =~= t);
    } else {
        assert(escaped_all(t) =~= Seq::empty());
        assert(unescaped(escaped_all(t)) =~= t);
    }
}

proof fn lemma_escaped_first(c: char, rest: Seq<char>)
    ensures
        escaped_all(seq![c] + rest) == escaped(c) + escaped_all(rest),
    decreases rest.len(),
{
    let t = seq![c] + rest;
    if rest.len() == 0 {
        assert(t.drop_last() =~= Seq::empty());
        assert(t.last() == c);
        assert(escaped_all(t.drop_last()) =~= Seq::empty());
        assert(escaped_all(t) =~= escaped(c) + escaped_all(rest));
    } else {
        lemma_escaped_first(c, rest.drop_last());
        assert(t.drop_last() =~= seq![c] + rest.drop_last());
        assert(escaped_all(t) =~= escaped(c) + escaped_all(rest));
    }
}

proof fn lemma_unescaped(c: char, rest: Seq<char>)
    ensures
        unescaped(escaped(c) + rest) == seq![c] + unescaped(rest),
{
    let e = escaped(c);
    let t = e + rest;
    assert(t.skip(e.len() as int) =~= rest);
    assert(t[0] == e[0]);
    if e.len() > 1 {
        assert(t[1] == e[1]);
    }
    if e.len() == 6 {
        let high = c as int / 16;
        let low = c as int % 16;
        assert(t[2] == '0' && t[3] == '0' && t[4] == digit(high) && t[5] == digit(low));
        assert(digit_value(digit(high)) == high);
        assert(digit_value(digit(low)) == low);
        assert(digit_value('0') == 0);
    }
}

proof fn lemma_escaped_line(c: char)
    ensures
        forall|i: int| 0 <= i < escaped(c).len() ==> #[trigger] escaped(c)[i] != '\n',
{
    if (c as int) < 32 {
        let high = c as int / 16;
        let low = c as int % 16;
        assert(0 <= high < 16 && 0 <= low < 16);
        assert(digit(high) != '\n' && digit(low) != '\n');
    }
}

/// No quoted text holds a line break.
proof fn lemma_quoted_line(t: Seq<char>)
    ensures
        !json_string(t).contains('\n'),
    decreases t.len(),
{
    if t.len() > 0 {
        let less = t.drop_last();
        lemma_quoted_line(less);
        let e = escaped(t.last());
        lemma_escaped_line(t.last());
        let s = json_string(t);
        let before = json_string(less);
        if s.contains('\n') {
            let i = choose|i: int| 0 <= i < s.len() && s[i] == '\n';
            let n = escaped_all(less).len() as int;
            if 1 <= i <= n {
                assert(before[i] == '\n');
            } else if n < i <= n + e.len() {
                assert(e[i - n - 1] == '\n');
            }
        }
    } else {
        assert(escaped_all(t) =~= Seq::empty());
    }
}

/// The rules of a profile, one to a line.
pub open spec fn rules(workdir: Seq<char>, temp: Seq<char>, port: Option<u16>) -> Seq<Seq<char>> {
    fixed_rules().push(
        "(allow file-write* (subpath "@ + json_string(workdir) + ") (subpath "@ + json_string(temp)
            + ") (literal \"/dev/null\"))"@,
    ) + (match port {
        Some(p) => seq![
            "(allow network-outbound (remote tcp \"localhost:"@ + decimal(p as nat) + "\"))"@,
        ],
        None => Seq::empty(),
    })
}

/// The rules that every profile begins with.
pub open spec fn fixed_rules() -> Seq<Seq<char>> {
    seq![
        "(version 1)"@,
        "(allow default)"@,
        "(deny network*)"@,
        "(deny mach-lookup)"@,
        "(deny mach-register)"@,
        "(deny ipc-posix*)"@,
        "(deny ipc-sysv*)"@,
        "(deny process-info*)"@,
        "(allow process-info* (target self))"@,
        "(deny signal)"@,
        "(allow signal (target same-sandbox))"@,
        "(deny file-write*)"@,
    ]
}

/// A profile is its rules, one to a line, and nothing else, whatever its
/// directories are called: no name of a directory makes a rule of its own.
pub proof fn law_profile_is_its_rules(workdir: Seq<char>, temp: Seq<char>, port: Option<u16>)
    ensures
        parts(profile_of(workdir, temp, port), '\n') == rules(workdir, temp, port).push(
            Seq::empty(),
        ),
{
    let all = rules(workdir, temp, port).push(Seq::empty());
    let write = rules(workdir, temp, port)[12];
    let first = fixed_rules();
    lemma_fixed_rules();
    lemma_write_rule(workdir, temp);
    let upto = first.push(write);
    lemma_joined_push(first, write);
    match port {
        Some(p) => {
            lemma_connect_rule(p);
            let connect = rules(workdir, temp, port)[13];
            assert(rules(workdir, temp, port) =~= upto.push(connect));
            lemma_joined_push(upto, connect);
            lemma_joined_push(upto.push(connect), Seq::empty());
            assert(joined(all, '\n') =~= profile_of(workdir, temp, port));
        },
        None => {
            assert(rules(workdir, temp, port) =~= upto);
            lemma_joined_push(upto, Seq::empty());
            assert(joined(all, '\n') =~= profile_of(workdir, temp, port));
        },
    }
    assert forall|i: int| 0 <= i < all.len() implies !(#[trigger] all[i]).contains('\n') by {
        if i < 12 {
            assert(all[i] == first[i]);
        } else if i == all.len() - 1 {
            assert(all[i] =~= Seq::empty());
        } else if i == 12 {
            assert(all[i] == write);
        }
    }
    lemma_joined(all, '\n');
}

proof fn lemma_joined_push(ps: Seq<Seq<char>>, last: Seq<char>)
    requires
        ps.len() > 0,
    ensures
        joined(ps.push(last), '\n') == joined(ps, '\n') + seq!['\n'] + last,
    decreases ps.len(),
{
    let all = ps.push(last);
    if ps.len() == 1 {
        assert(all.drop_first() =~= seq![last]);
        reveal_with_fuel(joined, 2);
    } else {
        lemma_joined_push(ps.drop_first(), last);
        assert(all.drop_first() =~= ps.drop_first().push(last));
        assert(joined(all, '\n') =~= joined(ps, '\n') + seq!['\n'] + last);
    }
}

/// The beginning of every profile is the fixed rules and the beginning of the
/// one that lets files be written.
proof fn lemma_fixed_rules()
    ensures
        joined(fixed_rules(), '\n') + seq!['\n'] + "(allow file-write* (subpath "@ == denials(),
        forall|i: int| 0 <= i < 12 ==> !(#[trigger] fixed_rules()[i]).contains('\n'),
{
    reveal_strlit("(version 1)");
    reveal_strlit("(allow default)");
    reveal_strlit("(deny network*)");
    reveal_strlit("(deny mach-lookup)");
    reveal_strlit("(deny mach-register)");
    reveal_strlit("(deny ipc-posix*)");
    reveal_strlit("(deny ipc-sysv*)");
    reveal_strlit("(deny process-info*)");
    reveal_strlit("(allow process-info* (target self))");
    reveal_strlit("(deny signal)");
    reveal_strlit("(allow signal (target same-sandbox))");
    reveal_strlit("(deny file-write*)");
    reveal_strlit("(allow file-write* (subpath ");
    reveal_strlit(
        "(version 1)\n(allow default)\n(deny network*)\n(deny mach-lookup)\n(deny mach-register)\n(deny ipc-posix*)\n(deny ipc-sysv*)\n(deny process-info*)\n(allow process-info* (target self))\n(deny signal)\n(allow signal (target same-sandbox))\n(deny file-write*)\n(allow file-write* (subpath ",
    );
    let all = fixed_rules();
    let t11 = all.skip(11);
    assert(t11 =~= seq![all[11]]);
    assert(joined(t11, '\n') == all[11]);
    let t10 = all.skip(10);
    assert(t10.drop_first() =~= t11);
    assert(joined(t10, '\n') == all[10] + seq!['\n'] + joined(t11, '\n'));
    let t9 = all.skip(9);
    assert(t9.drop_first() =~= t10);
    assert(joined(t9, '\n') == all[9] + seq!['\n'] + joined(t10, '\n'));
    let t8 = all.skip(8);
    assert(t8.drop_first() =~= t9);
    assert(joined(t8, '\n') == all[8] + seq!['\n'] + joined(t9, '\n'));
    let t7 = all.skip(7);
    assert(t7.drop_first() =~= t8);
    assert(joined(t7, '\n') == all[7] + seq!['\n'] + joined(t8, '\n'));
    let t6 = all.skip(6);
    assert(t6.drop_first() =~= t7);
    assert(joined(t6, '\n') == all[6] + seq!['\n'] + joined(t7, '\n'));
    let t5 = all.skip(5);
    assert(t5.drop_first() =~= t6);
    assert(joined(t5, '\n') == all[5] + seq!['\n'] + joined(t6, '\n'));
    let t4 = all.skip(4);
    assert(t4.drop_first() =~= t5);
    assert(joined(t4, '\n') == all[4] + seq!['\n'] + joined(t5, '\n'));
    let t3 = all.skip(3);
    assert(t3.drop_first() =~= t4);
    assert(joined(t3, '\n') == all[3] + seq!['\n'] + joined(t4, '\n'));
    let t2 = all.skip(2);
    assert(t2.drop_first() =~= t3);
    assert(joined(t2, '\n') == all[2] + seq!['\n'] + joined(t3, '\n'));
    let t1 = all.skip(1);
    assert(t1.drop_first() =~= t2);
    assert(joined(t1, '\n') == all[1] + seq!['\n'] + joined(t2, '\n'));
    let t0 = all.skip(0);
    assert(t0.drop_first() =~= t1);
    assert(joined(t0, '\n') == all[0] + seq!['\n'] + joined(t1, '\n'));
    assert(t0 =~= all);
    assert(joined(all, '\n') + seq!['\n'] + "(allow file-write* (subpath "@ =~= denials());
}

proof fn lemma_write_rule(workdir: Seq<char>, temp: Seq<char>)
    ensures
        ({
            let write = "(allow file-write* (subpath "@ + json_string(workdir) + ") (subpath "@
                + json_string(temp) + ") (literal \"/dev/null\"))"@;
            &&& !write.contains('\n')
            &&& ") (literal \"/dev/null\"))\n"@ == ") (literal \"/dev/null\"))"@ + seq!['\n']
        }),
{
    reveal_strlit("(allow file-write* (subpath ");
    reveal_strlit(") (subpath ");
    reveal_strlit(") (literal \"/dev/null\"))");
    reveal_strlit(") (literal \"/dev/null\"))\n");
    assert(") (literal \"/dev/null\"))\n"@ =~= ") (literal \"/dev/null\"))"@ + seq!['\n']);
    lemma_quoted_line(workdir);
    lemma_quoted_line(temp);
    let a = "(allow file-write* (subpath "@;
    let b = ") (subpath "@;
    let c = ") (literal \"/dev/null\"))"@;
    assert(!a.contains('\n') && !b.contains('\n') && !c.contains('\n'));
    lemma_line(a, json_string(workdir));
    lemma_line(a + json_string(workdir), b);
    lemma_line(a + json_string(workdir) + b, json_string(temp));
    lemma_line(a + json_string(workdir) + b + json_string(temp), c);
}

proof fn lemma_connect_rule(port: u16)
    ensures
        ({
            let connect = "(allow network-outbound (remote tcp \"localhost:"@ + decimal(
                port as nat,
            ) + "\"))"@;
            &&& !connect.contains('\n')
            &&& "\"))\n"@ == "\"))"@ + seq!['\n']
        }),
{
    reveal_strlit("(allow network-outbound (remote tcp \"localhost:");
    reveal_strlit("\"))");
    reveal_strlit("\"))\n");
    assert("\"))\n"@ =~= "\"))"@ + seq!['\n']);
    let a = "(allow network-outbound (remote tcp \"localhost:"@;
    let c = "\"))"@;
    assert(!a.contains('\n') && !c.contains('\n'));
    lemma_numeral_without(port as nat, 10, '\n');
    lemma_line(a, decimal(port as nat));
    lemma_line(a + decimal(port as nat), c);
}

proof fn lemma_line(a: Seq<char>, b: Seq<char>)
    requires
        !a.contains('\n'),
        !b.contains('\n'),
    ensures
        !(a + b).contains('\n'),
{
    let t = a + b;
    if t.contains('\n') {
        let i = choose|i: int| 0 <= i < t.len() && t[i] == '\n';
        if i < a.len() {
            assert(a[i] == '\n');
        } else {
            assert(b[i - a.len()] == '\n');
        }
    }
}

/// The command is what the shell's last arguments are, word for word and behind
/// two dashes, and the profile is the argument behind `-p`; the script is the
/// same for every command.
pub proof fn law_command_is_passed_on(
    profile: Seq<char>,
    command: Seq<Seq<u8>>,
    other: Seq<char>,
    i: int,
)
    requires
        0 <= i < command.len(),
    ensures
        ({
            let args = shell_arguments(profile, command);
            let n = args.len() - command.len();
            &&& n == 7
            &&& args[n + i] == command[i]
            &&& args[n - 1] == seq![45u8, 45]
            &&& args[n - 2] == encode_utf8(profile)
            &&& args[n - 3] == seq![45u8, 112]
            &&& args[n - 4] == encode_utf8("/usr/bin/sandbox-exec"@)
            &&& args[0] == seq![45u8, 99]
            &&& forall|j: int|
                0 <= j < 5 ==> #[trigger] args[j] == shell_arguments(other, Seq::empty())[j]
        }),
{
    reveal_strlit("-c");
    reveal_strlit("-p");
    reveal_strlit("--");
    vstd::utf8::is_ascii_chars_encode_utf8("-c"@);
    vstd::utf8::is_ascii_chars_encode_utf8("-p"@);
    vstd::utf8::is_ascii_chars_encode_utf8("--"@);
    assert(encode_utf8("-c"@) =~= seq![45u8, 99]);
    assert(encode_utf8("-p"@) =~= seq![45u8, 112]);
    assert(encode_utf8("--"@) =~= seq![45u8, 45]);
}

} // verus!
