//! Physical locations reported by their host names.
use vstd::prelude::*;
use crate::bytes::{copy_at, splice};
use crate::sys::{AF_UNIX, ERANGE};
use crate::tmp_path::{component_rest, rest_after, MIN_ROOT_LEN, ROOT_PRIVATE_TMP, ROOT_PRIVATE_VAR_TMP, ROOT_TMP, ROOT_VAR_TMP};

verus! {

/// The host name of a physical location, when it lies at or below one of the
/// two temp directories of `root`.
pub open spec fn host_name_of(root: Seq<u8>, physical: Seq<u8>) -> Option<Seq<u8>> {
    match rest_after(physical, root) {
        None => None,
        Some(below) => match rest_after(below, ROOT_VAR_TMP@) {
            Some(rest) => Some(ROOT_PRIVATE_VAR_TMP@ + rest),
            None => match rest_after(below, ROOT_TMP@) {
                Some(rest) => Some(ROOT_PRIVATE_TMP@ + rest),
                None => None,
            },
        },
    }
}

/// The name reported for a path that a system call returned.
pub open spec fn reported_name(root: Seq<u8>, physical: Seq<u8>) -> Seq<u8> {
    match host_name_of(root, physical) {
        Some(host) => host,
        None => physical,
    }
}

/// Whether the host name of `physical`, if it has one, takes up at most `room`
/// bytes.
pub open spec fn host_name_fits(root: Seq<u8>, physical: Seq<u8>, room: int) -> bool {
    host_name_of(root, physical) matches Some(host) ==> host.len() <= room
}

/// A reported name is never longer than the physical one, so that results can
/// be rewritten in place; nor is it longer by more than what the root falls
/// short of [`MIN_ROOT_LEN`].
pub proof fn lemma_host_name_length(root: Seq<u8>, physical: Seq<u8>)
    ensures
        host_name_of(root, physical) matches Some(host) ==> host.len() + root.len()
            == physical.len() + MIN_ROOT_LEN,
        root.len() >= MIN_ROOT_LEN ==> host_name_fits(root, physical, physical.len() as int),
{
}

/// Move `buf[from..to]` to `dest`.
fn move_within(buf: &mut [u8], from: usize, to: usize, dest: usize)
    requires
        from <= to <= old(buf)@.len(),
        dest + (to - from) <= old(buf)@.len(),
    ensures
        final(buf)@ == splice(
            old(buf)@,
            dest as int,
            old(buf)@.subrange(from as int, to as int),
        ),
{
    let ghost before = buf@;
    let ghost block = before.subrange(from as int, to as int);
    let total = buf.len();
    let count = to - from;
    if dest <= from {
        let mut i: usize = 0;
        while i < count
            invariant
                i <= count,
                from + count == to <= total,
                dest <= from,
                total == before.len(),
                block == before.subrange(from as int, to as int),
                buf@ == splice(before, dest as int, block.take(i as int)),
            decreases count - i,
        {
            let b = buf[from + i];
            buf[dest + i] = b;
            i = i + 1;
            proof {
                assert(buf@ =~= splice(before, dest as int, block.take(i as int)));
            }
        }
        proof {
            assert(block.take(i as int) =~= block);
        }
    } else {
        let mut i: usize = count;
        while i > 0
            invariant
                i <= count,
                from + count == to <= total,
                from < dest,
                dest + count <= total,
                total == before.len(),
                block == before.subrange(from as int, to as int),
                buf@ == splice(before, dest + i, block.skip(i as int)),
            decreases i,
        {
            i = i - 1;
            let b = buf[from + i];
            buf[dest + i] = b;
            proof {
                assert(buf@ =~= splice(before, dest + i, block.skip(i as int)));
            }
        }
        proof {
            assert(block.skip(0) =~= block);
        }
    }
}

/// Rewrite a physical World location back to its host name in place. Returns
/// the new length, or None when `buf[..len]` is not mapped.
pub fn unmap_in_place(root: &[u8], buf: &mut [u8], len: usize) -> (r: Option<usize>)
    requires
        len <= old(buf)@.len(),
        host_name_fits(root@, old(buf)@.take(len as int), old(buf)@.len() as int),
    ensures
        match host_name_of(root@, old(buf)@.take(len as int)) {
            Some(host) => {
                &&& r matches Some(n) && n == host.len() <= old(buf)@.len()
                &&& final(buf)@ == splice(old(buf)@, 0, host)
            },
            None => r is None && final(buf)@ == old(buf)@,
        },
{
    let ghost before = buf@;
    let ghost physical = before.take(len as int);
    let total = buf.len();
    let (long, start): (bool, usize) = {
        let text = &buf[0..len];
        proof {
            assert(text@ =~= physical);
        }
        match component_rest(text, root) {
            None => {
                return None;
            },
            Some(below) => match component_rest(below, &ROOT_VAR_TMP) {
                Some(rest) => (true, len - rest.len()),
                None => match component_rest(below, &ROOT_TMP) {
                    Some(rest) => (false, len - rest.len()),
                    None => {
                        return None;
                    },
                },
            },
        }
    };
    let ghost host = host_name_of(root@, physical)->0;
    let ghost rest = physical.skip(start as int);
    proof {
        if long {
            assert(rest =~= physical.skip(root@.len() as int).skip(ROOT_VAR_TMP@.len() as int));
        } else {
            assert(rest =~= physical.skip(root@.len() as int).skip(ROOT_TMP@.len() as int));
        }
        assert(rest =~= before.subrange(start as int, len as int));
    }
    if long {
        move_within(buf, start, len, ROOT_PRIVATE_VAR_TMP.len());
        copy_at(buf, 0, &ROOT_PRIVATE_VAR_TMP);
        proof {
            assert(buf@ =~= splice(before, 0, host));
        }
        Some(ROOT_PRIVATE_VAR_TMP.len() + (len - start))
    } else {
        move_within(buf, start, len, ROOT_PRIVATE_TMP.len());
        copy_at(buf, 0, &ROOT_PRIVATE_TMP);
        proof {
            assert(buf@ =~= splice(before, 0, host));
        }
        Some(ROOT_PRIVATE_TMP.len() + (len - start))
    }
}

/// Copy a `getcwd` result into the caller's buffer, unmapping it first.
/// `local[..len]` holds the physical name; `dst` is the caller's buffer, which
/// an error leaves untouched.
pub fn copy_cwd(root: &[u8], local: &mut [u8], len: usize, dst: &mut [u8]) -> (r: Result<
    usize,
    i32,
>)
    requires
        len <= old(local)@.len(),
        host_name_fits(root@, old(local)@.take(len as int), old(local)@.len() as int),
    ensures
        ({
            let name = reported_name(root@, old(local)@.take(len as int));
            &&& final(local)@ == splice(old(local)@, 0, name)
            &&& if name.len() < old(dst)@.len() {
                (r matches Ok(n) && n == name.len()) && final(dst)@ == splice(
                    old(dst)@,
                    0,
                    name.push(0u8),
                )
            } else {
                r == Err::<usize, i32>(ERANGE) && final(dst)@ == old(dst)@
            }
        }),
{
    let ghost before = local@;
    let ghost name = reported_name(root@, before.take(len as int));
    let n = match unmap_in_place(root, local, len) {
        Some(n) => n,
        None => len,
    };
    proof {
        assert(local@ =~= splice(before, 0, name));
    }
    if n >= dst.len() {
        return Err(ERANGE);
    }
    let ghost old_dst = dst@;
    copy_at(dst, 0, &local[0..n]);
    dst[n] = 0;
    proof {
        assert(local@.subrange(0, n as int) =~= name);
        assert(dst@ =~= splice(old_dst, 0, name.push(0u8)));
    }
    Ok(n)
}

/// Copy a `readlink` result into the caller's buffer, unmapping it first and
/// truncating to `dst`'s capacity as the kernel would, without a terminator.
pub fn copy_link(root: &[u8], local: &mut [u8], len: usize, dst: &mut [u8]) -> (copied: usize)
    requires
        len <= old(local)@.len(),
        host_name_fits(root@, old(local)@.take(len as int), old(local)@.len() as int),
    ensures
        ({
            let name = reported_name(root@, old(local)@.take(len as int));
            &&& copied == if name.len() < old(dst)@.len() {
                name.len()
            } else {
                old(dst)@.len()
            }
            &&& final(local)@ == splice(old(local)@, 0, name)
            &&& final(dst)@ == splice(old(dst)@, 0, name.take(copied as int))
        }),
{
    let ghost before = local@;
    let ghost name = reported_name(root@, before.take(len as int));
    let n = match unmap_in_place(root, local, len) {
        Some(n) => n,
        None => len,
    };
    proof {
        assert(local@ =~= splice(before, 0, name));
    }
    let copied = if n < dst.len() {
        n
    } else {
        dst.len()
    };
    copy_at(dst, 0, &local[0..copied]);
    proof {
        assert(local@.subrange(0, copied as int) =~= name.take(copied as int));
    }
    copied
}

/// Offset of `sun_path` in `sockaddr_un`: the `sun_len` and `sun_family` bytes
/// precede it.
pub const SUN_PATH_OFFSET: usize = 2;

/// Where the first zero byte of `s` at or after `pos` is, or the end.
pub open spec fn nul_at(s: Seq<u8>, pos: int) -> int
    decreases s.len() - pos,
{
    if pos >= s.len() || s[pos] == 0 {
        pos
    } else {
        nul_at(s, pos + 1)
    }
}

proof fn lemma_nul_at_is(s: Seq<u8>, pos: int, end: int)
    requires
        0 <= pos <= end <= s.len(),
        end < s.len() ==> s[end] == 0,
        forall|i: int| pos <= i < end ==> s[i] != 0,
    ensures
        nul_at(s, pos) == end,
    decreases end - pos,
{
    if pos < end {
        lemma_nul_at_is(s, pos + 1, end);
    }
}

/// The path that a reported address holds, when it is an `AF_UNIX` address
/// that fits within `sa`: `sun_path` up to its terminator.
pub open spec fn unix_path(sa: Seq<u8>, reported: int) -> Option<Seq<u8>> {
    if SUN_PATH_OFFSET < reported <= sa.len() && sa[1] == AF_UNIX {
        let region = sa.subrange(SUN_PATH_OFFSET as int, reported);
        Some(region.take(nul_at(region, 0)))
    } else {
        None
    }
}

/// The host name of the path that a reported address holds.
pub open spec fn unix_host_name(root: Seq<u8>, sa: Seq<u8>, reported: int) -> Option<Seq<u8>> {
    match unix_path(sa, reported) {
        Some(path) => host_name_of(root, path),
        None => None,
    }
}

/// The length of the address that names `host` in a region of `region` bytes:
/// its terminator counts where there is room for one.
pub open spec fn unix_total(host: Seq<u8>, region: int) -> int {
    SUN_PATH_OFFSET + host.len() + if host.len() < region {
        1int
    } else {
        0int
    }
}

/// `sa` after its path became `host`: the length byte is updated, and what the
/// shorter name frees of the reported bytes is zero.
pub open spec fn renamed_unix(sa: Seq<u8>, reported: int, host: Seq<u8>) -> Seq<u8> {
    let total = unix_total(host, reported - SUN_PATH_OFFSET);
    seq![(total % 256) as u8, sa[1]] + host + Seq::new(
        (reported - SUN_PATH_OFFSET - host.len()) as nat,
        |i: int| 0u8,
    ) + sa.skip(reported)
}

/// Rewrite a physical `AF_UNIX` address to its host name in place. `sa` holds
/// `sockaddr_un` bytes (`sun_len`, `sun_family`, then `sun_path`) and
/// `reported` is the kernel's address length. Returns the new total length.
pub fn unmap_sockaddr(root: &[u8], sa: &mut [u8], reported: usize) -> (r: Option<usize>)
    requires
        unix_host_name(root@, old(sa)@, reported as int) matches Some(host) ==> host.len()
            <= reported - SUN_PATH_OFFSET,
    ensures
        match unix_host_name(root@, old(sa)@, reported as int) {
            Some(host) => {
                &&& r matches Some(n) && n == unix_total(host, reported - SUN_PATH_OFFSET)
                &&& final(sa)@ == renamed_unix(old(sa)@, reported as int, host)
            },
            None => r is None && final(sa)@ == old(sa)@,
        },
        r matches Some(n) ==> n <= reported,
{
    if reported <= SUN_PATH_OFFSET || reported > sa.len() || sa[1] as i32 != AF_UNIX {
        return None;
    }
    let ghost before = sa@;
    let ghost text = before.subrange(SUN_PATH_OFFSET as int, reported as int);
    let region = reported - SUN_PATH_OFFSET;
    let mut path_len: usize = 0;
    while path_len < region && sa[SUN_PATH_OFFSET + path_len] != 0
        invariant
            path_len <= region,
            region == reported - SUN_PATH_OFFSET,
            SUN_PATH_OFFSET < reported <= sa@.len(),
            sa@ == before,
            text == before.subrange(SUN_PATH_OFFSET as int, reported as int),
            forall|i: int| 0 <= i < path_len ==> text[i] != 0,
        decreases region - path_len,
    {
        path_len = path_len + 1;
    }
    proof {
        lemma_nul_at_is(text, 0, path_len as int);
    }
    let ghost path = text.take(path_len as int);
    let (head, tail) = sa.split_at_mut(SUN_PATH_OFFSET);
    let ghost old_tail = tail@;
    proof {
        assert(old_tail.take(path_len as int) =~= path);
    }
    let new_len = match unmap_in_place(root, tail, path_len) {
        Some(n) => n,
        None => {
            proof {
                assert(head@ + tail@ =~= before);
            }
            return None;
        },
    };
    let ghost host = host_name_of(root@, path)->0;
    let mut i: usize = new_len;
    while i < region
        invariant
            new_len <= i <= region,
            host.len() == new_len,
            region <= old_tail.len(),
            tail@.len() == old_tail.len(),
            tail@ == host + Seq::new((i - new_len) as nat, |j: int| 0u8) + old_tail.skip(i as int),
        decreases region - i,
    {
        tail[i] = 0;
        i = i + 1;
        proof {
            assert(tail@ =~= host + Seq::new((i - new_len) as nat, |j: int| 0u8) + old_tail.skip(
                i as int,
            ));
        }
    }
    let total = if new_len < region {
        SUN_PATH_OFFSET + new_len + 1
    } else {
        SUN_PATH_OFFSET + new_len
    };
    head[0] = (total % 256) as u8;
    proof {
        assert(head@ + tail@ =~= renamed_unix(before, reported as int, host));
    }
    Some(total)
}

/// After a requery reports `storage[..reported]`, unmap it in place and copy at
/// most `cap` bytes into `dst`, leaving the rest of `dst` untouched. Returns
/// the unmapped total length, which may exceed `cap` so that callers can still
/// detect truncation the way the kernel reports it.
pub fn requeried_unix(
    root: &[u8],
    storage: &mut [u8],
    reported: usize,
    cap: usize,
    dst: &mut [u8],
) -> (r: Option<usize>)
    requires
        unix_host_name(root@, old(storage)@, reported as int) matches Some(host) ==> host.len()
            <= reported - SUN_PATH_OFFSET,
    ensures
        match unix_host_name(root@, old(storage)@, reported as int) {
            Some(host) => {
                let total = unix_total(host, reported - SUN_PATH_OFFSET);
                let n = least(least(cap as int, total), old(dst)@.len() as int);
                &&& r matches Some(t) && t == total
                &&& final(storage)@ == renamed_unix(old(storage)@, reported as int, host)
                &&& final(dst)@ == splice(old(dst)@, 0, final(storage)@.take(n))
            },
            None => r is None && final(storage)@ == old(storage)@ && final(dst)@ == old(dst)@,
        },
        r matches Some(total) ==> final(dst)@.len() == old(dst)@.len() && forall|i: int|
            0 <= i < old(dst)@.len() ==> #[trigger] final(dst)@[i] == if i < cap && i < total {
                final(storage)@[i]
            } else {
                old(dst)@[i]
            },
{
    match unmap_sockaddr(root, storage, reported) {
        None => None,
        Some(total) => {
            let mut n = cap;
            if total < n {
                n = total;
            }
            if dst.len() < n {
                n = dst.len();
            }
            copy_at(dst, 0, &storage[0..n]);
            proof {
                assert(storage@.subrange(0, n as int) =~= storage@.take(n as int));
            }
            Some(total)
        },
    }
}

/// The smaller of two integers.
pub open spec fn least(a: int, b: int) -> int {
    if a < b {
        a
    } else {
        b
    }
}

/// What lies at or below one of a root's two temp directories is reported as
/// lying there on the host; the name behind them is kept as it is.
pub proof fn law_below_root_is_renamed(root: Seq<u8>, rest: Seq<u8>)
    requires
        rest.len() > 0 ==> rest[0] == 47,
    ensures
        host_name_of(root, root + seq![47u8, 116, 109, 112] + rest) == Some(
            seq![47u8, 112, 114, 105, 118, 97, 116, 101, 47, 116, 109, 112] + rest,
        ),
        host_name_of(root, root + seq![47u8, 118, 97, 114, 47, 116, 109, 112] + rest) == Some(
            seq![47u8, 112, 114, 105, 118, 97, 116, 101, 47, 118, 97, 114, 47, 116, 109, 112]
                + rest,
        ),
{
    let tmp = seq![47u8, 116, 109, 112];
    let var_tmp = seq![47u8, 118, 97, 114, 47, 116, 109, 112];
    assert(tmp =~= ROOT_TMP@);
    assert(var_tmp =~= ROOT_VAR_TMP@);
    assert(seq![47u8, 112, 114, 105, 118, 97, 116, 101, 47, 116, 109, 112] =~= ROOT_PRIVATE_TMP@);
    assert(seq![
        47u8,
        112,
        114,
        105,
        118,
        97,
        116,
        101,
        47,
        118,
        97,
        114,
        47,
        116,
        109,
        112,
    ] =~= ROOT_PRIVATE_VAR_TMP@);
    lemma_rest_behind(root, tmp + rest);
    lemma_rest_behind(root, var_tmp + rest);
    lemma_rest_behind(tmp, rest);
    lemma_rest_behind(var_tmp, rest);
    assert(root + tmp + rest =~= root + (tmp + rest));
    assert(root + var_tmp + rest =~= root + (var_tmp + rest));
    assert((tmp + rest)[1] == 116);
    assert(var_tmp[1] == 118);
    assert(rest_after(tmp + rest, var_tmp) is None) by {
        if var_tmp.is_prefix_of(tmp + rest) {
            assert((tmp + rest).subrange(0, 8)[1] == var_tmp[1]);
        }
    }
}

proof fn lemma_rest_behind(prefix: Seq<u8>, rest: Seq<u8>)
    requires
        rest.len() > 0 ==> rest[0] == 47,
    ensures
        rest_after(prefix + rest, prefix) == Some(rest),
{
    assert((prefix + rest).subrange(0, prefix.len() as int) =~= prefix);
    assert((prefix + rest).skip(prefix.len() as int) =~= rest);
}

/// The path is `rest` in one of the temp directories of `root`.
pub open spec fn lies_in_temp(path: Seq<u8>, root: Seq<u8>, rest: Seq<u8>) -> bool {
    &&& rest.len() > 0 ==> rest[0] == 47
    &&& path == root + seq![47u8, 116, 109, 112] + rest || path == root + seq![
        47u8,
        118,
        97,
        114,
        47,
        116,
        109,
        112,
    ] + rest
}

/// Nothing else is renamed: what has a host name lies at or below one of the
/// root's temp directories.
pub proof fn law_only_below_root_is_renamed(root: Seq<u8>, physical: Seq<u8>)
    requires
        host_name_of(root, physical) is Some,
    ensures
        exists|rest: Seq<u8>| #[trigger] lies_in_temp(physical, root, rest),
{
    let tmp = seq![47u8, 116, 109, 112];
    let var_tmp = seq![47u8, 118, 97, 114, 47, 116, 109, 112];
    assert(tmp =~= ROOT_TMP@);
    assert(var_tmp =~= ROOT_VAR_TMP@);
    let below = rest_after(physical, root)->Some_0;
    assert(physical =~= root + below);
    if rest_after(below, var_tmp) is Some {
        let rest = rest_after(below, var_tmp)->Some_0;
        assert(below =~= var_tmp + rest);
        assert(root + var_tmp + rest =~= physical);
        assert(lies_in_temp(physical, root, rest));
    } else {
        let rest = rest_after(below, tmp)->Some_0;
        assert(below =~= tmp + rest);
        assert(root + tmp + rest =~= physical);
        assert(lies_in_temp(physical, root, rest));
    }
}

/// The path of an address is what stands behind its first two bytes, up to a
/// zero; only an address of the family 1 has one.
pub proof fn law_unix_path_is_read(sa: Seq<u8>, path: Seq<u8>, zeros: nat, rest: Seq<u8>)
    requires
        sa.len() == 2,
        !path.contains(0u8),
        path.len() + zeros > 0,
    ensures
        ({
            let all = sa + path + Seq::new(zeros, |i: int| 0u8) + rest;
            let reported = 2 + path.len() + zeros;
            unix_path(all, reported as int) == if sa[1] == 1 {
                Some(path)
            } else {
                None::<Seq<u8>>
            }
        }),
{
    let all = sa + path + Seq::new(zeros, |i: int| 0u8) + rest;
    let reported = 2 + path.len() + zeros;
    let region = all.subrange(2, reported as int);
    assert(region =~= path + Seq::new(zeros, |i: int| 0u8));
    assert forall|i: int| 0 <= i < path.len() implies region[i] != 0 by {
        assert(region[i] == path[i]);
        assert(path.contains(path[i]));
    }
    lemma_nul_at_is(region, 0, path.len() as int);
    assert(region.take(path.len() as int) =~= path);
}

/// A renamed address holds its new name and says how long it is, its terminator
/// included where there is room for one; what follows it stays.
pub proof fn law_renamed_address_is_read(sa: Seq<u8>, reported: int, host: Seq<u8>)
    requires
        2 < reported <= sa.len(),
        sa[1] == 1,
        0 < host.len() <= reported - 2,
        !host.contains(0u8),
    ensures
        ({
            let total = unix_total(host, reported - 2);
            let after = renamed_unix(sa, reported, host);
            &&& total == if host.len() < reported - 2 {
                host.len() + 3
            } else {
                host.len() + 2
            }
            &&& total <= reported
            &&& after.len() == sa.len()
            &&& after[0] == total % 256
            &&& unix_path(after, total) == Some(host)
            &&& unix_path(after, reported) == Some(host)
            &&& forall|i: int| reported <= i < sa.len() ==> #[trigger] after[i] == sa[i]
        }),
{
    let total = unix_total(host, reported - 2);
    let after = renamed_unix(sa, reported, host);
    let zeros = (reported - 2 - host.len()) as nat;
    let used = (total - 2 - host.len()) as nat;
    let head = seq![(total % 256) as u8, sa[1]];
    assert(head.len() == 2 && head[1] == 1);
    law_unix_path_is_read(head, host, zeros, sa.skip(reported));
    assert(after =~= head + host + Seq::new(zeros, |i: int| 0u8) + sa.skip(reported));
    law_unix_path_is_read(
        head,
        host,
        used,
        Seq::new((zeros - used) as nat, |i: int| 0u8) + sa.skip(reported),
    );
    assert(after =~= head + host + Seq::new(used, |i: int| 0u8) + (Seq::new(
        (zeros - used) as nat,
        |i: int| 0u8,
    ) + sa.skip(reported)));
}

} // verus!
