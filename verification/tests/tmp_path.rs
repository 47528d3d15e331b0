//! Mapping and reporting of host temp paths.
use std::cell::Cell;
use world::sys::Platform;
use world::tmp_path::answer::answered_name;
use world::tmp_path::map::{map_with, textual_parent, FullPath};
use world::tmp_path::map_at::{
    kernel_full_path, map_at, map_at_with, map_target, map_under, pop_component, real_base,
    skippable,
};
use world::tmp_path::scan::{dotdot_count, first_real_component, has_tmp_component};
use world::tmp_path::unmap::{
    copy_cwd, copy_link, requeried_unix, unmap_in_place, unmap_sockaddr, SUN_PATH_OFFSET,
};
use world::tmp_path::{component_rest, valid_root, MAX_ROOT_LEN, PATH_ROOM};

/// The platform whose numbers are those of this system.
const HOST: Platform = Platform::Linux;

const PATH_MAX: usize = libc::PATH_MAX as usize;

const ROOT: &[u8] = b"/Users/me/.local/share/world/workspaces/tmp/127.77.0.1";

/// The call that this system does not have.
fn unable(_: i32, _: &[u8]) -> Result<FullPath, i32> {
    panic!("this system cannot be asked")
}

fn root_text() -> &'static str {
    std::str::from_utf8(ROOT).unwrap()
}

/// Lexical normalization: empty and `.` components are dropped, `..` pops.
fn normalize(path: &[u8]) -> Vec<u8> {
    let mut out: Vec<u8> = Vec::new();
    for component in path.split(|&b| b == b'/') {
        match component {
            b"" | b"." => {}
            b".." => {
                while let Some(b) = out.pop() {
                    if b == b'/' {
                        break;
                    }
                }
            }
            _ => {
                out.push(b'/');
                out.extend_from_slice(component);
            }
        }
    }
    if out.is_empty() {
        out.push(b'/');
    }
    out
}

/// A resolver that stands in for the kernel: it follows `links` (physical path
/// to target, matched by whole leading components; relative targets resolve
/// against the link's own parent) and the two symlinks every macOS host has at
/// its root, then fails with `ENOENT` under `absent`, else normalizes.
fn fake_resolve<'a>(
    links: &'a [(&'a str, &'a str)],
    absent: &'a [&'a str],
) -> impl Fn(&[u8]) -> Result<FullPath, i32> + 'a {
    const DEFAULT: [(&str, &str); 2] = [("/var", "/private/var"), ("/tmp", "/private/tmp")];
    move |path: &[u8]| {
        let mut current = path.split(|&b| b == 0).next().unwrap_or(path).to_vec();
        for _ in 0..32 {
            let Some((link, target)) = links
                .iter()
                .chain(DEFAULT.iter())
                .find(|(link, _)| component_rest(&current, link.as_bytes()).is_some())
            else {
                break;
            };
            let rest = component_rest(&current, link.as_bytes()).unwrap().to_vec();
            let mut next = if target.starts_with('/') {
                target.as_bytes().to_vec()
            } else {
                let parent = textual_parent(link.as_bytes());
                let mut v = parent.to_vec();
                if parent != b"/" {
                    v.push(b'/');
                }
                v.extend_from_slice(target.as_bytes());
                v
            };
            next.extend_from_slice(&rest);
            current = next;
        }
        if absent
            .iter()
            .any(|a| component_rest(&current, a.as_bytes()).is_some())
        {
            return Err(libc::ENOENT);
        }
        let text = normalize(&current);
        if text.len() >= PATH_MAX {
            return Err(libc::ENAMETOOLONG);
        }
        Ok(FullPath::new(&text).unwrap())
    }
}

fn full(s: &str) -> FullPath {
    FullPath::new(s.as_bytes()).unwrap()
}

fn mapped_with(path: &str, links: &[(&str, &str)]) -> Result<Option<String>, i32> {
    mapped_with_absent(path, links, &[])
}

fn mapped_with_absent(
    path: &str,
    links: &[(&str, &str)],
    absent: &[&str],
) -> Result<Option<String>, i32> {
    mapped_with_resolver(path, &fake_resolve(links, absent))
}

fn mapped_with_resolver<F: Fn(&[u8]) -> Result<FullPath, i32>>(
    path: &str,
    resolve: &F,
) -> Result<Option<String>, i32> {
    let mut out = [0u8; PATH_MAX];
    let result = map_with(HOST, ROOT, path.as_bytes(), &mut out, resolve)?;
    if let Some(n) = result {
        assert_eq!(out[n], 0, "{path}");
    }
    Ok(result.map(|n| String::from_utf8(out[..n].to_vec()).unwrap()))
}

fn mapped(path: &str) -> Option<String> {
    mapped_with(path, &[]).unwrap()
}

fn mapped_at<B: FnOnce() -> Result<FullPath, i32>>(
    base: B,
    path: &str,
) -> Result<Option<String>, i32> {
    let mut out = [0u8; PATH_MAX];
    let resolve = fake_resolve(&[], &[]);
    let result = map_at_with(HOST, ROOT, path.as_bytes(), &mut out, base, &resolve)?;
    Ok(result.map(|n| String::from_utf8(out[..n].to_vec()).unwrap()))
}

#[test]
fn maps_host_temp_roots() {
    let root = root_text();
    for (path, expected) in [
        ("/tmp", "/tmp"),
        ("/tmp/", "/tmp/"),
        ("/tmp/a.lock", "/tmp/a.lock"),
        ("/private/tmp/.s.PGSQL.5432", "/tmp/.s.PGSQL.5432"),
        ("/var/tmp/x", "/var/tmp/x"),
        ("/private/var/tmp", "/var/tmp"),
        ("//tmp//a/./b/../c", "/tmp//a/./b/../c"),
        ("/private/./tmp/x", "/tmp/x"),
        ("/tmp/a/link/../x", "/tmp/a/link/../x"),
        ("/private/../tmp/x", "/tmp/x"),
        ("/var/../tmp/x", "/tmp/x"),
        ("/var/../var/tmp/y", "/var/tmp/y"),
        ("/tmp/a/../../tmp/x", "/tmp/x"),
        ("/Users/../tmp/x", "/tmp/x"),
    ] {
        assert_eq!(mapped(path), Some(format!("{root}{expected}")), "{path}");
    }
}

#[test]
fn leaves_other_paths() {
    for path in [
        "relative/tmp",
        "tmp/x",
        "/tmpfoo",
        "/private/tmpx/y",
        "/var/tmpx",
        "/Users/me/tmp",
        "/private/var/folders/x",
        "/tmp/../etc/hosts",
        "/Users/me/.local/share/world/workspaces/tmp/127.77.0.1",
        "/Users/me/.local/share/world/workspaces/tmp/127.77.0.1/tmp/x",
        "/Users/me/.local/share/world/workspaces/tmp/../tmp/127.77.0.1/tmp/x",
        "/tmp/..",
        "/private/var/tmp/../../etc",
        "/private/var/folders/../tmpx",
        "/var/../private/tmp/a/a",
        "/tmp/../private/tmp/x",
    ] {
        assert_eq!(mapped(path), None, "{path}");
    }
}

#[test]
fn escaping_dotdot_after_a_named_component_asks_the_kernel() {
    let root = root_text();
    let link = format!("{root}/tmp/a/link");
    assert_eq!(
        mapped_with("/tmp/a/link/../../../etc/x", &[(&link, "b/c")]),
        Ok(Some(format!("{root}/tmp/etc/x")))
    );
    let abs_link = format!("{root}/tmp/a/abs");
    assert_eq!(
        mapped_with("/tmp/a/abs/../../../tmp/f", &[(&abs_link, "/usr/bin")]),
        Ok(Some(format!("{root}/tmp/f")))
    );
    assert_eq!(
        mapped_with("/tmp/a/../../etc/hosts", &[]),
        Ok(Some("/private/etc/hosts".to_string()))
    );
    assert_eq!(mapped_with("/tmp/..", &[]), Ok(None));
}

#[test]
fn map_with_propagates_resolver_errors() {
    let mut out = [0u8; PATH_MAX];
    let resolve = |_: &[u8]| Err(libc::ENOENT);
    let result = map_with(HOST, ROOT, b"/tmp/a/../../etc", &mut out, &resolve);
    assert_eq!(result, Err(libc::ENOENT));
}

fn target_mapped(target: &str) -> Result<Option<String>, i32> {
    let mut out = [0u8; PATH_MAX];
    let result = map_target(HOST, ROOT, target.as_bytes(), &mut out)?;
    Ok(result.map(|n| String::from_utf8(out[..n].to_vec()).unwrap()))
}

#[test]
fn map_target_leaves_targets_that_would_need_the_kernel() {
    assert_eq!(target_mapped("/does-not-exist/../tmp/x"), Ok(None));
    assert_eq!(target_mapped("/tmp/a/../../etc/x"), Ok(None));
}

#[test]
fn map_target_maps_purely_lexical_temp_targets() {
    let root = root_text();
    assert_eq!(target_mapped("/tmp/x"), Ok(Some(format!("{root}/tmp/x"))));
    assert_eq!(
        target_mapped("/private/var/tmp/y"),
        Ok(Some(format!("{root}/var/tmp/y")))
    );
    assert_eq!(
        target_mapped("/tmp/a/../b"),
        Ok(Some(format!("{root}/tmp/a/../b")))
    );
}

#[test]
fn map_target_leaves_relative_targets() {
    assert_eq!(target_mapped("tmp/x"), Ok(None));
}

#[test]
fn escaping_dotdot_past_a_named_other_component_asks_the_kernel() {
    let root = root_text();
    assert_eq!(
        mapped_with_absent("/definitely-absent/../tmp/x", &[], &["/definitely-absent"]),
        Err(libc::ENOENT)
    );
    assert_eq!(
        mapped_with_absent("/l/../tmp/x", &[("/l", "/private/var/folders")], &[]),
        Ok(Some(format!("{root}/var/tmp/x")))
    );
    assert_eq!(
        mapped_with_absent("/a/b/../../tmp/x", &[], &[]),
        Ok(Some(format!("{root}/tmp/x")))
    );
    assert_eq!(
        mapped_with_absent("/var/x/../tmp/y", &[], &[]),
        Ok(Some(format!("{root}/var/tmp/y")))
    );
    assert_eq!(
        mapped_with_resolver("/Users/me/src/../include/x.h", &|_: &[u8]| {
            panic!("resolver should not be called")
        }),
        Ok(None)
    );
    let file_prefix = format!("{root}/tmp/f/");
    assert_eq!(
        mapped_with_resolver("/tmp/f/../../etc", &|p: &[u8]| {
            if p.starts_with(file_prefix.as_bytes()) {
                Err(libc::ENOTDIR)
            } else {
                panic!("unexpected resolve call: {p:?}")
            }
        }),
        Err(libc::ENOTDIR)
    );
}

#[test]
fn many_named_dotdots_before_tmp_still_map() {
    let root = root_text();
    let path = format!("{}/tmp/x", "/a/..".repeat(65));
    assert_eq!(
        mapped_with(&path, &[]),
        Ok(Some(format!("{root}/tmp/x"))),
        "{path}"
    );
}

#[test]
fn two_hundred_named_dotdots_before_tmp_still_map() {
    let root = root_text();
    let path = format!("{}/tmp/x", "/a/..".repeat(200));
    assert!(path.len() < PATH_MAX, "test path must fit PATH_MAX");
    assert_eq!(
        mapped_with(&path, &[]),
        Ok(Some(format!("{root}/tmp/x"))),
        "{path}"
    );
}

#[test]
fn many_temp_escapes_before_tmp_still_map() {
    let root = root_text();
    let path = format!("/tmp{}/x", "/a/../../tmp".repeat(65));
    assert_eq!(
        mapped_with(&path, &[]),
        Ok(Some(format!("{root}/tmp/x"))),
        "{path}"
    );
}

#[test]
fn misbehaving_resolver_cannot_loop() {
    let calls = Cell::new(0);
    let resolve = |_: &[u8]| {
        calls.set(calls.get() + 1);
        Ok(full("/a/../a"))
    };
    assert_eq!(
        mapped_with_resolver("/a/../tmp/x", &resolve),
        Err(libc::ELOOP)
    );
    assert!(calls.get() <= 1, "resolver called {} times", calls.get());
}

#[test]
fn answers_with_dotdot_are_refused() {
    for answer in ["/b/..", "/..", "/../b", "/a/../b/c"] {
        for path in ["/a/../tmp/x", "/tmp/a/../../etc", "/a/../../b/../tmp"] {
            assert_eq!(
                mapped_with_resolver(path, &|_: &[u8]| Ok(full(answer))),
                Err(libc::ELOOP),
                "{path} {answer}"
            );
        }
    }
    // Even one that leaves too long a text.
    let long = format!("/{}/../y/z", "x".repeat(PATH_MAX - 10));
    assert_eq!(
        mapped_with_resolver("/a/../tmp/x", &|_: &[u8]| Ok(full(&long))),
        Err(libc::ELOOP)
    );
    let long = format!("/{}/z", "x".repeat(PATH_MAX - 4));
    assert_eq!(
        mapped_with_resolver("/a/../tmp/x", &|_: &[u8]| Ok(full(&long))),
        Err(libc::ENAMETOOLONG)
    );
    // A name that only starts with dots is no `..`.
    assert_eq!(
        mapped_with_resolver("/a/../tmp/x", &|_: &[u8]| Ok(full("/..b"))),
        Ok(Some(format!("{}/tmp/x", root_text())))
    );
}

/// A buffer whose bytes can be told from what is written.
const FILLED: [u8; PATH_MAX] = [0xaa; PATH_MAX];

fn unasked(_: &[u8]) -> Result<FullPath, i32> {
    panic!("the kernel should not be asked")
}

fn assert_kept(out: &[u8], result: Result<Option<usize>, i32>, path: &str) {
    let start = match result {
        Ok(Some(n)) => {
            assert_eq!(out[n], 0, "{path}");
            n + 1
        }
        _ => 0,
    };
    assert!(out[start..].iter().all(|b| *b == 0xaa), "{path}");
}

#[test]
fn buffer_is_kept_where_nothing_is_asked() {
    let long = format!("/tmp/{}", "x".repeat(PATH_MAX - 6));
    for path in [
        "/tmp/../private/tmp/x",
        "/Users/me/src/../include/x.h",
        "/tmpfoo",
        "/private/var/folders/../tmpx",
        "relative/tmp",
        "",
        "/tmp",
        "/tmp/a/../b",
        "/private/var/tmp/x/",
        &long,
    ] {
        let mut out = FILLED;
        let result = map_with(HOST, ROOT, path.as_bytes(), &mut out, &unasked);
        assert_kept(&out, result, path);
        let mut target = FILLED;
        assert_eq!(map_target(HOST, ROOT, path.as_bytes(), &mut target), result, "{path}");
        assert_eq!(target, out, "{path}");
        let mut mapped = FILLED;
        assert_eq!(
            world::tmp_path::map_at::map(HOST, ROOT, path.as_bytes(), &mut mapped, &unable),
            result,
            "{path}"
        );
        assert_eq!(mapped, out, "{path}");
    }
    assert_eq!(
        map_with(HOST, ROOT, long.as_bytes(), &mut FILLED.clone(), &unasked),
        Err(libc::ENAMETOOLONG)
    );
    // A question that does not fit is not asked.
    let mut small = [0xaa; 4];
    let result = map_with(HOST, ROOT, b"/a/../tmp", &mut small, &unasked);
    assert_eq!(result, Err(libc::ENAMETOOLONG));
    assert_eq!(small, [0xaa; 4]);
    assert_eq!(map_target(HOST, ROOT, b"/a/../tmp", &mut small), result);
    assert_eq!(small, [0xaa; 4]);
    assert_eq!(map_target(HOST, ROOT, b"/a/../tmp", &mut [0xaa; 5]), Ok(None));
}

#[test]
fn both_names_of_a_temp_root_leave_equal_buffers() {
    for rest in ["", "/", "/x", "//x/./y", "/..x"] {
        for name in ["/tmp", "/var/tmp"] {
            let (short, long) = (format!("{name}{rest}"), format!("/private{name}{rest}"));
            let (mut one, mut two) = (FILLED, FILLED);
            let first = world::tmp_path::map_at::map(HOST, ROOT, short.as_bytes(), &mut one, &unable);
            let second = world::tmp_path::map_at::map(HOST, ROOT, long.as_bytes(), &mut two, &unable);
            assert_eq!(first, second, "{short}");
            assert_eq!(one, two, "{short}");
            let n = first.unwrap().unwrap();
            assert_eq!(one[..n], *format!("{}{name}{rest}", root_text()).as_bytes());
        }
    }
}

#[test]
fn buffer_is_kept_where_no_base_is_known() {
    let unknown = || -> Result<FullPath, i32> { Err(libc::EACCES) };
    let endless = || -> Result<FullPath, i32> { Ok(full(&"/x".repeat(PATH_MAX / 2))) };
    let uncalled = || -> Result<FullPath, i32> { panic!("base should not be asked") };
    for path in ["../x", "tmp/x", "./private", "var", "a/../b"] {
        let mut out = FILLED;
        let result = map_at_with(HOST, ROOT, path.as_bytes(), &mut out, unknown, &unasked);
        assert_eq!(result, Err(libc::EACCES), "{path}");
        assert_eq!(out, FILLED, "{path}");
        let result = map_at_with(HOST, ROOT, path.as_bytes(), &mut out, endless, &unasked);
        assert_eq!(result, Err(libc::ENAMETOOLONG), "{path}");
        assert_eq!(out, FILLED, "{path}");
        assert_eq!(map_at(HOST, ROOT, libc::AT_FDCWD, path.as_bytes(), &mut out, &unable), Err(libc::ENOSYS));
        assert_eq!(out, FILLED, "{path}");
    }
    for path in ["", ".", "x/tmp", "tmpx", "./a/b"] {
        let mut out = FILLED;
        let result = map_at_with(HOST, ROOT, path.as_bytes(), &mut out, uncalled, &unasked);
        assert_eq!(result, Ok(None), "{path}");
        assert_eq!(out, FILLED, "{path}");
    }
    for path in ["/tmp/x", "/etc"] {
        let (mut at, mut with) = (FILLED, FILLED);
        assert_eq!(
            map_at_with(HOST, ROOT, path.as_bytes(), &mut at, uncalled, &unasked),
            map_with(HOST, ROOT, path.as_bytes(), &mut with, &unasked)
        );
        assert_eq!(at, with, "{path}");
    }
}

#[test]
fn no_prefix_of_a_root_is_redirected() {
    for root in [
        "/Users/me/.local/share/world/workspaces/tmp/127.77.0.1",
        "/private",
        "/private/var",
        "/private/var/lib/tmp",
        "/var/folders/tmp/x",
    ] {
        assert!(valid_root(root.as_bytes()), "{root}");
        for (i, _) in root.match_indices('/').chain([(root.len(), "")]) {
            let mut out = FILLED;
            let result = map_with(HOST, root.as_bytes(), &root.as_bytes()[..i], &mut out, &unasked);
            assert_eq!(result, Ok(None), "{}", &root[..i]);
            assert_eq!(out, FILLED);
        }
    }
}

#[test]
fn map_at_with_joins_relative_dotdot_against_the_real_base() {
    let root = root_text();
    assert_eq!(
        mapped_at(
            || -> Result<FullPath, i32> { panic!("base should not be called without ..") },
            "a/b",
        ),
        Ok(None)
    );
    assert_eq!(
        mapped_at(|| Ok(full("/Users/alice/project")), "../../../tmp/s.sock"),
        Ok(Some(format!("{root}/tmp/s.sock")))
    );
    assert_eq!(
        mapped_at(|| Ok(full("/Users/alice/project")), "../x"),
        Ok(None)
    );
    let base_a = format!("{root}/tmp/a");
    assert_eq!(
        mapped_at(|| Ok(full(&base_a)), "../../etc/hosts"),
        Ok(Some("/private/etc/hosts".to_string()))
    );
    assert_eq!(
        mapped_at(|| Ok(full(&base_a)), "../b"),
        Ok(Some(format!("{root}/tmp/b")))
    );
    assert_eq!(mapped_at(|| Err(libc::ENOENT), "../x"), Err(libc::ENOENT));
    assert_eq!(mapped_at(|| Err(libc::EBADF), "tmp/x"), Err(libc::EBADF));
    assert_eq!(
        mapped_at(|| Ok(FullPath::new(&[0u8; PATH_MAX]).unwrap()), "../x"),
        Err(libc::ENAMETOOLONG)
    );
}

#[test]
fn map_at_with_joins_no_dotdot_paths_from_root_bases() {
    let root = root_text();
    for (base, path, expected) in [
        ("/", "tmp/x", "/tmp/x"),
        ("/private", "tmp/x", "/tmp/x"),
        ("/private/var", "tmp/x", "/var/tmp/x"),
        ("/", "var/tmp/x", "/var/tmp/x"),
        ("/", "private/var/tmp/x", "/var/tmp/x"),
        ("/", "./tmp/x", "/tmp/x"),
        ("/", ".//tmp/x", "/tmp/x"),
    ] {
        assert_eq!(
            mapped_at(|| Ok(full(base)), path),
            Ok(Some(format!("{root}{expected}"))),
            "{base} + {path}"
        );
    }
    assert_eq!(mapped_at(|| Ok(full("/Users/me")), "tmp/x"), Ok(None));
    for path in ["src/main.rs", "a/b", "."] {
        assert_eq!(
            mapped_at(
                || -> Result<FullPath, i32> { panic!("base should not be called for {path}") },
                path,
            ),
            Ok(None),
            "{path}"
        );
    }
    let base_under_root = format!("{root}/tmp/a");
    assert_eq!(
        mapped_at(|| Ok(full(&base_under_root)), "tmp/x"),
        Ok(Some(format!("{root}/tmp/a/tmp/x")))
    );
}

#[test]
fn copies_cwd_result_unmapping_first() {
    let physical = format!("{}/tmp/a", root_text());
    let host = "/private/tmp/a";
    let mut local = [0u8; PATH_MAX];
    local[..physical.len()].copy_from_slice(physical.as_bytes());

    let mut dst = [0u8; PATH_MAX];
    let n = copy_cwd(ROOT, &mut local, physical.len(), &mut dst).unwrap();
    assert_eq!(n, host.len());
    assert_eq!(&dst[..n], host.as_bytes());

    let mut local2 = local;
    let mut dst2 = [0xAAu8; PATH_MAX];
    let err = copy_cwd(ROOT, &mut local2, physical.len(), &mut dst2[..host.len()]).unwrap_err();
    assert_eq!(err, libc::ERANGE);
    assert!(dst2[..host.len()].iter().all(|&b| b == 0xAA));

    let mut other = *b"/other\0\0\0\0\0\0\0\0\0\0";
    let mut dst3 = [0u8; PATH_MAX];
    let n = copy_cwd(ROOT, &mut other, 6, &mut dst3).unwrap();
    assert_eq!(&dst3[..n], b"/other");
}

#[test]
fn copies_readlink_result_unmapping_first() {
    let physical = format!("{}/tmp/target", root_text());
    let host = "/private/tmp/target";
    let mut local = [0u8; PATH_MAX];
    local[..physical.len()].copy_from_slice(physical.as_bytes());

    let mut local1 = local;
    let mut dst = [0xAAu8; 32];
    let n = copy_link(ROOT, &mut local1, physical.len(), &mut dst[..10]);
    assert_eq!(n, 10);
    assert_eq!(&dst[..10], &host.as_bytes()[..10]);

    let mut local2 = local;
    let mut dst2 = [0xAAu8; PATH_MAX];
    let n = copy_link(ROOT, &mut local2, physical.len(), &mut dst2[..host.len()]);
    assert_eq!(n, host.len());
    assert_eq!(&dst2[..host.len()], host.as_bytes());

    let mut other = *b"/other\0\0\0\0\0\0\0\0\0\0";
    let mut dst3 = [0u8; 32];
    let n = copy_link(ROOT, &mut other, 6, &mut dst3);
    assert_eq!(&dst3[..n], b"/other");
}

#[test]
fn rejects_results_beyond_path_max() {
    let path = format!("/tmp/{}", "a".repeat(PATH_MAX - 10));
    let mut out = [0u8; PATH_MAX];
    assert_eq!(
        world::tmp_path::map_at::map(HOST, ROOT, path.as_bytes(), &mut out, &unable),
        Err(libc::ENAMETOOLONG)
    );
    let path = format!("/tmp/{}", "a".repeat(PATH_MAX));
    assert_eq!(world::tmp_path::map_at::map(HOST, ROOT, path.as_bytes(), &mut out, &unable), Ok(None));
}

#[test]
fn unmaps_physical_locations() {
    for (physical, expected) in [
        ("/tmp", Some("/private/tmp")),
        ("/tmp/a/b", Some("/private/tmp/a/b")),
        ("/var/tmp/x", Some("/private/var/tmp/x")),
        ("", None),
        ("/tmpfoo", None),
        ("/other", None),
    ] {
        let mut buf = [ROOT, physical.as_bytes()].concat();
        buf.resize(buf.len() + 1, 0);
        let len = buf.len() - 1;
        let result = unmap_in_place(ROOT, &mut buf, len)
            .map(|n| String::from_utf8(buf[..n].to_vec()).unwrap());
        assert_eq!(result.as_deref(), expected, "{physical}");
    }
    let mut other = b"/private/tmp/x".to_vec();
    assert_eq!(unmap_in_place(ROOT, &mut other, 14), None);
}

#[test]
fn validates_roots() {
    assert!(valid_root(ROOT));
    for root in [
        &b""[..],
        b"/",
        b"/short",
        b"relative/path/root",
        b"/private/tmp/world/",
        b"/private//tmp/world",
        b"/private/tmp/../etc",
        b"/private/./tmp/world",
        b"/private/tmp/world-501/127.77.0.1",
        b"/tmp/world-501/127.77.0.1",
        b"/private/var/tmp/world/127.77.0.1",
    ] {
        assert!(!valid_root(root), "{}", String::from_utf8_lossy(root));
    }
}

#[test]
fn root_length_and_content_limits() {
    let longest = format!("/{}", "a".repeat(MAX_ROOT_LEN - 1));
    assert!(valid_root(longest.as_bytes()));
    assert!(!valid_root(format!("{longest}a").as_bytes()));
    assert!(valid_root(b"/private"));
    assert!(!valid_root(b"/privat"));
    assert!(!valid_root(b"/Users/m\0/w"));
    assert!(valid_root(b"/var/folders/x"));
    assert!(!valid_root(b"/var/tmp/folders"));
}

#[test]
fn unmap_sockaddr_rejects_oversized_report() {
    let mut sa = [0u8; 16];
    assert_eq!(unmap_sockaddr(ROOT, &mut sa, 80), None);
}

#[test]
fn unmap_sockaddr_rewrites_host_name_and_zeroes_freed_tail() {
    let physical = format!("{}/tmp/a", root_text());
    let mut sa = [0xFFu8; 128];
    sa[1] = libc::AF_UNIX as u8;
    sa[2..2 + physical.len()].copy_from_slice(physical.as_bytes());
    sa[2 + physical.len()] = 0;
    let reported = 2 + physical.len() + 1;
    let total = unmap_sockaddr(ROOT, &mut sa, reported).unwrap();
    let host = "/private/tmp/a";
    assert_eq!(total, 2 + host.len() + 1);
    assert_eq!(sa[0], total as u8);
    assert_eq!(&sa[2..2 + host.len()], host.as_bytes());
    assert!(sa[2 + host.len()..reported].iter().all(|&b| b == 0));
}

#[test]
fn requeried_unix_copies_only_up_to_the_caller_capacity() {
    let physical = format!("{}/tmp/s.sock", root_text());
    let mut storage = [0u8; 128];
    storage[1] = libc::AF_UNIX as u8;
    storage[2..2 + physical.len()].copy_from_slice(physical.as_bytes());
    let reported = 2 + physical.len() + 1;

    let mut all = storage;
    let total = unmap_sockaddr(ROOT, &mut all, reported).unwrap();
    assert_eq!(total, 2 + "/private/tmp/s.sock".len() + 1);

    let cap = 20;
    let mut dst = [0xAAu8; 32];
    let reported_len = requeried_unix(ROOT, &mut storage, reported, cap, &mut dst[..cap]).unwrap();
    assert_eq!(reported_len, total);
    assert_eq!(&dst[..cap], &all[..cap]);
    assert!(dst[cap..].iter().all(|&b| b == 0xAA));
}

#[test]
fn addresses_of_other_families_are_left() {
    let physical = format!("{}/tmp/a", root_text());
    let mut sa = [0u8; 128];
    sa[1] = libc::AF_INET as u8;
    sa[2..2 + physical.len()].copy_from_slice(physical.as_bytes());
    let before = sa;
    assert_eq!(unmap_sockaddr(ROOT, &mut sa, 2 + physical.len()), None);
    assert_eq!(sa, before);
    let mut dst = [0xAAu8; 8];
    assert_eq!(
        requeried_unix(ROOT, &mut sa, 2 + physical.len(), 8, &mut dst),
        None
    );
    assert_eq!(dst, [0xAAu8; 8]);
    assert_eq!(SUN_PATH_OFFSET, 2);
}

#[test]
fn map_under_returns_input_when_unmapped() {
    let path = b"/Users/me/project";
    assert_eq!(map_under(HOST, ROOT, path, &unable).unwrap(), path);
}

#[test]
fn map_under_redirects_below_root() {
    let expected = format!("{}/tmp/a/b", root_text());
    assert_eq!(map_under(HOST, ROOT, b"/tmp/a/b", &unable).unwrap(), expected.as_bytes());
}

#[test]
fn map_under_reports_what_it_cannot_resolve() {
    assert_eq!(map_under(HOST, ROOT, b"/tmp/a/../../etc", &unable), Err(libc::ENOSYS));
}

#[test]
fn without_a_kernel_questions_fail() {
    let mut out = [0u8; PATH_MAX];
    assert_eq!(
        world::tmp_path::map_at::map(HOST, ROOT, b"/tmp/a/../../etc", &mut out, &unable),
        Err(libc::ENOSYS)
    );
    assert_eq!(
        map_at(HOST, ROOT, libc::AT_FDCWD, b"../x", &mut out, &unable),
        Err(libc::ENOSYS)
    );
    assert_eq!(map_at(HOST, ROOT, 3, b"a/b", &mut out, &unable), Ok(None));
    let n = map_at(HOST, ROOT, 3, b"/tmp/x", &mut out, &unable).unwrap().unwrap();
    assert_eq!(&out[..n], format!("{}/tmp/x", root_text()).as_bytes());
    assert!(matches!(kernel_full_path(HOST, &unable, b"/x\0"), Err(libc::ENOSYS)));
    assert!(matches!(real_base(HOST, &unable, 3), Err(libc::ENOSYS)));
}

#[test]
fn skips_entries_that_do_not_exist() {
    for errno in [libc::ENOENT, libc::ENOTDIR, libc::EACCES] {
        assert!(skippable(errno));
    }
    for errno in [libc::EIO, libc::ELOOP, libc::ENAMETOOLONG, 0, -1] {
        assert!(!skippable(errno));
    }
}

#[test]
fn small_buffers_are_too_small_for_answers_and_questions() {
    let resolve = fake_resolve(&[], &[]);
    let text = format!("{}/tmp/x", root_text());
    let mut exact = vec![0u8; text.len() + 1];
    assert_eq!(
        map_with(HOST, ROOT, b"/tmp/x", &mut exact, &resolve),
        Ok(Some(text.len()))
    );
    assert_eq!(&exact[..text.len()], text.as_bytes());
    let mut short = vec![0u8; text.len()];
    assert_eq!(
        map_with(HOST, ROOT, b"/tmp/x", &mut short, &resolve),
        Err(libc::ENAMETOOLONG)
    );
    // The question about `/a/` takes up four bytes with its terminator.
    let mut tiny = [0u8; 4];
    assert_eq!(
        map_with(HOST, ROOT, b"/a/../tmp", &mut tiny, &|p: &[u8]| {
            assert_eq!(p, b"/a//\0");
            Err(libc::EIO)
        }),
        Err(libc::ENAMETOOLONG)
    );
    let mut five = [0u8; 5];
    assert_eq!(
        map_with(HOST, ROOT, b"/a/../tmp", &mut five, &|p: &[u8]| {
            assert_eq!(p, b"/a//\0");
            Err(libc::EIO)
        }),
        Err(libc::EIO)
    );
    let mut none: [u8; 0] = [];
    assert_eq!(
        map_with(HOST, ROOT, b"/a/../tmp", &mut none, &resolve),
        Err(libc::ENAMETOOLONG)
    );
}

#[test]
fn overlong_rewritings_are_rejected() {
    // The answer's parent and the remainder together leave no room.
    let path = format!("/a/../tmp/{}", "b".repeat(PATH_MAX - 100));
    let long = format!("/{}", "c".repeat(200));
    assert_eq!(
        mapped_with_resolver(&path, &|_: &[u8]| Ok(full(&format!("{long}/x")))),
        Err(libc::ENAMETOOLONG)
    );
}

#[test]
fn components_are_counted_and_found() {
    assert_eq!(dotdot_count(b"/a/../b/.."), 2);
    assert_eq!(dotdot_count(b"..a/..."), 0);
    assert!(has_tmp_component(b"a/tmp/b"));
    assert!(!has_tmp_component(b"a/tmpx/b"));
    assert_eq!(first_real_component(b".//./tmp/x"), b"tmp");
    assert_eq!(first_real_component(b"."), b"");
    assert_eq!(textual_parent(b"/a/b"), b"/a");
    assert_eq!(textual_parent(b"/a"), b"/");
    assert_eq!(textual_parent(b"/"), b"/");
    assert_eq!(textual_parent(b"a"), b"/");
    assert_eq!(pop_component(b"/a/b", 4), 2);
    assert_eq!(pop_component(b"/a", 2), 1);
    assert_eq!(pop_component(b"/", 1), 1);
    assert_eq!(pop_component(b"", 0), 0);
}

#[test]
fn full_paths_are_bounded() {
    assert!(FullPath::new(&[b'a'; PATH_MAX + 1]).is_none());
    let path = FullPath::new(&[b'a'; PATH_MAX]).unwrap();
    assert_eq!(path.as_bytes().len(), PATH_MAX);
    assert_eq!(full("/x/y").as_bytes(), b"/x/y");
}

/// Component-wise normalization, where `/var` and `/tmp` are symlinks to
/// `/private/var` and `/private/tmp`.
fn normalize_host(path: &[u8]) -> Vec<u8> {
    let mut out: Vec<u8> = Vec::new();
    for component in path.split(|&b| b == b'/') {
        match component {
            b"" | b"." => {}
            b".." => {
                if let Some(pos) = out.iter().rposition(|&b| b == b'/') {
                    out.truncate(pos);
                }
            }
            b"tmp" | b"var" if out.is_empty() => {
                out.extend_from_slice(b"/private");
                out.push(b'/');
                out.extend_from_slice(component);
            }
            _ => {
                out.push(b'/');
                out.extend_from_slice(component);
            }
        }
    }
    if out.is_empty() {
        out.push(b'/');
    }
    out
}

/// Normalize, then relocate what lands under a temp root.
fn expected_host(root: &[u8], path: &[u8]) -> Vec<u8> {
    let n = normalize_host(path);
    for (host, below) in [
        (&b"/private/var/tmp"[..], &b"/var/tmp"[..]),
        (b"/private/tmp", b"/tmp"),
    ] {
        if let Some(rest) = component_rest(&n, host) {
            return [root, below, rest].concat();
        }
    }
    n
}

#[test]
fn normalize_host_expands_var_and_tmp_aliases_only_at_root() {
    assert_eq!(
        normalize_host(b"/var/../private/tmp/a/a"),
        b"/private/private/tmp/a/a"
    );
    assert_eq!(
        normalize_host(b"/tmp/../private/tmp/x"),
        b"/private/private/tmp/x"
    );
    assert_eq!(normalize_host(b"/var/../tmp/x"), b"/private/tmp/x");
}

#[test]
fn map_then_unmap_names_the_host_path() {
    let root = root_text();
    for rest in ["", "/a", "/a.b/c", "/x/y.z/w", "/tmp/var", "/a/b/c/d/e/f"] {
        let mut out = [0u8; PATH_MAX];
        let path = format!("/tmp{rest}");
        let n = world::tmp_path::map_at::map(HOST, ROOT, path.as_bytes(), &mut out, &unable).unwrap().unwrap();
        let world = format!("{root}/tmp{rest}");
        assert_eq!(&out[..n], world.as_bytes());
        let new_len = unmap_in_place(ROOT, &mut out, n).unwrap();
        let host = format!("/private/tmp{rest}");
        assert_eq!(&out[..new_len], host.as_bytes());
    }
}

#[test]
fn map_agrees_with_normalized_oracle() {
    const PARTS: [&str; 7] = ["a", ".", "..", "", "tmp", "private", "var"];
    for len in 1..=5u32 {
        for code in 0..PARTS.len().pow(len) {
            let mut rest = code;
            let mut path = String::new();
            for _ in 0..len {
                path.push('/');
                path.push_str(PARTS[rest % PARTS.len()]);
                rest /= PARTS.len();
            }
            let effective = mapped(&path)
                .map(String::into_bytes)
                .unwrap_or(path.as_bytes().to_vec());
            assert_eq!(
                normalize_host(&effective),
                expected_host(ROOT, path.as_bytes()),
                "{path}"
            );
        }
    }
}

#[test]
fn a_plain_host_is_agreed_with_below_other_roots() {
    // The host answers with canonical names of its own.
    let resolve = |p: &[u8]| {
        let text = normalize_host(&p[..p.len() - 1]);
        Ok(FullPath::new(&text).unwrap())
    };
    for root in [&b"/private/var/folders/x"[..], b"/private", b"/srv/world"] {
        for path in [
            "/tmp/a/../../etc/hosts",
            "/a/../tmp/x",
            "/var/tmp/b/../../c/tmp",
            "/srv/world/tmp/x/../y/tmp",
            "/srv/world/tmp/x",
        ] {
            let mut out = [0u8; PATH_MAX];
            let effective = match map_with(HOST, root, path.as_bytes(), &mut out, &resolve).unwrap() {
                Some(n) => out[..n].to_vec(),
                None => path.as_bytes().to_vec(),
            };
            assert_eq!(
                normalize_host(&effective),
                expected_host(root, path.as_bytes()),
                "{path}"
            );
        }
    }
}

#[test]
fn physical_paths_are_not_redirected_again() {
    for rest in ["", "/tmp/x", "/var/tmp/y", "/tmp/private/tmp"] {
        assert_eq!(mapped(&format!("{}{rest}", root_text())), None);
    }
}

#[test]
fn targets_agree_with_the_kernel_where_they_are_redirected() {
    for target in ["/tmp/x", "/private/var/tmp/y/../z", "/var/../tmp"] {
        assert_eq!(target_mapped(target), mapped_with(target, &[]));
        assert!(target_mapped(target).unwrap().is_some());
    }
}

#[test]
fn names_are_found_in_the_kernels_answer() {
    let mut answer = vec![0u8; 12];
    answer[4..8].copy_from_slice(&8i32.to_le_bytes());
    answer[8..12].copy_from_slice(&9u32.to_le_bytes());
    answer.extend_from_slice(b"/private\0rest");
    assert_eq!(answered_name(HOST, &answer, 4096), Ok(b"/private".to_vec()));
    assert_eq!(answered_name(HOST, &answer, 9), Ok(b"/private".to_vec()));
    assert_eq!(answered_name(HOST, &answer, 8), Err(libc::ENAMETOOLONG));
    answer[8..12].copy_from_slice(&100u32.to_le_bytes());
    assert_eq!(answered_name(HOST, &answer, 4096), Err(libc::EIO));
    answer[8..12].copy_from_slice(&1u32.to_le_bytes());
    answer[4..8].copy_from_slice(&(-5i32).to_le_bytes());
    assert_eq!(answered_name(HOST, &answer, 4096), Err(libc::EIO));
    assert_eq!(answered_name(HOST, &answer[..11], 4096), Err(libc::EIO));
}

/// The numbers of macOS.
const MAC_PATH_MAX: usize = 1024;
const MAC_ELOOP: i32 = 62;
const MAC_ENAMETOOLONG: i32 = 63;
const MAC_AT_FDCWD: i32 = -2;

#[test]
fn mac_errors_have_their_own_numbers() {
    let mut out = [0u8; PATH_ROOM];
    assert_eq!(
        map_with(Platform::Mac, ROOT, b"/a/../tmp/x", &mut out, &|_: &[u8]| Ok(full("/b/.."))),
        Err(MAC_ELOOP)
    );
    assert_eq!(
        map_with(Platform::Mac, ROOT, b"/tmp/x", &mut [0; 8], &unasked),
        Err(MAC_ENAMETOOLONG)
    );
    assert_eq!(
        map_target(Platform::Mac, ROOT, b"/tmp/x", &mut [0; 8]),
        Err(MAC_ENAMETOOLONG)
    );
    // A path of the limit is left alone; the longest one is mapped.
    let longest = format!("/tmp/{}", "x".repeat(MAC_PATH_MAX - 6));
    assert_eq!(longest.len(), MAC_PATH_MAX - 1);
    let overlong = format!("{longest}x");
    let location = ROOT.len() + longest.len();
    assert_eq!(
        map_with(Platform::Mac, ROOT, longest.as_bytes(), &mut out, &unasked),
        Ok(Some(location))
    );
    assert_eq!(
        map_with(Platform::Mac, ROOT, overlong.as_bytes(), &mut out, &unasked),
        Ok(None)
    );
    assert_eq!(
        map_with(HOST, ROOT, overlong.as_bytes(), &mut out, &unasked),
        Ok(Some(location + 1))
    );
    let long_base = || Ok(full(&"/x".repeat(MAC_PATH_MAX / 2)));
    assert_eq!(
        map_at_with(Platform::Mac, ROOT, b"../x", &mut out, long_base, &unasked),
        Err(MAC_ENAMETOOLONG)
    );
    let joined = || Ok(full(&"/x".repeat(MAC_PATH_MAX / 2 - 1)));
    assert_eq!(
        map_at_with(Platform::Mac, ROOT, b"tmp", &mut out, joined, &unasked),
        Err(MAC_ENAMETOOLONG)
    );
    let deep = |_: &[u8]| Ok(full(&format!("/{}/z", "x".repeat(MAC_PATH_MAX - 4))));
    assert_eq!(
        map_with(Platform::Mac, ROOT, b"/a/../tmp/x", &mut out, &deep),
        Err(MAC_ENAMETOOLONG)
    );
    assert!(map_with(HOST, ROOT, b"/a/../tmp/x", &mut out, &deep).is_ok());
    let mut answer = vec![0u8; 12];
    answer[4] = 8;
    answer[8] = 9;
    answer.extend_from_slice(b"/private\0");
    assert_eq!(answered_name(Platform::Mac, &answer, 8), Err(MAC_ENAMETOOLONG));
    assert_eq!(answered_name(Platform::Mac, &answer, 9), Ok(b"/private".to_vec()));
}

#[test]
fn mac_is_asked() {
    let ask = |fd: i32, path: &[u8]| match (fd, path) {
        (MAC_AT_FDCWD, b"/a//\0") => Ok(full("/private/tmp/dir")),
        (7, b"./\0") => Ok(full("/Users/me")),
        (8, b"./\0") => Err(libc::EACCES),
        _ => panic!("asked about {path:?} from {fd}"),
    };
    let mut out = [0u8; PATH_ROOM];
    let expected = format!("{}/tmp/tmp/x", root_text());
    let n = world::tmp_path::map_at::map(Platform::Mac, ROOT, b"/a/../tmp/x", &mut out, &ask)
        .unwrap()
        .unwrap();
    assert_eq!(out[..n], *expected.as_bytes());
    assert_eq!(
        map_under(Platform::Mac, ROOT, b"/a/../tmp/x", &ask).unwrap(),
        expected.as_bytes()
    );
    let n = map_at(Platform::Mac, ROOT, 7, b"../../tmp/x", &mut out, &ask).unwrap().unwrap();
    assert_eq!(out[..n], *format!("{}/tmp/x", root_text()).as_bytes());
    assert_eq!(map_at(Platform::Mac, ROOT, 8, b"../x", &mut out, &ask), Err(libc::EACCES));
    assert_eq!(real_base(Platform::Mac, &ask, 7).unwrap().as_bytes(), b"/Users/me");
    assert!(matches!(real_base(Platform::Mac, &ask, 8), Err(libc::EACCES)));
    let asked = kernel_full_path(Platform::Mac, &ask, b"/a//\0").unwrap();
    assert_eq!(asked.as_bytes(), b"/private/tmp/dir");
}
