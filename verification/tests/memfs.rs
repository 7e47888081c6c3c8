use rv64_system::hostfs::{
    clamp_nanos, export_relative, needs_handle, owner_argument, owner_unchanged, permissions,
    plan_open, OpenPlan, ELOOP, O_RDWR,
};
use rv64_system::memfs::{
    makedev, MemFs, EEXIST, EINVAL, EISDIR, ENOENT, ENOTDIR, ENOTEMPTY, O_TRUNC, S_IFDIR, S_IFLNK,
    S_IFMT, S_IFREG,
};

/// One ustar record (header + padded data).
fn tar_entry(name: &str, kind: u8, data: &[u8], link: &str) -> Vec<u8> {
    fn oct(h: &mut [u8], off: usize, width: usize, v: u64) {
        let s = format!("{:0w$o}", v, w = width - 1);
        h[off..off + s.len()].copy_from_slice(s.as_bytes());
    }
    let mut out = vec![0u8; 512];
    out[..name.len()].copy_from_slice(name.as_bytes());
    oct(&mut out, 100, 8, 0o644); // mode
    oct(&mut out, 124, 12, data.len() as u64); // size
    out[156] = kind;
    out[157..157 + link.len()].copy_from_slice(link.as_bytes());
    out[257..262].copy_from_slice(b"ustar");
    out.extend_from_slice(data);
    out.resize(512 + data.len().div_ceil(512) * 512, 0);
    out
}

#[test]
fn memfs_loads_a_tar_archive() {
    let mut tar = Vec::new();
    tar.extend(tar_entry("bin/", b'5', b"", ""));
    tar.extend(tar_entry("bin/hello", b'0', b"#!/bin/sh\necho hi\n", ""));
    tar.extend(tar_entry("bin/sh", b'2', b"", "busybox"));
    tar.extend(tar_entry("empty", b'0', b"", ""));
    tar.extend(vec![0u8; 1024]); // end-of-archive

    let mut fs = MemFs::new();
    assert_eq!(fs.load_tar(&tar), 4);
    assert_eq!(fs.lstat("/bin").unwrap().mode & S_IFMT, S_IFDIR);
    let hello = fs.lstat("/bin/hello").unwrap();
    assert_eq!(hello.size, 18);
    assert_eq!(hello.mode, S_IFREG | 0o644);
    let mut buf = [0u8; 32];
    let n = fs.read("/bin/hello", 0, &mut buf).unwrap();
    assert_eq!(&buf[..n], b"#!/bin/sh\necho hi\n");
    assert_eq!(fs.readlink("/bin/sh").unwrap(), "busybox");
    assert_eq!(fs.lstat("/empty").unwrap().size, 0);
    // Every node gets a distinct inode, since clients cache qids.
    assert_ne!(fs.lstat("/bin").unwrap().ino, hello.ino);
}

#[test]
fn memfs_inodes_are_never_reused() {
    let mut fs = MemFs::new();
    fs.add_file("/a", b"x", 0o644);
    let first = fs.lstat("/a").unwrap().ino;
    fs.remove("/a", false).unwrap();
    fs.create("/b", 0, 0o644).unwrap();
    // A client that cached the old qid must not see it point at new data.
    assert_ne!(fs.lstat("/b").unwrap().ino, first);
}

#[test]
fn a_directory_that_is_made_again_stays_as_it_is() {
    let mut fs = MemFs::new();
    fs.add_file("/a/f", b"data", 0o644);
    let file = fs.lstat("/a/f").unwrap();
    let parent = fs.lstat("/a").unwrap();
    let made = fs.add_dir("/a/b/c");
    for path in ["/a", "/a/b", "/a/b/c"] {
        assert_eq!(fs.lstat(path).unwrap().mode & S_IFMT, S_IFDIR);
    }
    assert_eq!(fs.lstat("/a/b/c").unwrap().ino, made as u64 + 1);
    assert_eq!(fs.lstat("/a").unwrap().ino, parent.ino);
    assert_eq!(fs.lstat("/a/f").unwrap(), file);
    assert_eq!(fs.add_dir("/a/b/c"), made);
    assert_eq!(fs.readdir("/a").unwrap().len(), 2);
    assert_eq!(fs.add_dir("/new"), made + 1);
}

#[test]
fn memfs_rejects_removing_a_populated_directory() {
    let mut fs = MemFs::new();
    fs.add_file("/d/inner", b"x", 0o644);
    assert_eq!(fs.remove("/d", true), Err(ENOTEMPTY));
    fs.remove("/d/inner", false).unwrap();
    assert!(fs.remove("/d", true).is_ok());
}

#[test]
fn the_same_archive_loads_through_the_checked_entry() {
    let mut tar = Vec::new();
    tar.extend(tar_entry("etc/", b'5', b"", ""));
    tar.extend(tar_entry("etc/motd", b'0', b"welcome", ""));
    let mut fs = MemFs::new();
    assert_eq!(fs.try_load_tar(&tar), Some(2));
    assert_eq!(fs.lstat("/etc/motd").unwrap().size, 7);
}

#[test]
fn a_long_name_record_names_the_next_entry() {
    let long = format!("{}/{}", "d".repeat(80), "f".repeat(60));
    let mut tar = Vec::new();
    let mut name = long.clone().into_bytes();
    name.push(0);
    tar.extend(tar_entry("././@LongLink", b'L', &name, ""));
    tar.extend(tar_entry("short", b'0', b"body", ""));
    let mut fs = MemFs::new();
    assert_eq!(fs.load_tar(&tar), 1);
    assert_eq!(fs.lstat(&format!("/{}", long)).unwrap().size, 4);
    assert_eq!(fs.lstat("/short"), Err(ENOENT));
}

#[test]
fn a_truncated_archive_keeps_what_is_there() {
    let mut tar = tar_entry("kept", b'0', b"data", "");
    let cut = tar_entry("cut", b'0', &[7u8; 600], "");
    tar.extend_from_slice(&cut[..700]);
    let mut fs = MemFs::new();
    assert_eq!(fs.load_tar(&tar), 2);
    assert_eq!(fs.lstat("/cut").unwrap().size, 188);
}

#[test]
fn reads_give_back_what_was_written() {
    let mut fs = MemFs::new();
    fs.create("/f", 0, 0o600).unwrap();
    assert_eq!(fs.write("/f", 3, b"abc"), Ok(3));
    assert_eq!(fs.lstat("/f").unwrap().size, 6);
    let mut buf = [0xffu8; 8];
    assert_eq!(fs.read("/f", 0, &mut buf), Ok(6));
    assert_eq!(&buf, b"\0\0\0abc\xff\xff");
    assert_eq!(fs.read("/f", 6, &mut buf), Ok(0));
    assert_eq!(fs.read("/f", u64::MAX, &mut buf), Ok(0));
    fs.truncate("/f", 4).unwrap();
    assert_eq!(fs.read("/f", 0, &mut buf), Ok(4));
    assert_eq!(&buf[..4], b"\0\0\0a");
    assert_eq!(fs.open("/f", O_TRUNC).unwrap().size, 0);
    assert_eq!(fs.read("/f", 0, &mut buf), Ok(0));
}

#[test]
fn errors_name_what_is_in_the_way() {
    let mut fs = MemFs::new();
    fs.add_file("/d/f", b"x", 0o644);
    let mut buf = [0u8; 1];
    assert_eq!(fs.lstat("/none"), Err(ENOENT));
    assert_eq!(fs.read("/d", 0, &mut buf), Err(EISDIR));
    assert_eq!(fs.write("/d", 0, b"x"), Err(EISDIR));
    assert_eq!(fs.truncate("/none", 0), Err(ENOENT));
    assert_eq!(fs.create("/d/f", 0, 0o644), Err(EEXIST));
    assert_eq!(fs.mkdir("/d", 0o755), Err(EEXIST));
    assert_eq!(fs.readlink("/d/f"), Err(EINVAL));
    assert!(matches!(fs.readdir("/d/f"), Err(ENOTDIR)));
    assert!(matches!(fs.readdir("/gone"), Err(ENOENT)));
    assert_eq!(fs.remove("/gone", false), Err(ENOENT));
    assert_eq!(fs.rename("/gone", "/there"), Err(ENOENT));
}

#[test]
fn directories_list_their_entries_in_order() {
    let mut fs = MemFs::new();
    fs.add_file("/zeta", b"", 0o644);
    fs.add_dir("/alpha");
    fs.add_symlink("/mid", "alpha");
    let names: Vec<String> = fs.readdir("/").unwrap().into_iter().map(|e| e.name).collect();
    assert_eq!(names, vec!["alpha".to_string(), "mid".to_string(), "zeta".to_string()]);
    assert_eq!(fs.lstat("/mid").unwrap().mode & S_IFMT, S_IFLNK);
    assert_eq!(fs.readlink("/mid").unwrap(), "alpha");
}

#[test]
fn a_rename_moves_the_entry_over_another() {
    let mut fs = MemFs::new();
    fs.add_file("/one", b"first", 0o644);
    fs.add_file("/two", b"second!", 0o644);
    let moved = fs.lstat("/one").unwrap().ino;
    fs.rename("/one", "/two").unwrap();
    assert_eq!(fs.lstat("/one"), Err(ENOENT));
    assert_eq!(fs.lstat("/two").unwrap().ino, moved);
    assert_eq!(fs.lstat("/two").unwrap().size, 5);
}

#[test]
fn a_hard_link_shares_the_node() {
    let mut fs = MemFs::new();
    fs.add_file("/one", b"shared", 0o644);
    fs.hardlink("/one", "/two").unwrap();
    assert_eq!(fs.lstat("/one").unwrap().ino, fs.lstat("/two").unwrap().ino);
    assert_eq!(fs.lstat("/one").unwrap().nlink, 1);
    fs.write("/two", 0, b"SH").unwrap();
    let mut buf = [0u8; 6];
    assert_eq!(fs.read("/one", 0, &mut buf), Ok(6));
    assert_eq!(&buf, b"SHared");
    assert_eq!(fs.hardlink("/none", "/three"), Err(ENOENT));
}

#[test]
fn attributes_change_one_at_a_time() {
    let mut fs = MemFs::new();
    fs.add_file("/f", b"", 0o644);
    fs.set_mode("/f", 0o7777).unwrap();
    assert_eq!(fs.lstat("/f").unwrap().mode, S_IFREG | 0o7777);
    fs.set_owner("/f", Some(7), None).unwrap();
    fs.set_owner("/f", None, Some(8)).unwrap();
    assert_eq!((fs.lstat("/f").unwrap().uid, fs.lstat("/f").unwrap().gid), (7, 8));
    fs.set_times("/f", Some((1, 2)), None).unwrap();
    assert_eq!(fs.lstat("/f").unwrap().atime, (1, 2));
    assert_eq!(fs.set_mode("/g", 0), Err(ENOENT));
    assert_eq!(fs.set_owner("/g", None, None), Err(ENOENT));
    assert_eq!(fs.set_times("/g", None, None), Err(ENOENT));
}

#[test]
fn device_numbers_pack_as_on_linux() {
    assert_eq!(makedev(8, 1), 0x801);
    assert_eq!(makedev(0x1234, 0x5_6789), 0x1000_5672_3489);
}

#[test]
fn the_capacity_bounds_what_is_free() {
    let mut fs = MemFs::new();
    let before = fs.statfs();
    fs.add_file("/f", &[0u8; 4096 * 3], 0o644);
    let after = fs.statfs();
    assert_eq!(before.blocks, after.blocks);
    assert!(after.bfree < before.bfree);
    fs.set_capacity(0);
    assert_eq!(fs.statfs().bfree, 0);
}

#[test]
fn exported_paths_stay_relative() {
    assert_eq!(export_relative(&['/', 'a', '/', 'b']), vec!['a', '/', 'b']);
    assert_eq!(export_relative(&['/']), Vec::<char>::new());
    assert_eq!(export_relative(&[]), Vec::<char>::new());
}

#[test]
fn links_are_refused_and_handles_kept_for_files() {
    assert_eq!(ELOOP, 40);
    assert_eq!(plan_open(true, false, 2), OpenPlan::Refuse(40));
    assert_eq!(plan_open(false, true, 2), OpenPlan::Directory);
    assert_eq!(
        plan_open(false, false, O_RDWR | O_TRUNC),
        OpenPlan::File { writable: true, truncate: true },
    );
    assert_eq!(
        plan_open(false, false, O_TRUNC),
        OpenPlan::File { writable: false, truncate: false },
    );
    assert!(needs_handle(None, false));
    assert!(needs_handle(Some(false), true));
    assert!(!needs_handle(Some(true), true));
    assert!(!needs_handle(Some(false), false));
}

#[test]
fn owners_and_times_are_clamped() {
    assert!(owner_unchanged(Some(5), None, (5, 6)));
    assert!(!owner_unchanged(Some(7), None, (5, 6)));
    assert!(!owner_unchanged(None, Some(7), (5, 6)));
    assert_eq!(owner_argument(None), u32::MAX);
    assert_eq!(owner_argument(Some(3)), 3);
    assert_eq!(clamp_nanos(5_000_000_000), 999_999_999);
    assert_eq!(clamp_nanos(7), 7);
    assert_eq!(permissions(S_IFREG | 0o644), 0o644);
}
