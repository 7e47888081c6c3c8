//! The decisions of the backend that exports a host directory.

use vstd::prelude::*;
use crate::memfs::O_TRUNC;
use crate::text::piece;

verus! {

/// What opening a symbolic link is refused with. The client walks symlinks
/// itself, so it has no business opening one; refusing keeps a host-absolute
/// target from being followed out of the export.
pub const ELOOP: i32 = 40;

pub const O_WRONLY: u32 = 1;

pub const O_RDWR: u32 = 2;

/// A path of the export relative to its root: without its leading slash.
pub fn export_relative(path: &[char]) -> (r: Vec<char>)
    ensures
        r@ == if path@.len() == 0 {
            path@
        } else {
            path@.subrange(1, path@.len() as int)
        },
{
    if path.len() == 0 {
        let r: Vec<char> = Vec::new();
        assert(r@ =~= path@);
        r
    } else {
        piece(path, 1, path.len())
    }
}

/// Whether a handle has to be opened: there is none, or it cannot be written to
/// and a write arrives. `held` says whether a held handle can be written to.
pub fn needs_handle(held: Option<bool>, write: bool) -> (r: bool)
    ensures
        r == match held {
            Some(writable) => write && !writable,
            None => true,
        },
{
    match held {
        Some(writable) => write && !writable,
        None => true,
    }
}

/// What to do about opening a node.
#[derive(Debug, Clone, Copy, PartialEq, Eq, Structural)]
pub enum OpenPlan {
    /// Refuse it.
    Refuse(i32),
    /// Directories need no handle.
    Directory,
    /// Open a handle.
    File { writable: bool, truncate: bool },
}

/// What to do about opening a node.
pub fn plan_open(is_symlink: bool, is_dir: bool, flags: u32) -> (plan: OpenPlan)
    ensures
        plan == ({
            let writable = flags % 4 != 0;
            if is_symlink {
                OpenPlan::Refuse(ELOOP)
            } else if is_dir {
                OpenPlan::Directory
            } else {
                OpenPlan::File { writable, truncate: writable && flags / O_TRUNC % 2 == 1 }
            }
        }),
{
    if is_symlink {
        return OpenPlan::Refuse(ELOOP);
    }
    if is_dir {
        return OpenPlan::Directory;
    }
    let writable: bool = flags % (O_WRONLY + O_RDWR + 1) != 0;
    OpenPlan::File { writable, truncate: writable && flags / O_TRUNC % 2 == 1 }
}

/// Whether a change of owner changes nothing. It must succeed even unprivileged:
/// the guest issues one on some file creations, and failing it would fail the
/// create.
pub fn owner_unchanged(uid: Option<u32>, gid: Option<u32>, now: (u32, u32)) -> (r: bool)
    ensures
        r == ((uid is None || uid == Some(now.0)) && (gid is None || gid == Some(now.1))),
{
    let same_uid: bool = match uid {
        None => true,
        Some(u) => u == now.0,
    };
    let same_gid: bool = match gid {
        None => true,
        Some(g) => g == now.1,
    };
    same_uid && same_gid
}

/// The owner to ask the host for: the greatest number leaves it unchanged.
pub fn owner_argument(id: Option<u32>) -> (v: u32)
    ensures
        v == match id {
            Some(id) => id,
            None => u32::MAX,
        },
{
    match id {
        Some(id) => id,
        None => u32::MAX,
    }
}

/// Nanoseconds within a second.
pub fn clamp_nanos(ns: u64) -> (n: u32)
    ensures
        n == if ns < 999_999_999 {
            ns as u32
        } else {
            999_999_999
        },
{
    if ns < 999_999_999 {
        ns as u32
    } else {
        999_999_999
    }
}

/// The permission bits of a mode.
pub fn permissions(mode: u32) -> (bits: u32)
    ensures
        bits == mode % 0o10000,
{
    mode % 0o10000
}

} // verus!
