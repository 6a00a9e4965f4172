//! The Linux backend's per-entry logic: turning what `getdents64` and `statx`
//! report for an entry into a [`DirEntry`]. The caller performs the system calls
//! and hands over the raw fields as plain values.
use super::{combine_stamp, stamp_nanos, DirEntry, FileId};
use crate::predicate::EntryType;
use crate::syntax::decode::{bytes_decode, decode_bytes};
use vstd::prelude::*;

verus! {

/// The `statx` mask bit for the access time.
pub const STATX_ATIME: u32 = 0x20;

/// The `statx` mask bit for the modification time.
pub const STATX_MTIME: u32 = 0x40;

/// The `statx` mask bit for the status-change time.
pub const STATX_CTIME: u32 = 0x80;

/// The `statx` mask bit for the birth time.
pub const STATX_BTIME: u32 = 0x800;

/// A `statx` timestamp: whole seconds and the nanoseconds past them.
#[derive(Clone, Copy, Debug)]
pub struct StatxTime {
    /// Seconds since the Unix epoch.
    pub sec: i64,
    /// Nanoseconds within the second.
    pub nsec: u32,
}

/// The `statx` fields an entry is built from.
#[derive(Clone, Copy, Debug)]
pub struct StatxFields {
    /// Which fields the kernel filled in.
    pub mask: u32,
    /// The file mode, type bits included.
    pub mode: u16,
    /// The file size in bytes.
    pub size: u64,
    /// The inode number.
    pub ino: u64,
    /// The device's major number.
    pub dev_major: u32,
    /// The device's minor number.
    pub dev_minor: u32,
    /// Last access.
    pub atime: StatxTime,
    /// Birth.
    pub btime: StatxTime,
    /// Status change.
    pub ctime: StatxTime,
    /// Last modification.
    pub mtime: StatxTime,
}

/// Nanoseconds since the epoch for a `statx` timestamp, or 0 when the kernel did not
/// fill that field (its bit is clear in `mask`).
pub open spec fn statx_nanos(mask: u32, field: u32, ts: StatxTime) -> i64 {
    if mask & field != field {
        0
    } else {
        stamp_nanos(ts.sec, ts.nsec as i64)
    }
}

/// Nanoseconds since the epoch for a `statx` timestamp, or 0 when the kernel did not
/// populate that field.
pub fn statx_time(mask: u32, field: u32, ts: StatxTime) -> (r: i64)
    ensures
        r == statx_nanos(mask, field, ts),
{
    if mask & field != field {
        return 0;
    }
    combine_stamp(ts.sec, ts.nsec as i64)
}

/// The kind of object a mode's type bits name.
#[derive(Clone, Copy, Debug, PartialEq, Eq, Structural)]
pub enum ModeKind {
    /// A regular file.
    RegularFile,
    /// A directory.
    Directory,
    /// A symbolic link.
    Symlink,
    /// Anything else.
    Other,
}

/// The kind a mode's `S_IFMT` bits name.
pub open spec fn kind_of_mode(mode: u32) -> ModeKind {
    let t = mode & 0o170000u32;
    if t == 0o100000u32 {
        ModeKind::RegularFile
    } else if t == 0o040000u32 {
        ModeKind::Directory
    } else if t == 0o120000u32 {
        ModeKind::Symlink
    } else {
        ModeKind::Other
    }
}

/// `rustix::fs::FileType::from_raw_mode`: the type named by the mode's `S_IFMT` bits
/// (regular file, directory, symlink, and the other kinds folded together).
#[verifier::external_body]
fn file_kind(mode: u32) -> (r: ModeKind)
    ensures
        r == kind_of_mode(mode),
{
    match rustix::fs::FileType::from_raw_mode(mode) {
        rustix::fs::FileType::RegularFile => ModeKind::RegularFile,
        rustix::fs::FileType::Directory => ModeKind::Directory,
        rustix::fs::FileType::Symlink => ModeKind::Symlink,
        rustix::fs::FileType::Fifo => ModeKind::Other,
        rustix::fs::FileType::Socket => ModeKind::Other,
        rustix::fs::FileType::CharacterDevice => ModeKind::Other,
        rustix::fs::FileType::BlockDevice => ModeKind::Other,
        rustix::fs::FileType::Unknown => ModeKind::Other,
    }
}

/// The Linux device number of a major/minor pair.
pub open spec fn dev_of(major: u32, minor: u32) -> u64 {
    (((major as u64) & 0xffff_f000u64) << 32u64) | (((major as u64) & 0x0000_0fffu64) << 8u64) | ((
    (minor as u64) & 0xffff_ff00u64) << 12u64) | ((minor as u64) & 0x0000_00ffu64)
}

/// `rustix::fs::makedev`: the device number of a major/minor pair, by the Linux
/// encoding.
#[verifier::external_body]
fn make_dev(major: u32, minor: u32) -> (r: u64)
    ensures
        r == dev_of(major, minor),
{
    rustix::fs::makedev(major, minor)
}

/// Whether a listed name is `.` or `..`.
pub fn is_dot_entry(name: &[u8]) -> (r: bool)
    ensures
        r == (name@ == seq![0x2Eu8] || name@ == seq![0x2Eu8, 0x2Eu8]),
{
    if name.len() == 1 {
        let r = name[0] == 0x2E;
        assert(r ==> name@ =~= seq![0x2Eu8]);
        r
    } else if name.len() == 2 {
        let r = name[0] == 0x2E && name[1] == 0x2E;
        assert(r ==> name@ =~= seq![0x2Eu8, 0x2Eu8]);
        r
    } else {
        false
    }
}

/// The entry kind and reparse status a mode gives: directories and regular files as
/// such, a symlink as a reparse point of kind "other", anything else as "other".
pub open spec fn kind_entry(k: ModeKind) -> (EntryType, bool) {
    match k {
        ModeKind::Directory => (EntryType::Dir, false),
        ModeKind::RegularFile => (EntryType::File, false),
        ModeKind::Symlink => (EntryType::Other, true),
        ModeKind::Other => (EntryType::Other, false),
    }
}

/// Build a [`DirEntry`] from an entry's raw name bytes and its `statx` fields.
pub fn make_entry(name: &[u8], st: &StatxFields) -> (r: DirEntry)
    ensures
        r.name@ == bytes_decode(name@),
        (r.entry_type, r.is_reparse) == kind_entry(kind_of_mode(st.mode as u32)),
        r.reparse_tag == 0 && r.attributes == 0,
        r.size == st.size,
        r.btime == statx_nanos(st.mask, STATX_BTIME, st.btime),
        r.mtime == statx_nanos(st.mask, STATX_MTIME, st.mtime),
        r.atime == statx_nanos(st.mask, STATX_ATIME, st.atime),
        r.ctime == statx_nanos(st.mask, STATX_CTIME, st.ctime),
        r.file_id == (FileId { volume: dev_of(st.dev_major, st.dev_minor), id: st.ino as u128 }),
{
    let (entry_type, is_reparse) = match file_kind(st.mode as u32) {
        ModeKind::Directory => (EntryType::Dir, false),
        ModeKind::RegularFile => (EntryType::File, false),
        ModeKind::Symlink => (EntryType::Other, true),
        ModeKind::Other => (EntryType::Other, false),
    };
    let volume = make_dev(st.dev_major, st.dev_minor);
    DirEntry {
        name: decode_bytes(name),
        entry_type,
        is_reparse,
        reparse_tag: 0,
        attributes: 0,
        size: st.size,
        btime: statx_time(st.mask, STATX_BTIME, st.btime),
        mtime: statx_time(st.mask, STATX_MTIME, st.mtime),
        atime: statx_time(st.mask, STATX_ATIME, st.atime),
        ctime: statx_time(st.mask, STATX_CTIME, st.ctime),
        file_id: FileId { volume, id: st.ino as u128 },
    }
}

} // verus!
