//! Platform layer: the shape of an enumerated directory entry, what a scan must
//! fetch, and the arithmetic that turns platform timestamps into nanoseconds. The
//! reading itself (opening directories, listing, statting) is done by the caller,
//! which hands the values it read to the functions here.
use crate::error::ExIoError;
use crate::predicate::{EntryMeta, EntryType};
use crate::syntax::CodePoint;
use vstd::prelude::*;

pub mod linux;
pub mod win;

verus! {

/// A filesystem object identity for cycle detection: volume + file id. `{0, 0}`
/// stands for "unknown".
#[derive(Clone, Copy, Debug, PartialEq, Eq, Structural, Hash)]
pub struct FileId {
    /// Volume identity (Unix `st_dev`).
    pub volume: u64,
    /// File identity within the volume (Unix inode).
    pub id: u128,
}

/// What a directory read error does to the listing in progress.
#[derive(Clone, Copy, Debug, PartialEq, Eq, Structural)]
pub enum ReadFailure {
    /// Nothing usable was listed yet: the error is the enumeration's outcome.
    Propagate,
    /// Entries were already listed: they are kept, the error is recorded among the
    /// entry errors, and the listing ends.
    KeepPartial,
}

/// The late-read-error rule: a read error before any entry was listed fails the
/// enumeration; after one or more entries it keeps the partial listing.
pub fn read_failure(entries_so_far: usize) -> (r: ReadFailure)
    ensures
        r == (if entries_so_far == 0 {
            ReadFailure::Propagate
        } else {
            ReadFailure::KeepPartial
        }),
{
    if entries_so_far == 0 {
        ReadFailure::Propagate
    } else {
        ReadFailure::KeepPartial
    }
}

/// Whether `id` is a real filesystem identity rather than the unknown sentinel.
pub fn file_id_known(id: FileId) -> (r: bool)
    ensures
        r == (id.volume != 0 || id.id != 0),
{
    id.volume != 0 || id.id != 0
}

/// One enumerated directory entry with its inline metadata. `name` is decoded into
/// code-point space.
#[derive(Clone, Debug)]
pub struct DirEntry {
    /// The entry's own name in code-point space.
    pub name: Vec<CodePoint>,
    /// The entry kind.
    pub entry_type: EntryType,
    /// Whether the entry is a reparse point / symlink.
    pub is_reparse: bool,
    /// The reparse tag (0 where the platform has none).
    pub reparse_tag: u32,
    /// The attribute bitmask (0 on Unix).
    pub attributes: u32,
    /// File size in bytes.
    pub size: u64,
    /// Birth / creation time (nanoseconds since the Unix epoch; 0 if unavailable).
    pub btime: i64,
    /// Last-modification time.
    pub mtime: i64,
    /// Last-access time.
    pub atime: i64,
    /// Metadata-change time.
    pub ctime: i64,
    /// Object identity for cycle detection.
    pub file_id: FileId,
}

impl DirEntry {
    /// Borrow this entry as an [`EntryMeta`] for predicate evaluation at `depth`.
    pub fn meta(&self, depth: u32) -> (r: EntryMeta<'_>)
        ensures
            r.name@ == self.name@,
            r.depth == depth,
            r.entry_type == self.entry_type,
            r.is_reparse == self.is_reparse,
            r.reparse_tag == self.reparse_tag,
            r.attributes == self.attributes,
            r.size == self.size,
            r.btime == self.btime,
            r.mtime == self.mtime,
            r.atime == self.atime,
            r.ctime == self.ctime,
    {
        EntryMeta {
            name: self.name.as_slice(),
            depth,
            entry_type: self.entry_type,
            is_reparse: self.is_reparse,
            reparse_tag: self.reparse_tag,
            attributes: self.attributes,
            size: self.size,
            btime: self.btime,
            mtime: self.mtime,
            atime: self.atime,
            ctime: self.ctime,
        }
    }
}

/// The result of enumerating one directory: the entries read successfully, plus any
/// per-entry failures encountered while reading their metadata. A failure on one
/// entry never discards its siblings.
pub struct DirScan {
    /// The entries read successfully, with inline metadata.
    pub entries: Vec<DirEntry>,
    /// Per-entry metadata failures, each carrying the failing entry's name when known.
    pub entry_errors: Vec<EntryFailure>,
}

/// A per-entry failure encountered while enumerating a directory: the OS error plus
/// the failing entry's name when it can be attributed to one.
pub struct EntryFailure {
    /// The failing entry's decoded name, when a specific entry can be named.
    pub name: Option<Vec<CodePoint>>,
    /// The underlying OS error.
    pub source: std::io::Error,
}

/// What each entry's metadata must provide, so a backend can skip the stat when
/// only names/types are wanted. The entry type and reparse status come from the
/// directory listing itself and never require a stat.
#[derive(Clone, Copy, Debug)]
pub struct EnumPlan {
    /// Fetch the stat-tier fields (size, timestamps, attributes).
    pub want_stat: bool,
    /// Fetch every entry's file identity.
    pub want_file_id: bool,
    /// Fetch file identity for reparse points only (the narrower need of cycle
    /// detection).
    pub want_reparse_file_id: bool,
}

impl EnumPlan {
    /// Fetch everything.
    pub fn full() -> (r: EnumPlan)
        ensures
            r.want_stat && r.want_file_id && r.want_reparse_file_id,
    {
        EnumPlan { want_stat: true, want_file_id: true, want_reparse_file_id: true }
    }

    /// Whether any file identity is requested (all entries or reparse-only).
    pub fn wants_any_file_id(&self) -> (r: bool)
        ensures
            r == (self.want_file_id || self.want_reparse_file_id),
    {
        self.want_file_id || self.want_reparse_file_id
    }

    /// Whether an entry with the given reparse status needs its file identity fetched.
    pub fn wants_file_id_for(&self, is_reparse: bool) -> (r: bool)
        ensures
            r == (self.want_file_id || (is_reparse && self.want_reparse_file_id)),
    {
        self.want_file_id || (is_reparse && self.want_reparse_file_id)
    }

    /// Whether an entry with the given symlink status must be statted: for the stat
    /// tier, or for an identity the plan wants for it.
    pub fn needs_metadata(&self, is_symlink: bool) -> (r: bool)
        ensures
            r == (self.want_stat || self.want_file_id || (is_symlink && self.want_reparse_file_id)),
    {
        self.want_stat || self.wants_file_id_for(is_symlink)
    }
}

/// The entry kind a listing reports: a directory, a regular file, or other.
pub fn entry_type_of(is_dir: bool, is_file: bool) -> (r: EntryType)
    ensures
        r == (if is_dir {
            EntryType::Dir
        } else if is_file {
            EntryType::File
        } else {
            EntryType::Other
        }),
{
    if is_dir {
        EntryType::Dir
    } else if is_file {
        EntryType::File
    } else {
        EntryType::Other
    }
}

/// The entry a listing alone yields when the plan needs no stat: the name, the kind
/// and the symlink bit, with every stat-tier field zero and the identity unknown.
pub fn listing_entry(name: Vec<CodePoint>, entry_type: EntryType, is_symlink: bool) -> (r: DirEntry)
    ensures
        r.name@ == name@,
        r.entry_type == entry_type,
        r.is_reparse == is_symlink,
        r.reparse_tag == 0 && r.attributes == 0 && r.size == 0,
        r.btime == 0 && r.mtime == 0 && r.atime == 0 && r.ctime == 0,
        r.file_id == (FileId { volume: 0, id: 0 }),
{
    DirEntry {
        name,
        entry_type,
        is_reparse: is_symlink,
        reparse_tag: 0,
        attributes: 0,
        size: 0,
        btime: 0,
        mtime: 0,
        atime: 0,
        ctime: 0,
        file_id: FileId { volume: 0, id: 0 },
    }
}

/// `x` clamped into the `i64` range.
pub open spec fn clamp_i64(x: int) -> i64 {
    if x > i64::MAX {
        i64::MAX
    } else if x < i64::MIN {
        i64::MIN
    } else {
        x as i64
    }
}

fn clamp(x: i128) -> (r: i64)
    ensures
        r == clamp_i64(x as int),
{
    if x > i64::MAX as i128 {
        i64::MAX
    } else if x < i64::MIN as i128 {
        i64::MIN
    } else {
        x as i64
    }
}

/// Seconds and nanoseconds as nanoseconds, each step saturating at the `i64` range.
pub open spec fn stamp_nanos(secs: i64, nsec: i64) -> i64 {
    clamp_i64(clamp_i64(secs * 1_000_000_000) + nsec)
}

/// Combine a timestamp's seconds and nanoseconds, saturating rather than wrapping.
pub fn combine_stamp(secs: i64, nsec: i64) -> (r: i64)
    ensures
        r == stamp_nanos(secs, nsec),
{
    let whole = clamp(secs as i128 * 1_000_000_000i128);
    clamp(whole as i128 + nsec as i128)
}

/// A time's signed distance from the Unix epoch in nanoseconds: `Ok(n)` for `n` at or
/// after the epoch, `Err(n)` for `n` before it, as nanoseconds since the epoch,
/// sign-preserving and saturating.
pub open spec fn nanos_of(offset: Result<u128, u128>) -> i64 {
    match offset {
        Ok(n) => if n <= i64::MAX {
            n as i64
        } else {
            i64::MAX
        },
        Err(n) => if n <= i64::MAX {
            (-(n as int)) as i64
        } else {
            i64::MIN
        },
    }
}

/// Nanoseconds since the Unix epoch of a time given by its offset from the epoch.
pub fn nanos_from_offset(offset: Result<u128, u128>) -> (r: i64)
    ensures
        r == nanos_of(offset),
{
    match offset {
        Ok(n) => if n <= i64::MAX as u128 {
            n as i64
        } else {
            i64::MAX
        },
        Err(n) => if n <= i64::MAX as u128 {
            -(n as i64)
        } else {
            i64::MIN
        },
    }
}

/// Nanoseconds since the Unix epoch of a timestamp read from the file system,
/// sign-preserving and saturating: 0 when the timestamp is unavailable, else the
/// nanoseconds of its offset from the epoch (`Ok(n)` at or after it, `Err(n)` before
/// it). Pre-1970 times are negative; magnitudes outside the `i64` range saturate
/// rather than wrap.
pub fn nanos(t: Result<Result<u128, u128>, std::io::Error>) -> (r: i64)
    ensures
        t is Err ==> r == 0,
        t matches Ok(offset) ==> r == nanos_of(offset),
{
    match t {
        Ok(offset) => nanos_from_offset(offset),
        Err(_) => 0,
    }
}

} // verus!
