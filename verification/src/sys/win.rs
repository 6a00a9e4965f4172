//! The Windows backend's per-entry logic: a listed record's fields (wide name,
//! attributes, reparse tag, size, the four `FILETIME` timestamps and the file
//! identity) made into a [`DirEntry`], and the `.` / `..` entries of a wide-character
//! listing. The directory reads themselves are the caller's.
use super::{clamp_i64, DirEntry, FileId};
use crate::predicate::EntryType;
use crate::syntax::decode::{decode_utf16, utf16_decode};
use vstd::prelude::*;

verus! {

/// 100-nanosecond intervals between 1601-01-01 and the Unix epoch.
pub const FILETIME_TO_UNIX_100NS: i64 = 116_444_736_000_000_000;

/// Nanoseconds since the Unix epoch of a `FILETIME` count, or 0 for the "unset"
/// value 0; the multiplication saturates.
pub open spec fn filetime_nanos(ft: i64) -> i64 {
    if ft == 0 {
        0
    } else {
        clamp_i64((ft - FILETIME_TO_UNIX_100NS) * 100)
    }
}

/// Convert a `FILETIME` count (100 ns units since 1601) to Unix-epoch nanoseconds.
pub fn filetime_to_unix_nanos(ft: i64) -> (r: i64)
    requires
        ft >= i64::MIN + FILETIME_TO_UNIX_100NS,
    ensures
        r == filetime_nanos(ft),
{
    if ft == 0 {
        return 0;
    }
    let d = ft - FILETIME_TO_UNIX_100NS;
    let wide = d as i128 * 100;
    if wide > i64::MAX as i128 {
        i64::MAX
    } else if wide < i64::MIN as i128 {
        i64::MIN
    } else {
        wide as i64
    }
}

/// Whether a wide-character listed name is `.` or `..`.
pub fn is_dot_entry_wide(name: &[u16]) -> (r: bool)
    ensures
        r == (name@ == seq![0x2Eu16] || name@ == seq![0x2Eu16, 0x2Eu16]),
{
    if name.len() == 1 {
        let r = name[0] == 0x2E;
        assert(r ==> name@ =~= seq![0x2Eu16]);
        r
    } else if name.len() == 2 {
        let r = name[0] == 0x2E && name[1] == 0x2E;
        assert(r ==> name@ =~= seq![0x2Eu16, 0x2Eu16]);
        r
    } else {
        false
    }
}

/// The attribute bit of a directory.
pub const FILE_ATTRIBUTE_DIRECTORY: u32 = 0x10;

/// The attribute bit of a reparse point.
pub const FILE_ATTRIBUTE_REPARSE_POINT: u32 = 0x400;

/// Build a [`DirEntry`] from one listed record: the type from the directory
/// attribute, the reparse flag from the reparse-point attribute, the tag, attributes
/// and size as listed, the four timestamps converted to Unix-epoch nanoseconds, and
/// the file identity only when it was asked for (otherwise the unknown identity, so
/// cycle detection passes the entry through).
pub fn win_entry(
    name: &[u16],
    attributes: u32,
    reparse_tag: u32,
    end_of_file: i64,
    creation: i64,
    last_write: i64,
    last_access: i64,
    change: i64,
    volume: u64,
    file_id: u128,
    want_file_id: bool,
) -> (r: DirEntry)
    requires
        creation >= i64::MIN + FILETIME_TO_UNIX_100NS,
        last_write >= i64::MIN + FILETIME_TO_UNIX_100NS,
        last_access >= i64::MIN + FILETIME_TO_UNIX_100NS,
        change >= i64::MIN + FILETIME_TO_UNIX_100NS,
    ensures
        r.name@ == utf16_decode(name@),
        r.entry_type == (if attributes & FILE_ATTRIBUTE_DIRECTORY != 0 {
            EntryType::Dir
        } else {
            EntryType::File
        }),
        r.is_reparse == (attributes & FILE_ATTRIBUTE_REPARSE_POINT != 0),
        r.reparse_tag == reparse_tag,
        r.attributes == attributes,
        r.size == end_of_file as u64,
        r.btime == filetime_nanos(creation),
        r.mtime == filetime_nanos(last_write),
        r.atime == filetime_nanos(last_access),
        r.ctime == filetime_nanos(change),
        r.file_id == (if want_file_id {
            FileId { volume, id: file_id }
        } else {
            FileId { volume: 0, id: 0 }
        }),
{
    let entry_type = if attributes & FILE_ATTRIBUTE_DIRECTORY != 0 {
        EntryType::Dir
    } else {
        EntryType::File
    };
    DirEntry {
        name: decode_utf16(name),
        entry_type,
        is_reparse: attributes & FILE_ATTRIBUTE_REPARSE_POINT != 0,
        reparse_tag,
        attributes,
        size: end_of_file as u64,
        btime: filetime_to_unix_nanos(creation),
        mtime: filetime_to_unix_nanos(last_write),
        atime: filetime_to_unix_nanos(last_access),
        ctime: filetime_to_unix_nanos(change),
        file_id: if want_file_id {
            FileId { volume, id: file_id }
        } else {
            FileId { volume: 0, id: 0 }
        },
    }
}

} // verus!
