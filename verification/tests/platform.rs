use globazog::predicate::EntryType;
use globazog::sys::linux::{is_dot_entry, make_entry, statx_time, StatxFields, StatxTime, STATX_BTIME};
use globazog::sys::{
    combine_stamp, entry_type_of, listing_entry, nanos, nanos_from_offset, read_failure, EnumPlan,
    FileId, ReadFailure,
};
use std::time::{Duration, SystemTime, UNIX_EPOCH};

fn epoch_offset(t: SystemTime) -> Result<u128, u128> {
    match t.duration_since(UNIX_EPOCH) {
        Ok(d) => Ok(d.as_nanos()),
        Err(e) => Err(e.duration().as_nanos()),
    }
}

#[test]
fn nanos_unavailable_is_zero() {
    assert_eq!(nanos(Err(std::io::Error::other("x"))), 0);
}

#[test]
fn nanos_pre_epoch_is_negative() {
    let t = UNIX_EPOCH - Duration::from_secs(1);
    assert_eq!(nanos(Ok(epoch_offset(t))), -1_000_000_000);
}

#[test]
fn nanos_post_epoch_is_positive() {
    let t = UNIX_EPOCH + Duration::from_secs(1);
    assert_eq!(nanos(Ok(epoch_offset(t))), 1_000_000_000);
}

#[test]
fn nanos_far_future_saturates_instead_of_wrapping() {
    let t = UNIX_EPOCH + Duration::from_secs(10_000_000_000);
    assert_eq!(nanos(Ok(epoch_offset(t))), i64::MAX);
}

#[test]
fn offsets_saturate_both_ways() {
    assert_eq!(nanos_from_offset(Ok(u128::MAX)), i64::MAX);
    assert_eq!(nanos_from_offset(Err(u128::MAX)), i64::MIN);
    assert_eq!(nanos_from_offset(Err(1u128 << 63)), i64::MIN);
    assert_eq!(nanos_from_offset(Err(5)), -5);
}

#[test]
fn stamps_combine_and_saturate() {
    assert_eq!(combine_stamp(2, 5), 2_000_000_005);
    assert_eq!(combine_stamp(i64::MAX, 1), i64::MAX);
    assert_eq!(combine_stamp(i64::MIN, -1), i64::MIN);
}

#[test]
fn plan_file_id_requests() {
    let p = EnumPlan { want_stat: false, want_file_id: false, want_reparse_file_id: true };
    assert!(p.wants_any_file_id());
    assert!(p.wants_file_id_for(true));
    assert!(!p.wants_file_id_for(false));
    assert!(p.needs_metadata(true));
    assert!(!p.needs_metadata(false));
    let full = EnumPlan::full();
    assert!(full.wants_file_id_for(false));
}

#[test]
fn listing_only_entries_are_bare() {
    assert_eq!(entry_type_of(true, false), EntryType::Dir);
    assert_eq!(entry_type_of(false, true), EntryType::File);
    assert_eq!(entry_type_of(false, false), EntryType::Other);
    let e = listing_entry(vec![0x61], EntryType::Other, true);
    assert!(e.is_reparse);
    assert_eq!(e.size, 0);
    assert_eq!(e.file_id, FileId { volume: 0, id: 0 });
}

fn t(sec: i64, nsec: u32) -> StatxTime {
    StatxTime { sec, nsec }
}

#[test]
fn statx_entries_are_decoded() {
    let st = StatxFields {
        mask: 0x40 | 0x20 | 0x80,
        mode: 0o120777,
        size: 10,
        ino: 77,
        dev_major: 8,
        dev_minor: 1,
        atime: t(1, 0),
        btime: t(9, 9),
        ctime: t(3, 0),
        mtime: t(2, 5),
    };
    let e = make_entry(&[0x61, 0xFF], &st);
    assert_eq!(e.name, vec![0x61, 0xDCFF]);
    assert_eq!(e.entry_type, EntryType::Other);
    assert!(e.is_reparse);
    assert_eq!(e.btime, 0);
    assert_eq!(e.mtime, 2_000_000_005);
    assert_eq!(e.file_id, FileId { volume: (8 << 8) | 1, id: 77 });
    let dir = StatxFields { mode: 0o040755, ..st };
    let d = make_entry(b"d", &dir);
    assert_eq!(d.entry_type, EntryType::Dir);
    assert!(!d.is_reparse);
    assert_eq!(statx_time(STATX_BTIME, STATX_BTIME, t(1, 1)), 1_000_000_001);
}

#[test]
fn dot_entries_are_recognised() {
    assert!(is_dot_entry(b"."));
    assert!(is_dot_entry(b".."));
    assert!(!is_dot_entry(b"..."));
    assert!(!is_dot_entry(b".a"));
}

use globazog::sys::win::{filetime_to_unix_nanos, is_dot_entry_wide, win_entry, FILETIME_TO_UNIX_100NS};

#[test]
fn filetime_converts_to_unix_nanos() {
    assert_eq!(filetime_to_unix_nanos(0), 0);
    assert_eq!(filetime_to_unix_nanos(FILETIME_TO_UNIX_100NS + 10), 1000);
    assert_eq!(filetime_to_unix_nanos(FILETIME_TO_UNIX_100NS - 1), -100);
    assert_eq!(filetime_to_unix_nanos(i64::MAX), i64::MAX);
}

#[test]
fn wide_dot_entries_are_recognised() {
    assert!(is_dot_entry_wide(&[0x2E]));
    assert!(is_dot_entry_wide(&[0x2E, 0x2E]));
    assert!(!is_dot_entry_wide(&[0x2E, 0x41]));
    assert!(!is_dot_entry_wide(&[]));
}

#[test]
fn entry_error_message_names_the_os_error() {
    let e = globazog::error::EntryError::new(None, std::io::Error::other("gone"));
    assert_eq!(e.message(), "entry error: gone");
    let io = globazog::error::Error::Io(std::io::Error::other("boom"));
    assert_eq!(io.message(), "i/o error: boom");
}

#[test]
fn win_records_become_entries() {
    let name: Vec<u16> = "a.txt".encode_utf16().collect();
    let e = win_entry(&name, 0x10 | 0x400, 0xA000_000C, 42, 0, FILETIME_TO_UNIX_100NS + 10, FILETIME_TO_UNIX_100NS - 1, i64::MAX, 7, 99, true);
    assert_eq!(e.name, "a.txt".chars().map(|c| c as u32).collect::<Vec<_>>());
    assert_eq!(e.entry_type, EntryType::Dir);
    assert!(e.is_reparse);
    assert_eq!(e.reparse_tag, 0xA000_000C);
    assert_eq!(e.attributes, 0x410);
    assert_eq!(e.size, 42);
    assert_eq!(e.btime, 0);
    assert_eq!(e.mtime, 1000);
    assert_eq!(e.atime, -100);
    assert_eq!(e.ctime, i64::MAX);
    assert_eq!(e.file_id, FileId { volume: 7, id: 99 });
    let f = win_entry(&name, 0x20, 0, 1, 0, 0, 0, 0, 7, 99, false);
    assert_eq!(f.entry_type, EntryType::File);
    assert!(!f.is_reparse);
    assert_eq!(f.file_id, FileId { volume: 0, id: 0 });
}

#[test]
fn late_read_errors_keep_the_partial_listing() {
    assert_eq!(read_failure(0), ReadFailure::Propagate);
    assert_eq!(read_failure(1), ReadFailure::KeepPartial);
    assert_eq!(read_failure(500), ReadFailure::KeepPartial);
}
