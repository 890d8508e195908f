//! Index reconciliation scenarios: unchanged, touched, deleted, and
//! duplicate-content scans.
use puppydrive::index::FileEntry;
use puppydrive::index::FileLocation;
use puppydrive::index::reconcile;

fn loc(path: &str, hash: u8, size: u64, modified: i64) -> FileLocation {
    FileLocation {
        path: path.to_string(),
        hash: Some(vec![hash; 32]),
        size,
        mime_type: Some("text/plain".to_string()),
        timestamp: 1_000_000,
        created_at: Some(modified - 10),
        modified_at: Some(modified),
        accessed_at: None,
    }
}

fn entry_of(l: &FileLocation) -> FileEntry {
    FileEntry {
        hash: l.hash.clone(),
        size: l.size,
        mime_type: l.mime_type.clone(),
        first_datetime: l.created_at,
        latest_datetime: l.modified_at,
    }
}

#[test]
fn unchanged_directory_reconciles_to_zero_counts() {
    let prev = vec![loc("/r/a", 1, 10, 100), loc("/r/b", 2, 20, 200)];
    let entries = vec![entry_of(&prev[0]), entry_of(&prev[1])];
    let scanned = vec![loc("/r/a", 1, 10, 100), loc("/r/b", 2, 20, 200)];
    let out = reconcile(&prev, &entries, &scanned);
    let counts = out.counts(0);
    assert_eq!(counts.inserted_count, 0);
    assert_eq!(counts.updated_count, 0);
    assert_eq!(counts.removed_count, 0);
    // Re-recording known content is idempotent for the entry windows.
    assert_eq!(out.entries.len(), 2);
    assert_eq!(out.entries[0].first_datetime, Some(90));
    assert_eq!(out.entries[0].latest_datetime, Some(100));
}

#[test]
fn touched_file_updates_exactly_that_path() {
    let prev = vec![loc("/r/a", 1, 10, 100), loc("/r/b", 2, 20, 200)];
    let entries = vec![entry_of(&prev[0]), entry_of(&prev[1])];
    // /r/b changed content: new hash, new modified time.
    let scanned = vec![loc("/r/a", 1, 10, 100), loc("/r/b", 3, 22, 300)];
    let out = reconcile(&prev, &entries, &scanned);
    assert_eq!(out.inserted.len(), 0);
    assert_eq!(out.removed.len(), 0);
    assert_eq!(out.updated.len(), 1);
    assert_eq!(out.updated[0].path, "/r/b");
    // The new hash is novel, so the entry table grows by one.
    assert_eq!(out.entries.len(), 3);
}

#[test]
fn touched_file_with_known_hash_keeps_entry_count() {
    let prev = vec![loc("/r/a", 1, 10, 100), loc("/r/b", 2, 20, 200)];
    let entries = vec![entry_of(&prev[0]), entry_of(&prev[1])];
    // /r/b now has /r/a's content: same hash set as before.
    let scanned = vec![loc("/r/a", 1, 10, 100), loc("/r/b", 1, 10, 300)];
    let out = reconcile(&prev, &entries, &scanned);
    assert_eq!(out.updated.len(), 1);
    assert_eq!(out.updated[0].path, "/r/b");
    assert_eq!(out.entries.len(), 2);
}

#[test]
fn deleted_file_removes_exactly_that_path() {
    let prev = vec![loc("/r/a", 1, 10, 100), loc("/r/b", 2, 20, 200)];
    let entries = vec![entry_of(&prev[0]), entry_of(&prev[1])];
    let scanned = vec![loc("/r/a", 1, 10, 100)];
    let out = reconcile(&prev, &entries, &scanned);
    assert_eq!(out.removed, vec!["/r/b".to_string()]);
    assert_eq!(out.inserted.len(), 0);
    assert_eq!(out.updated.len(), 0);
    // No entry row is dropped and no seen window regresses.
    assert_eq!(out.entries.len(), 2);
    assert_eq!(out.entries[1].first_datetime, entries[1].first_datetime);
    assert_eq!(out.entries[1].latest_datetime, entries[1].latest_datetime);
}

#[test]
fn duplicate_content_shares_one_entry_spanning_both() {
    // Files A and B carry identical content (hash h1) with different
    // timestamps; a scan from scratch yields two location rows and one
    // entry row whose window spans both.
    let a = loc("/r/a", 1, 10, 100);
    let b = loc("/r/b", 1, 10, 500);
    let out = reconcile(&Vec::new(), &Vec::new(), &vec![a, b]);
    assert_eq!(out.inserted.len(), 2);
    assert_eq!(out.removed.len(), 0);
    assert_eq!(out.updated.len(), 0);
    assert_eq!(out.entries.len(), 1);
    assert_eq!(out.entries[0].hash, Some(vec![1u8; 32]));
    assert_eq!(out.entries[0].first_datetime, Some(90));
    assert_eq!(out.entries[0].latest_datetime, Some(500));
}

#[test]
fn first_sighting_inserts_every_path() {
    let scanned = vec![loc("/r/a", 1, 10, 100), loc("/r/b", 2, 20, 200)];
    let out = reconcile(&Vec::new(), &Vec::new(), &scanned);
    let counts = out.counts(123);
    assert_eq!(counts.inserted_count, 2);
    assert_eq!(counts.updated_count, 0);
    assert_eq!(counts.removed_count, 0);
    assert_eq!(counts.duration_micros, 123);
    assert_eq!(out.entries.len(), 2);
}

#[test]
fn change_detection_ignores_path_and_scan_timestamp() {
    let mut x = loc("/r/a", 1, 10, 100);
    let mut y = loc("/r/elsewhere", 1, 10, 100);
    y.timestamp = 9_999_999;
    assert!(x == y);
    x.mime_type = Some("application/zip".to_string());
    assert!(x != y);
}

#[test]
fn change_detection_sees_hash_size_and_times() {
    let base = loc("/r/a", 1, 10, 100);
    let mut other = loc("/r/a", 2, 10, 100);
    assert!(base != other);
    other = loc("/r/a", 1, 11, 100);
    assert!(base != other);
    other = loc("/r/a", 1, 10, 101);
    assert!(base != other);
    other = loc("/r/a", 1, 10, 100);
    assert!(base == other);
}

#[test]
fn hashless_location_records_no_entry() {
    let mut a = loc("/r/a", 1, 10, 100);
    a.hash = None;
    let out = reconcile(&Vec::new(), &Vec::new(), &vec![a]);
    assert_eq!(out.inserted.len(), 1);
    assert_eq!(out.entries.len(), 0);
}
