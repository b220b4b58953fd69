//! End-to-end tests of the store engine: persistence through byte
//! buffers, the codec, registry maintenance and the stream.

use frecency_db::codec::DecodeError;
use frecency_db::{Database, DatabaseFile, Dir, RANK_UNIT};

fn record(path: &str, rank: u32, last_accessed: u64) -> Dir {
    Dir { path: path.to_string(), rank, last_accessed }
}

fn registry(records: Vec<Dir>) -> Database {
    Database { dirs: records, modified: false }
}

/// A hand-built buffer: version, count, then (path, rank, last) records.
fn buffer(version: u32, records: &[(&str, u32, u64)]) -> Vec<u8> {
    let mut out = Vec::new();
    out.extend_from_slice(&version.to_le_bytes());
    out.extend_from_slice(&(records.len() as u32).to_le_bytes());
    for (path, rank, last) in records {
        out.extend_from_slice(&(path.len() as u32).to_le_bytes());
        out.extend_from_slice(path.as_bytes());
        out.extend_from_slice(&rank.to_le_bytes());
        out.extend_from_slice(&last.to_le_bytes());
    }
    out
}

#[test]
fn add() {
    let path = "/foo/bar";
    let now: u64 = 946684800;

    let saved;
    {
        let file = DatabaseFile::new("data".to_string());
        let mut db = file.open_empty();
        db.add(path, now);
        db.add(path, now);
        saved = db.to_bytes().unwrap();
    }
    {
        let mut file = DatabaseFile::new("data".to_string());
        let db = file.open_bytes(saved).unwrap();
        assert_eq!(db.dirs.len(), 1);

        let dir = &db.dirs[0];
        assert_eq!(dir.path, path);
        assert_eq!(dir.last_accessed, now);
        assert_eq!(dir.rank, 2 * RANK_UNIT);
    }
}

#[test]
fn remove() {
    let path = "/foo/bar";
    let now: u64 = 946684800;

    let mut saved;
    {
        let file = DatabaseFile::new("data".to_string());
        let mut db = file.open_empty();
        db.add(path, now);
        saved = db.to_bytes().unwrap();
    }
    {
        let mut file = DatabaseFile::new("data".to_string());
        let mut db = file.open_bytes(saved).unwrap();
        assert!(db.remove(path));
        saved = db.to_bytes().unwrap();
    }
    {
        let mut file = DatabaseFile::new("data".to_string());
        let mut db = file.open_bytes(saved).unwrap();
        assert!(db.dirs.is_empty());
        assert!(!db.remove(path));
    }
}

#[test]
fn round_trip_bytewise() {
    let db = registry(vec![
        record("/home/user", 1500, 100),
        record("/home/\u{00fc}nic\u{00f8}de/\u{4e16}\u{754c}", u32::MAX, u64::MAX),
        record("/", 1, 0),
        record("/home/user", 42, 7),
    ]);
    let bytes = db.to_bytes().unwrap();
    let back = Database::from_bytes(&bytes).unwrap();
    assert_eq!(back.dirs.len(), db.dirs.len());
    for (a, b) in db.dirs.iter().zip(back.dirs.iter()) {
        assert_eq!(a.path, b.path);
        assert_eq!(a.rank, b.rank);
        assert_eq!(a.last_accessed, b.last_accessed);
    }
    assert!(!back.modified);
    // and the re-encoding is byte-identical
    assert_eq!(back.to_bytes().unwrap(), bytes);
}

#[test]
fn encode_layout_is_pinned() {
    let db = registry(vec![record("ab", 1000, 2)]);
    let bytes = db.to_bytes().unwrap();
    let expected = vec![
        3, 0, 0, 0, // version
        1, 0, 0, 0, // count
        2, 0, 0, 0, // path length
        b'a', b'b', // path
        232, 3, 0, 0, // rank 1000
        2, 0, 0, 0, 0, 0, 0, 0, // last accessed
    ];
    assert_eq!(bytes, expected);
}

#[test]
fn version_gate() {
    let bytes = buffer(2, &[]);
    assert_eq!(Database::from_bytes(&bytes).unwrap_err(), DecodeError::UnsupportedVersion);
    let bytes = buffer(4, &[("/a", 1000, 0)]);
    assert_eq!(Database::from_bytes(&bytes).unwrap_err(), DecodeError::UnsupportedVersion);
}

#[test]
fn truncated_buffers() {
    // too short for the version tag
    assert_eq!(Database::from_bytes(&[3, 0]).unwrap_err(), DecodeError::Truncated);
    // version but no count
    assert_eq!(Database::from_bytes(&[3, 0, 0, 0]).unwrap_err(), DecodeError::Truncated);
    // count promises a record that is not there
    assert_eq!(Database::from_bytes(&[3, 0, 0, 0, 1, 0, 0, 0]).unwrap_err(), DecodeError::Truncated);
    // a length prefix that runs past the end
    let mut bytes = buffer(3, &[]);
    bytes[4] = 1; // count = 1
    bytes.extend_from_slice(&[5, 0, 0, 0, b'a', b'b']);
    assert_eq!(Database::from_bytes(&bytes).unwrap_err(), DecodeError::Truncated);
    // trailing garbage after the last record
    let mut bytes = buffer(3, &[("/a", 1000, 0)]);
    bytes.push(0);
    assert_eq!(Database::from_bytes(&bytes).unwrap_err(), DecodeError::Truncated);
}

#[test]
fn bad_utf8_path() {
    let mut bytes = buffer(3, &[]);
    bytes[4] = 1; // count = 1
    bytes.extend_from_slice(&[2, 0, 0, 0, 0xff, 0xfe]);
    bytes.extend_from_slice(&1000u32.to_le_bytes());
    bytes.extend_from_slice(&0u64.to_le_bytes());
    assert_eq!(Database::from_bytes(&bytes).unwrap_err(), DecodeError::BadUtf8);
}

#[test]
fn empty_database_round_trip() {
    let db = registry(vec![]);
    let bytes = db.to_bytes().unwrap();
    assert_eq!(bytes, vec![3, 0, 0, 0, 0, 0, 0, 0]);
    let back = Database::from_bytes(&bytes).unwrap();
    assert!(back.dirs.is_empty());
}

#[test]
fn add_bumps_first_exact_match_only() {
    let file = DatabaseFile::new("data".to_string());
    let mut db = file.open_empty();
    db.add("/a", 10);
    db.add("/A", 20); // paths are byte-exact, never normalized
    db.add("/a", 30);
    assert_eq!(db.dirs.len(), 2);
    assert_eq!(db.dirs[0].path, "/a");
    assert_eq!(db.dirs[0].rank, 2 * RANK_UNIT);
    assert_eq!(db.dirs[0].last_accessed, 30);
    assert_eq!(db.dirs[1].path, "/A");
    assert_eq!(db.dirs[1].rank, RANK_UNIT);
    assert!(db.modified);
}

#[test]
fn modified_flag_lifecycle() {
    let file = DatabaseFile::new("data".to_string());
    let mut db = file.open_empty();
    assert!(!db.modified);
    db.add("/a", 1);
    assert!(db.modified);
    let _bytes = db.to_bytes().unwrap();
    db.mark_saved();
    assert!(!db.modified);
    // removing an absent path does not dirty the registry
    assert!(!db.remove("/missing"));
    assert!(!db.modified);
}

#[test]
fn dedup() {
    let mut db = registry(vec![
        record("/a", 1000, 100),
        record("/b", 3000, 50),
        record("/a", 2000, 200),
    ]);
    db.dedup();
    assert_eq!(db.dirs.len(), 2);
    let a = db.dirs.iter().find(|d| d.path == "/a").unwrap();
    assert_eq!(a.rank, 3000);
    assert_eq!(a.last_accessed, 200);
    let b = db.dirs.iter().find(|d| d.path == "/b").unwrap();
    assert_eq!(b.rank, 3000);
    assert_eq!(b.last_accessed, 50);
    assert!(db.modified);
}

#[test]
fn dedup_is_idempotent_and_conserves_ranks() {
    let mut db = registry(vec![
        record("/x", 500, 1),
        record("/y", 700, 9),
        record("/x", 250, 5),
        record("/x", 250, 3),
    ]);
    let sum_before: u64 = db.dirs.iter().map(|d| d.rank as u64).sum();
    db.dedup();
    let sum_after: u64 = db.dirs.iter().map(|d| d.rank as u64).sum();
    assert_eq!(sum_before, sum_after);
    let once: Vec<(String, u32, u64)> =
        db.dirs.iter().map(|d| (d.path.clone(), d.rank, d.last_accessed)).collect();
    db.dedup();
    let twice: Vec<(String, u32, u64)> =
        db.dirs.iter().map(|d| (d.path.clone(), d.rank, d.last_accessed)).collect();
    assert_eq!(once, twice);
    // paths are unique now
    assert_eq!(db.dirs.len(), 2);
}

#[test]
fn dedup_without_duplicates_leaves_flag_clear() {
    let mut db = registry(vec![record("/a", 1000, 1), record("/b", 1000, 2)]);
    db.dedup();
    assert!(!db.modified);
    assert_eq!(db.dirs.len(), 2);
}

#[test]
fn age_below_threshold() {
    // ranks 2.0, 3.0, 4.0 sum to 9.0, within a max_age of 10.0
    let mut db = registry(vec![
        record("/a", 2000, 1),
        record("/b", 3000, 2),
        record("/c", 4000, 3),
    ]);
    db.age(10_000);
    assert_eq!(db.dirs.len(), 3);
    assert_eq!(db.dirs[0].rank, 2000);
    assert_eq!(db.dirs[1].rank, 3000);
    assert_eq!(db.dirs[2].rank, 4000);
    assert!(!db.modified);
}

#[test]
fn age_above_threshold() {
    // ranks 10, 20, 70 against max_age 50: factor 0.9 * 50 / 100 = 0.45
    let mut db = registry(vec![
        record("/a", 10_000, 1),
        record("/b", 20_000, 2),
        record("/c", 70_000, 3),
    ]);
    db.age(50_000);
    assert_eq!(db.dirs.len(), 3);
    assert_eq!(db.dirs[0].rank, 4500);
    assert_eq!(db.dirs[1].rank, 9000);
    assert_eq!(db.dirs[2].rank, 31_500);
    assert!(db.modified);
}

#[test]
fn age_evicts_below_one_visit() {
    // ranks 1, 20, 79 against max_age 50: the first scales to 0.45
    // and is dropped
    let mut db = registry(vec![
        record("/a", 1000, 1),
        record("/b", 20_000, 2),
        record("/c", 79_000, 3),
    ]);
    db.age(50_000);
    assert_eq!(db.dirs.len(), 2);
    assert_eq!(db.dirs[0].path, "/b");
    assert_eq!(db.dirs[0].rank, 9000);
    assert_eq!(db.dirs[1].path, "/c");
    assert_eq!(db.dirs[1].rank, 35_550);
    // the surviving sum stays at or under nine tenths of max_age
    let sum: u64 = db.dirs.iter().map(|d| d.rank as u64).sum();
    assert!(10 * sum <= 9 * 50_000);
}

#[test]
fn stream_ordering() {
    // A visited just now with one visit outscores B visited a day
    // ago with four: 1.0 * 4.0 = 4.0 against 4.0 * 0.5 = 2.0
    let now: u64 = 100_000;
    let db = registry(vec![
        record("/A", 1000, now),
        record("/B", 4000, now - 86_401),
    ]);
    let mut stream = db.stream(now);
    let (first, s1) = stream.next().unwrap();
    let (second, s2) = stream.next().unwrap();
    assert_eq!(first, "/A");
    assert_eq!(s1, 16_000); // 4.0 in quarter-units of a visit
    assert_eq!(second, "/B");
    assert_eq!(s2, 8000); // 2.0
    assert!(stream.next().is_none());
}

#[test]
fn stream_breaks_ties_by_insertion_order() {
    let db = registry(vec![
        record("/one", 1000, 50),
        record("/two", 1000, 50),
    ]);
    let mut stream = db.stream(50);
    assert_eq!(stream.next().unwrap().0, "/one");
    assert_eq!(stream.next().unwrap().0, "/two");
    assert!(stream.next().is_none());
}

#[test]
fn stream_keywords_filter() {
    let db = registry(vec![
        record("/home/Alpha/Beta", 1000, 0),
        record("/var/beta", 1000, 0),
        record("/home/alpha/gamma", 1000, 0),
    ]);
    // the last keyword must hit the basename, case-insensitively
    let mut stream = db.stream(0).with_keywords(vec!["beta".to_string()]);
    assert_eq!(stream.next().unwrap().0, "/home/Alpha/Beta");
    assert_eq!(stream.next().unwrap().0, "/var/beta");
    assert!(stream.next().is_none());
    // earlier keywords match anywhere in the path
    let mut stream = db.stream(0).with_keywords(vec!["alpha".to_string(), "beta".to_string()]);
    assert_eq!(stream.next().unwrap().0, "/home/Alpha/Beta");
    assert!(stream.next().is_none());
    // a sole keyword is the last keyword: a hit in the middle of the
    // path does not satisfy the basename rule
    let mut stream = db.stream(0).with_keywords(vec!["alpha".to_string()]);
    assert!(stream.next().is_none());
}

#[test]
fn stream_exclude_filter() {
    let db = registry(vec![record("/a", 1000, 0), record("/b", 2000, 0)]);
    let mut stream = db.stream(0).with_exclude("/b".to_string());
    assert_eq!(stream.next().unwrap().0, "/a");
    assert!(stream.next().is_none());
}

#[test]
fn stream_exists_flag_is_recorded() {
    let db = registry(vec![record("/a", 1000, 0)]);
    let stream = db.stream(0);
    assert!(!stream.wants_exists_check());
    let stream = db.stream(0).with_exists(true);
    assert!(stream.wants_exists_check());
}

#[test]
fn decode_recovers_decoded_paths() {
    // the path comes back from the raw bytes, not from anywhere else
    let bytes = buffer(3, &[("caf\u{00e9}", 1000, 5)]);
    let db = Database::from_bytes(&bytes).unwrap();
    assert_eq!(db.dirs[0].path, "caf\u{00e9}");
    assert_eq!(db.dirs[0].rank, 1000);
    assert_eq!(db.dirs[0].last_accessed, 5);
}

#[test]
fn db_path_names_the_database_file() {
    assert_eq!(frecency_db::store::db_path("/data/dir"), "/data/dir/db.zo");
}

#[test]
fn persist_retry_policy() {
    // only permission-denied failures retry, and only nine times
    assert!(frecency_db::store::retry_persist(0, true));
    assert!(frecency_db::store::retry_persist(8, true));
    assert!(!frecency_db::store::retry_persist(9, true));
    assert!(!frecency_db::store::retry_persist(0, false));
    for draw in 0..500u64 {
        let ms = frecency_db::store::backoff_millis(draw);
        assert!((50..150).contains(&ms));
    }
}

#[test]
fn remove_takes_only_the_first_duplicate() {
    // duplicate paths can exist before a dedup; remove takes the
    // first match only
    let mut db = registry(vec![record("/a", 1000, 1), record("/a", 2000, 2)]);
    assert!(db.remove("/a"));
    assert_eq!(db.dirs.len(), 1);
    assert_eq!(db.dirs[0].rank, 2000);
    assert!(db.remove("/a"));
    assert!(db.dirs.is_empty());
}

#[test]
fn rank_bump_saturates_at_the_ceiling() {
    let mut db = registry(vec![record("/a", u32::MAX - 10, 1)]);
    db.add("/a", 2);
    assert_eq!(db.dirs[0].rank, u32::MAX);
    assert_eq!(db.dirs[0].last_accessed, 2);
}
