use anime_filter::{compute_stats, Database, UserAnimeData};

fn record(subject_id: i64, status: &str, marked_at: &str) -> UserAnimeData {
    UserAnimeData {
        subject_id,
        status: status.to_string(),
        rating: None,
        tags: None,
        marked_at: marked_at.to_string(),
    }
}

#[test]
fn upsert_then_get_returns_record() {
    let mut db = Database::new(":memory:").unwrap();
    let mut r = record(42, "watched", "2024-01-01T00:00:00Z");
    r.rating = Some(9);
    r.tags = Some("favorite".to_string());
    db.save_user_status(&r).unwrap();
    let got = db.get_user_status(42).unwrap().unwrap();
    assert_eq!(got.subject_id, 42);
    assert_eq!(got.status, "watched");
    assert_eq!(got.rating, Some(9));
    assert_eq!(got.tags, Some("favorite".to_string()));
    assert_eq!(got.marked_at, "2024-01-01T00:00:00Z");
}

#[test]
fn upsert_is_idempotent() {
    let mut db = Database::new(":memory:").unwrap();
    let r = record(7, "wishlist", "t1");
    db.save_user_status(&r).unwrap();
    db.save_user_status(&r).unwrap();
    let all = db.get_all_user_status().unwrap();
    assert_eq!(all.len(), 1);
    assert_eq!(all[0].subject_id, 7);
    assert_eq!(all[0].status, "wishlist");
}

#[test]
fn upsert_overwrites_last_write_wins() {
    let mut db = Database::new(":memory:").unwrap();
    db.save_user_status(&record(5, "wishlist", "t1")).unwrap();
    db.save_user_status(&record(5, "watched", "t2")).unwrap();
    let got = db.get_user_status(5).unwrap().unwrap();
    assert_eq!(got.status, "watched");
    assert_eq!(got.marked_at, "t2");
    let all = db.get_all_user_status().unwrap();
    assert_eq!(all.iter().filter(|d| d.subject_id == 5).count(), 1);
}

#[test]
fn get_absent_key_is_none_not_error() {
    let db = Database::new(":memory:").unwrap();
    let got = db.get_user_status(123456).unwrap();
    assert!(got.is_none());
}

#[test]
fn batch_upsert_writes_every_record() {
    let mut db = Database::new(":memory:").unwrap();
    let batch = vec![
        record(1, "watched", "t"),
        record(2, "wishlist", "t"),
        record(3, "skipped", "t"),
    ];
    db.batch_save_user_status(&batch).unwrap();
    let all = db.get_all_user_status().unwrap();
    assert_eq!(all.len(), 3);
    for id in 1..=3 {
        assert!(db.get_user_status(id).unwrap().is_some());
    }
}

#[test]
fn disjoint_batches_do_not_interfere() {
    let mut db = Database::new(":memory:").unwrap();
    let a = vec![record(1, "watched", "ta"), record(2, "watched", "ta")];
    let b = vec![record(10, "skipped", "tb"), record(11, "skipped", "tb")];
    db.batch_save_user_status(&a).unwrap();
    db.batch_save_user_status(&b).unwrap();
    for id in [1, 2] {
        assert_eq!(db.get_user_status(id).unwrap().unwrap().status, "watched");
    }
    for id in [10, 11] {
        assert_eq!(db.get_user_status(id).unwrap().unwrap().status, "skipped");
    }
    assert_eq!(db.get_all_user_status().unwrap().len(), 4);
}

#[test]
fn batch_with_invalid_status_is_rejected_whole() {
    let mut db = Database::new(":memory:").unwrap();
    db.save_user_status(&record(1, "watched", "t0")).unwrap();
    let batch = vec![record(2, "wishlist", "t1"), record(3, "dropped", "t1")];
    assert!(db.batch_save_user_status(&batch).is_err());
    let all = db.get_all_user_status().unwrap();
    assert_eq!(all.len(), 1);
    assert_eq!(all[0].subject_id, 1);
}

#[test]
fn invalid_status_is_rejected_with_message() {
    let mut db = Database::new(":memory:").unwrap();
    let e = db.save_user_status(&record(1, "Watched", "t")).unwrap_err();
    assert!(!e.message().is_empty());
    assert!(db.get_user_status(1).unwrap().is_none());
}

#[test]
fn delete_removes_record_and_tolerates_absent_key() {
    let mut db = Database::new(":memory:").unwrap();
    db.save_user_status(&record(9, "skipped", "t")).unwrap();
    db.delete_user_status(9).unwrap();
    assert!(db.get_user_status(9).unwrap().is_none());
    db.delete_user_status(9).unwrap();
}

#[test]
fn reopening_same_file_keeps_data() {
    let path = "/tmp/anime_filter_reopen_test.sqlite";
    {
        let mut db = Database::new(path).unwrap();
        db.save_user_status(&record(77, "watched", "t1")).unwrap();
    }
    {
        let db = Database::new(path).unwrap();
        let got = db.get_user_status(77).unwrap().unwrap();
        assert_eq!(got.status, "watched");
    }
}

#[test]
fn open_rejects_foreign_table_shape() {
    // A pre-existing file whose user_status table has the five columns but
    // no primary key: nothing would keep keys unique, so opening must fail.
    let path = "/tmp/anime_filter_bad_schema_test.sqlite";
    {
        let conn = rusqlite::Connection::open(path).unwrap();
        conn.execute_batch("DROP TABLE IF EXISTS user_status").unwrap();
        conn.execute_batch(
            "CREATE TABLE user_status (subject_id INTEGER, status TEXT NOT NULL, rating INTEGER, tags TEXT, marked_at TEXT NOT NULL)",
        )
        .unwrap();
    }
    assert!(Database::new(path).is_err());
}

#[test]
fn open_rejects_extra_unique_index() {
    // The primary key is right, but a second unique constraint would let
    // INSERT OR REPLACE silently delete an unrelated row on conflict.
    let path = "/tmp/anime_filter_unique_index_test.sqlite";
    {
        let conn = rusqlite::Connection::open(path).unwrap();
        conn.execute_batch("DROP TABLE IF EXISTS user_status").unwrap();
        conn.execute_batch(
            "CREATE TABLE user_status (subject_id INTEGER PRIMARY KEY, status TEXT NOT NULL, rating INTEGER, tags TEXT UNIQUE, marked_at TEXT NOT NULL)",
        )
        .unwrap();
    }
    assert!(Database::new(path).is_err());
}

#[test]
fn open_rejects_table_with_trigger() {
    // A trigger could mutate other rows behind any write statement.
    let path = "/tmp/anime_filter_trigger_test.sqlite";
    {
        let conn = rusqlite::Connection::open(path).unwrap();
        conn.execute_batch("DROP TABLE IF EXISTS user_status").unwrap();
        conn.execute_batch(
            "CREATE TABLE user_status (subject_id INTEGER PRIMARY KEY, status TEXT NOT NULL, rating INTEGER, tags TEXT, marked_at TEXT NOT NULL); CREATE TRIGGER wipe_others AFTER INSERT ON user_status BEGIN DELETE FROM user_status WHERE subject_id <> NEW.subject_id; END;",
        )
        .unwrap();
    }
    assert!(Database::new(path).is_err());
}

#[test]
fn open_accepts_its_own_earlier_file() {
    // The schema the store itself creates passes the same shape check.
    let path = "/tmp/anime_filter_good_schema_test.sqlite";
    {
        Database::new(path).unwrap();
    }
    assert!(Database::new(path).is_ok());
}

#[test]
fn open_on_unreachable_path_fails() {
    let r = Database::new("/nonexistent-dir-for-sure/sub/db.sqlite");
    assert!(r.is_err());
}

#[test]
fn stats_count_by_status_and_unmarked() {
    let records = vec![
        record(1, "watched", "t"),
        record(2, "watched", "t"),
        record(3, "wishlist", "t"),
        record(4, "skipped", "t"),
    ];
    let stats = compute_stats(&records, 10);
    assert_eq!(stats.total_watched, 2);
    assert_eq!(stats.total_wishlist, 1);
    assert_eq!(stats.total_skipped, 1);
    assert_eq!(stats.total_unmarked, 6);
}

#[test]
fn stats_from_store_contents() {
    let mut db = Database::new(":memory:").unwrap();
    db.batch_save_user_status(&vec![
        record(1, "watched", "t"),
        record(2, "wishlist", "t"),
        record(3, "wishlist", "t"),
    ])
    .unwrap();
    let all = db.get_all_user_status().unwrap();
    let stats = compute_stats(&all, 5);
    assert_eq!(stats.total_watched, 1);
    assert_eq!(stats.total_wishlist, 2);
    assert_eq!(stats.total_skipped, 0);
    assert_eq!(stats.total_unmarked, 2);
}

#[test]
fn stats_of_empty_store() {
    let stats = compute_stats(&Vec::new(), 3);
    assert_eq!(stats.total_watched, 0);
    assert_eq!(stats.total_wishlist, 0);
    assert_eq!(stats.total_skipped, 0);
    assert_eq!(stats.total_unmarked, 3);
}
