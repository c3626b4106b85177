use anime_filter::{append_rows, clear_content, delete_last_match, load_all, UserAnimeData};

fn entry(subject_id: i64, status: &str, marked_at: &str) -> UserAnimeData {
    UserAnimeData {
        subject_id,
        status: status.to_string(),
        rating: None,
        tags: None,
        marked_at: marked_at.to_string(),
    }
}

#[test]
fn append_to_missing_file_writes_header_then_rows() {
    let out = append_rows(None, &vec![entry(12, "watched", "2024-05-01T10:00:00Z")]).unwrap();
    assert_eq!(
        out,
        "subject_id,status,timestamp\n12,watched,2024-05-01T10:00:00Z\n"
    );
}

#[test]
fn append_twice_does_not_duplicate_header() {
    let first = append_rows(None, &vec![entry(1, "watched", "t1")]).unwrap();
    let second = append_rows(Some(&first), &vec![entry(2, "wishlist", "t2")]).unwrap();
    assert_eq!(
        second,
        "subject_id,status,timestamp\n1,watched,t1\n2,wishlist,t2\n"
    );
    let headers = second
        .lines()
        .filter(|l| *l == "subject_id,status,timestamp")
        .count();
    assert_eq!(headers, 1);
}

#[test]
fn append_then_load_round_trips() {
    let content = append_rows(None, &vec![entry(3, "skipped", "t3")]).unwrap();
    let more = append_rows(Some(&content), &vec![entry(4, "watched", "t4")]).unwrap();
    let (records, skipped) = load_all(&more);
    assert_eq!(skipped, 0);
    assert_eq!(records.len(), 2);
    assert_eq!(records[0].subject_id, 3);
    assert_eq!(records[0].status, "skipped");
    assert_eq!(records[0].marked_at, "t3");
    assert_eq!(records[0].rating, None);
    assert_eq!(records[0].tags, None);
    assert_eq!(records[1].subject_id, 4);
    assert_eq!(records[1].status, "watched");
}

#[test]
fn append_negative_key_round_trips() {
    let content = append_rows(None, &vec![entry(-9007199254740993, "watched", "t")]).unwrap();
    let (records, skipped) = load_all(&content);
    assert_eq!(skipped, 0);
    assert_eq!(records.len(), 1);
    assert_eq!(records[0].subject_id, -9007199254740993);
}

#[test]
fn extreme_keys_round_trip() {
    let content = append_rows(
        None,
        &vec![
            entry(i64::MIN, "watched", "t-min"),
            entry(i64::MAX, "skipped", "t-max"),
            entry(0, "wishlist", "t-zero"),
        ],
    )
    .unwrap();
    let (records, skipped) = load_all(&content);
    assert_eq!(skipped, 0);
    assert_eq!(records.len(), 3);
    assert_eq!(records[0].subject_id, i64::MIN);
    assert_eq!(records[1].subject_id, i64::MAX);
    assert_eq!(records[2].subject_id, 0);
}

#[test]
fn append_rejects_unloggable_records() {
    assert!(append_rows(None, &vec![entry(1, "dropped", "t")]).is_err());
    assert!(append_rows(None, &vec![entry(1, "watched", "")]).is_err());
    assert!(append_rows(None, &vec![entry(1, "watched", "a,b")]).is_err());
    assert!(append_rows(None, &vec![entry(1, "watched", "a\nb")]).is_err());
}

#[test]
fn load_of_empty_content_is_empty() {
    let (records, skipped) = load_all("");
    assert!(records.is_empty());
    assert_eq!(skipped, 0);
}

#[test]
fn load_skips_malformed_rows_and_counts_them() {
    let content = "subject_id,status,timestamp\n\
                   1,watched,t1\n\
                   not-a-key,watched,t2\n\
                   2,unknown,t3\n\
                   3,wishlist\n\
                   4,skipped,t4\n";
    let (records, skipped) = load_all(content);
    assert_eq!(records.len(), 2);
    assert_eq!(records[0].subject_id, 1);
    assert_eq!(records[1].subject_id, 4);
    assert_eq!(skipped, 3);
}

#[test]
fn delete_last_match_removes_only_most_recent_row() {
    let content = "subject_id,status,timestamp\n\
                   5,watched,t1\n\
                   6,watched,tx\n\
                   5,wishlist,t2\n";
    let rewritten = delete_last_match(content, 5).unwrap();
    let (records, skipped) = load_all(&rewritten);
    assert_eq!(skipped, 0);
    assert_eq!(records.len(), 2);
    assert_eq!(records[0].subject_id, 5);
    assert_eq!(records[0].status, "watched");
    assert_eq!(records[0].marked_at, "t1");
    assert_eq!(records[1].subject_id, 6);
}

#[test]
fn delete_without_match_is_a_no_op() {
    let content = "subject_id,status,timestamp\n5,watched,t1\n";
    assert!(delete_last_match(content, 999).is_none());
}

#[test]
fn clear_yields_just_the_header() {
    assert_eq!(clear_content(), "subject_id,status,timestamp\n");
}

#[test]
fn bool_tokens_parse_exactly() {
    for t in ["True", "true", "TRUE"] {
        assert_eq!(anime_filter::bool_from_python_string(t), Some(true));
    }
    for t in ["False", "false", "FALSE"] {
        assert_eq!(anime_filter::bool_from_python_string(t), Some(false));
    }
    for t in ["", "yes", "TRue", "0", "1", "watched"] {
        assert_eq!(anime_filter::bool_from_python_string(t), None);
    }
}

#[test]
fn test_load_csv() {
    // The catalog dataset lives outside the repository on the machine that
    // uses it, so the loader is not exercised here.
    // let path = Path::new("../../anime_csv/full_data.csv");
    // let result = load_anime_from_csv(path);
    // assert!(result.is_ok());
}
