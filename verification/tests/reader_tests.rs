use schema_bundle::reader::{order_by_index, strict_order};
use schema_bundle::reader::{Failure, ReadResult, ReadStatus};

fn names(list: &[&str]) -> Vec<String> {
    list.iter().map(|s| s.to_string()).collect()
}

#[test]
fn constructors_fill_the_fields() {
    let good = ReadResult::loaded(3, 7u8);
    assert_eq!(good.index, 3);
    assert_eq!(good.payload, 7);
    assert_eq!(good.status, ReadStatus::Loaded);
    assert!(good.is_loaded());
    let bad = ReadResult::failed(4, 0u8, "denied".to_string());
    assert_eq!(bad.index, 4);
    assert_eq!(bad.payload, 0);
    assert_eq!(bad.status, ReadStatus::Failed("denied".to_string()));
    assert!(!bad.is_loaded());
}

#[test]
fn order_finds_every_position() {
    let reads = vec![
        ReadResult::loaded(2, 'c'),
        ReadResult::loaded(0, 'a'),
        ReadResult::loaded(3, 'd'),
        ReadResult::loaded(1, 'b'),
    ];
    assert_eq!(order_by_index(&reads, 4), Some(vec![1, 3, 0, 2]));
}

#[test]
fn order_of_nothing_is_empty() {
    let reads: Vec<ReadResult<u8>> = Vec::new();
    assert_eq!(order_by_index(&reads, 0), Some(Vec::new()));
    assert_eq!(order_by_index(&reads, 1), None);
}

#[test]
fn order_rejects_results_that_do_not_cover() {
    let twice = vec![ReadResult::loaded(1, 0u8), ReadResult::loaded(1, 0u8)];
    assert_eq!(order_by_index(&twice, 2), None);
    let beyond = vec![ReadResult::loaded(0, 0u8), ReadResult::loaded(2, 0u8)];
    assert_eq!(order_by_index(&beyond, 2), None);
    let short = vec![ReadResult::loaded(0, 0u8)];
    assert_eq!(order_by_index(&short, 2), None);
    let long = vec![ReadResult::loaded(0, 0u8), ReadResult::loaded(1, 0u8)];
    assert_eq!(order_by_index(&long, 1), None);
    let huge = vec![ReadResult::loaded(usize::MAX, 0u8)];
    assert_eq!(order_by_index(&huge, 1), None);
}

#[test]
fn strict_order_accepts_loaded_results() {
    let files = names(&["a", "b"]);
    let reads = vec![ReadResult::loaded(1, 0u8), ReadResult::loaded(0, 0u8)];
    assert_eq!(strict_order(&files, &reads), Ok(vec![1, 0]));
}

#[test]
fn strict_order_reports_first_failure_of_the_list() {
    let files = names(&["a", "b", "c"]);
    let reads = vec![
        ReadResult::failed(2, 0u8, "late".to_string()),
        ReadResult::loaded(0, 0u8),
        ReadResult::failed(1, 0u8, "early".to_string()),
    ];
    assert_eq!(
        strict_order(&files, &reads),
        Err(Failure::Unreadable { index: 1, path: "b".to_string(), cause: "early".to_string() })
    );
}

#[test]
fn strict_order_reports_incomplete_before_failures() {
    let files = names(&["a", "b"]);
    let reads = vec![ReadResult::failed(0, 0u8, "gone".to_string())];
    assert_eq!(strict_order(&files, &reads), Err(Failure::Incomplete));
}

#[test]
fn failure_message_names_path_and_cause() {
    let failure = Failure::Unreadable {
        index: 1,
        path: "nonexistent.sql".to_string(),
        cause: "No such file or directory (os error 2)".to_string(),
    };
    assert_eq!(
        failure.message(),
        "Failed to read file nonexistent.sql: No such file or directory (os error 2)"
    );
    assert_eq!(
        Failure::Incomplete.message(),
        "reading the files did not yield one result per file"
    );
}
