use schema_bundle::builder::{build_schema, concat_contents, push_content, read_error_marker};
use schema_bundle::builder::separator_for;
use schema_bundle::reader::{Failure, ReadResult};

fn names(list: &[&str]) -> Vec<String> {
    list.iter().map(|s| s.to_string()).collect()
}

fn loaded(list: &[&str]) -> Vec<ReadResult<String>> {
    list.iter().enumerate().map(|(i, s)| ReadResult::loaded(i, s.to_string())).collect()
}

#[test]
fn test_build_schema_single_file() {
    let files = names(&["test.sql"]);
    let reads = loaded(&["CREATE TABLE test (id INT);"]);

    let result = build_schema(&files, &reads).unwrap();

    assert!(result.contains("CREATE TABLE test"));
}

#[test]
fn test_build_schema_multiple_files() {
    let files = names(&["01.sql", "02.sql"]);
    let reads = loaded(&["CREATE TABLE users (id INT);", "CREATE TABLE posts (id INT);"]);

    let result = build_schema(&files, &reads).unwrap();

    assert!(result.contains("CREATE TABLE users"));
    assert!(result.contains("CREATE TABLE posts"));

    let users_pos = result.find("users").unwrap();
    let posts_pos = result.find("posts").unwrap();
    assert!(users_pos < posts_pos);
}

#[test]
fn test_build_schema_adds_newlines() {
    let files = names(&["test.sql"]);
    let reads = loaded(&["CREATE TABLE test (id INT);"]);

    let result = build_schema(&files, &reads).unwrap();

    assert!(result.ends_with("\n\n") || result.ends_with('\n'));
}

#[test]
fn two_tables_join_with_blank_lines() {
    let files = names(&["01.sql", "02.sql"]);
    let reads = loaded(&["CREATE TABLE users (id INT);", "CREATE TABLE posts (id INT);"]);
    let result = build_schema(&files, &reads).unwrap();
    assert_eq!(result, "CREATE TABLE users (id INT);\n\nCREATE TABLE posts (id INT);\n\n");
    assert!(result.find("users").unwrap() < result.find("posts").unwrap());
}

#[test]
fn separator_follows_trailing_newlines() {
    assert_eq!(separator_for("SELECT 1;"), "\n\n");
    assert_eq!(separator_for("SELECT 1;\n"), "\n");
    assert_eq!(separator_for("SELECT 1;\n\n"), "");
    assert_eq!(separator_for("SELECT 1;\n\n\n"), "");
    assert_eq!(separator_for(""), "\n\n");
    assert_eq!(separator_for("\n"), "\n");
    assert_eq!(separator_for("\n\n"), "");
    assert_eq!(separator_for("a\nb"), "\n\n");
    assert_eq!(separator_for("a\n\nb\n"), "\n");
}

#[test]
fn contents_differing_in_trailing_newlines_join_alike() {
    let none = concat_contents(&names(&["x", "y"]));
    let one = concat_contents(&names(&["x\n", "y"]));
    let two = concat_contents(&names(&["x\n\n", "y"]));
    assert_eq!(none, "x\n\ny\n\n");
    assert_eq!(one, none);
    assert_eq!(two, none);
    assert_eq!(concat_contents(&names(&["x\n\n\n", "y"])), "x\n\n\ny\n\n");
}

#[test]
fn last_file_is_not_trimmed() {
    assert_eq!(concat_contents(&names(&["a", "b\n\n\n"])), "a\n\nb\n\n\n");
    assert_eq!(concat_contents(&names(&["a", ""])), "a\n\n\n\n");
}

#[test]
fn empty_list_builds_empty_schema() {
    assert_eq!(build_schema(&Vec::new(), &Vec::new()), Ok(String::new()));
    assert_eq!(concat_contents(&Vec::new()), "");
}

#[test]
fn push_content_extends_the_buffer() {
    let mut buffer = String::from("-- head\n");
    push_content(&mut buffer, "body");
    assert_eq!(buffer, "-- head\nbody\n\n");
    push_content(&mut buffer, "tail\n");
    assert_eq!(buffer, "-- head\nbody\n\ntail\n\n");
}

#[test]
fn marker_names_path_and_cause() {
    assert_eq!(
        read_error_marker("missing.sql", "No such file or directory (os error 2)"),
        "-- Error reading missing.sql: No such file or directory (os error 2)\n"
    );
    assert_eq!(read_error_marker("", ""), "-- Error reading : \n");
}

#[test]
fn unreadable_file_becomes_marker() {
    let files = names(&["a.sql", "gone.sql", "c.sql"]);
    let reads = vec![
        ReadResult::loaded(0, "A;".to_string()),
        ReadResult::failed(1, String::new(), "denied".to_string()),
        ReadResult::loaded(2, "C;\n".to_string()),
    ];
    assert_eq!(
        build_schema(&files, &reads),
        Ok("A;\n\n-- Error reading gone.sql: denied\n\nC;\n\n".to_string())
    );
}

#[test]
fn arrival_order_does_not_matter() {
    let files = names(&["a.sql", "b.sql", "c.sql"]);
    let in_order = loaded(&["A", "B", "C"]);
    let shuffled = vec![
        ReadResult::loaded(2, "C".to_string()),
        ReadResult::loaded(0, "A".to_string()),
        ReadResult::loaded(1, "B".to_string()),
    ];
    let expected = "A\n\nB\n\nC\n\n".to_string();
    assert_eq!(build_schema(&files, &in_order), Ok(expected.clone()));
    assert_eq!(build_schema(&files, &shuffled), Ok(expected));
}

#[test]
fn list_order_changes_the_schema() {
    let ab = concat_contents(&names(&["A", "B"]));
    let ba = concat_contents(&names(&["B", "A"]));
    assert_eq!(ab, "A\n\nB\n\n");
    assert_eq!(ba, "B\n\nA\n\n");
}

#[test]
fn duplicate_paths_are_separate_inputs() {
    let files = names(&["same.sql", "same.sql"]);
    let reads = loaded(&["X", "X"]);
    assert_eq!(build_schema(&files, &reads), Ok("X\n\nX\n\n".to_string()));
}

#[test]
fn build_schema_is_repeatable() {
    let files = names(&["a.sql", "b.sql"]);
    let reads = loaded(&["A\n", "B"]);
    let first = build_schema(&files, &reads);
    let second = build_schema(&files, &reads);
    assert_eq!(first, second);
    assert_eq!(first, Ok("A\n\nB\n\n".to_string()));
}

#[test]
fn every_content_is_a_substring_in_order() {
    let contents = ["one\n", "", "two", "three\n\n", "two"];
    let files = names(&["1", "2", "3", "4", "5"]);
    let result = build_schema(&files, &loaded(&contents)).unwrap();
    let mut from = 0;
    for content in contents {
        let at = result[from..].find(content).unwrap() + from;
        from = at + content.len();
    }
    assert_eq!(result, "one\n\n\n\ntwo\n\nthree\n\ntwo\n\n");
}

#[test]
fn incomplete_results_build_nothing() {
    let files = names(&["a.sql", "b.sql"]);
    let missing = loaded(&["A"]);
    assert_eq!(build_schema(&files, &missing), Err(Failure::Incomplete));
    let twice = vec![
        ReadResult::loaded(0, "A".to_string()),
        ReadResult::loaded(0, "B".to_string()),
    ];
    assert_eq!(build_schema(&files, &twice), Err(Failure::Incomplete));
    let beyond = vec![
        ReadResult::loaded(0, "A".to_string()),
        ReadResult::loaded(2, "B".to_string()),
    ];
    assert_eq!(build_schema(&files, &beyond), Err(Failure::Incomplete));
    let surplus = loaded(&["A", "B", "C"]);
    assert_eq!(build_schema(&files, &surplus), Err(Failure::Incomplete));
}

#[test]
fn non_ascii_content_is_kept() {
    assert_eq!(concat_contents(&names(&["-- caf\u{e9}", "\u{1F600}\n"])), "-- caf\u{e9}\n\n\u{1F600}\n\n");
    assert_eq!(separator_for("\u{e9}"), "\n\n");
}

#[test]
fn large_contents_join() {
    let big = "x".repeat(100_000);
    let out = concat_contents(&vec![big.clone(), big.clone()]);
    assert_eq!(out.len(), 200_004);
    assert!(out.ends_with("x\n\n"));
}
