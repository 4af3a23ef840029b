use gdse::history::{latest_logged_hash, log_line, patch_versions_field};

#[test]
fn latest_hash_from_current_format() {
    let log = "2024-01-01 10:00 hash=abc steam_build_id=1 patch_versions=unknown\n";
    assert_eq!(latest_logged_hash(log), Some("abc".to_string()));
}

#[test]
fn latest_line_wins() {
    let log = "2024-01-01 10:00 hash=old steam_build_id=1 patch_versions=a\n\
               2024-02-01 11:30 hash=new steam_build_id=2 patch_versions=b\n";
    assert_eq!(latest_logged_hash(log), Some("new".to_string()));
}

#[test]
fn old_format_third_token_is_the_hash() {
    assert_eq!(latest_logged_hash("2024-01-01 10:00 deadbeef\n"), Some("deadbeef".to_string()));
}

#[test]
fn short_and_blank_lines_are_skipped() {
    let log = "x hash=aa\n\njunk\n";
    assert_eq!(latest_logged_hash(log), Some("aa".to_string()));
}

#[test]
fn hash_token_anywhere_on_the_line() {
    assert_eq!(latest_logged_hash("hash=first\n"), Some("first".to_string()));
    assert_eq!(latest_logged_hash("a b c hash=z\n"), Some("z".to_string()));
}

#[test]
fn no_hash_in_empty_or_short_history() {
    assert_eq!(latest_logged_hash(""), None);
    assert_eq!(latest_logged_hash("one two\n"), None);
    assert_eq!(latest_logged_hash("\n\n"), None);
}

#[test]
fn carriage_returns_are_not_part_of_the_hash() {
    assert_eq!(latest_logged_hash("d t hash=x\r\n"), Some("x".to_string()));
}

#[test]
fn log_line_format() {
    assert_eq!(
        log_line("2024-05-06 07:08", "h1", "123", "v1,v2"),
        "2024-05-06 07:08 hash=h1 steam_build_id=123 patch_versions=v1,v2"
    );
}

#[test]
fn logged_hash_reads_back() {
    let mut log = String::from("2024-01-01 10:00 hash=old steam_build_id=1 patch_versions=a\n");
    log.push_str(&log_line("2024-05-06 07:08", "fresh", "unknown", "unknown"));
    log.push('\n');
    assert_eq!(latest_logged_hash(&log), Some("fresh".to_string()));
    let first = log_line("2024-05-06 07:08", "only", "77", "1.2");
    assert_eq!(latest_logged_hash(&first), Some("only".to_string()));
}

#[test]
fn patch_versions_field_cases() {
    assert_eq!(patch_versions_field(&[]), "unknown");
    assert_eq!(patch_versions_field(&["1.2.0.3".to_string()]), "1.2.0.3");
    assert_eq!(patch_versions_field(&["a".to_string(), "b".to_string(), "c".to_string()]), "a,b,c");
}
