use dateifinder::{
    export_text, validate_export_lines, MAX_EXPORT_LINES, MAX_EXPORT_LINE_BYTES,
    MAX_EXPORT_TOTAL_BYTES,
};

#[test]
fn export_rejects_oversized_total_payload_before_allocation() {
    let line = "x".repeat(32_000);
    let count = (MAX_EXPORT_TOTAL_BYTES / (line.len() + 1)) + 2;
    let lines = vec![line; count];
    assert!(validate_export_lines(&lines).is_err());
}

#[test]
fn export_accepts_reasonable_payload() {
    let lines = vec!["a\tb\t1".to_string(), "c\td\t2".to_string()];
    assert_eq!(validate_export_lines(&lines).expect("valid export"), 12);
}

#[test]
fn g5_export_rejects_line_count_limit_plus_one() {
    let lines = vec![String::new(); MAX_EXPORT_LINES + 1];
    assert!(validate_export_lines(&lines).is_err());
}

#[test]
fn g5_export_rejects_single_oversized_line() {
    let lines = vec!["x".repeat(MAX_EXPORT_LINE_BYTES + 1)];
    assert!(validate_export_lines(&lines).is_err());
}

#[test]
fn g5_export_rejects_total_payload_limit_plus_one() {
    let line_len = MAX_EXPORT_LINE_BYTES.saturating_sub(1).max(1);
    let line = "x".repeat(line_len);
    let count = (MAX_EXPORT_TOTAL_BYTES / (line_len + 1)) + 1;
    let lines = vec![line; count];
    assert!(validate_export_lines(&lines).is_err());
}

#[test]
fn export_errors_name_the_broken_limit() {
    assert_eq!(
        validate_export_lines(&vec![String::new(); MAX_EXPORT_LINES + 1]),
        Err("Zu viele Zeilen für einen einzelnen Export.".to_string())
    );
    assert_eq!(
        validate_export_lines(&["ok".to_string(), "x".repeat(MAX_EXPORT_LINE_BYTES + 1)]),
        Err("Eine Exportzeile ist ungewöhnlich groß.".to_string())
    );
    let line = "x".repeat(MAX_EXPORT_LINE_BYTES);
    let count = MAX_EXPORT_TOTAL_BYTES / (MAX_EXPORT_LINE_BYTES + 1) + 1;
    assert_eq!(
        validate_export_lines(&vec![line; count]),
        Err("Die Trefferliste ist für einen einzelnen Export zu groß.".to_string())
    );
}

#[test]
fn export_limits_are_inclusive() {
    assert_eq!(validate_export_lines(&vec![String::new(); MAX_EXPORT_LINES]), Ok(MAX_EXPORT_LINES));
    let exact = vec!["x".repeat(MAX_EXPORT_LINE_BYTES)];
    assert_eq!(validate_export_lines(&exact), Ok(MAX_EXPORT_LINE_BYTES + 1));
    assert_eq!(validate_export_lines(&[]), Ok(0));
}

#[test]
fn export_counts_utf8_bytes() {
    let lines = vec!["ä".to_string(), "日本".to_string(), "😀".to_string()];
    assert_eq!(validate_export_lines(&lines), Ok(3 + 7 + 5));
    let wide = vec!["日".repeat(MAX_EXPORT_LINE_BYTES / 3 + 1)];
    assert!(validate_export_lines(&wide).is_err());
}

#[test]
fn export_text_has_header_and_one_line_per_entry() {
    let lines = vec!["a\tb\t1".to_string(), "c\td\t2".to_string()];
    let text = export_text(&lines);
    assert_eq!(
        text,
        "DateiFinder Trefferliste\n======================\na\tb\t1\nc\td\t2\n"
    );
    let header = "DateiFinder Trefferliste\n======================\n";
    assert_eq!(text.len(), header.len() + validate_export_lines(&lines).unwrap());
    assert_eq!(export_text(&[]), header);
}
