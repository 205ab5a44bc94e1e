use to_do::codec::{decode, encode, Task};

#[test]
fn decode_empty_stream() {
    let tasks = decode("");
    assert_eq!(tasks.len(), 0);
}

#[test]
fn importance_carry_over() {
    let tasks = decode("A\n|important\n<#####%%%#####>\nB\n<#####%%%#####>\n");
    assert_eq!(tasks.len(), 2);
    assert_eq!(tasks[0].text, "A");
    assert!(tasks[0].important);
    assert_eq!(tasks[1].text, "B");
    assert!(tasks[1].important);
}

#[test]
fn marker_resets_to_normal() {
    let tasks = decode("A\n|important\n<#####%%%#####>\nB\n|normal\n<#####%%%#####>\n");
    assert_eq!(tasks.len(), 2);
    assert!(tasks[0].important);
    assert!(!tasks[1].important);
}

#[test]
fn unknown_marker_is_not_important() {
    let tasks = decode("|urgent\nA\n<#####%%%#####>\n");
    assert_eq!(tasks.len(), 1);
    assert_eq!(tasks[0].text, "A");
    assert!(!tasks[0].important);
}

#[test]
fn marker_line_with_surrounding_spaces_counts() {
    let tasks = decode("A\n|important \n<#####%%%#####>\n");
    assert_eq!(tasks.len(), 1);
    assert!(tasks[0].important);
}

#[test]
fn empty_record_dropped() {
    let tasks = decode("<#####%%%#####>\n<#####%%%#####>\n");
    assert_eq!(tasks.len(), 0);
}

#[test]
fn whitespace_only_record_dropped() {
    let tasks = decode(" \n<#####%%%#####>\nA\n<#####%%%#####>\n");
    assert_eq!(tasks.len(), 1);
    assert_eq!(tasks[0].text, "A");
}

#[test]
fn crlf_delimiter_and_marker_recognized() {
    let tasks = decode("A\r\n|important\r\n<#####%%%#####>\r\n");
    assert_eq!(tasks.len(), 1);
    assert_eq!(tasks[0].text, "A");
    assert!(tasks[0].important);
}

#[test]
fn crlf_in_body_becomes_lf() {
    let tasks = decode("a\r\nb\n<#####%%%#####>\n");
    assert_eq!(tasks.len(), 1);
    assert_eq!(tasks[0].text, "a\nb");
}

#[test]
fn unicode_whitespace_trimmed_at_boundary() {
    let tasks = decode("\u{a0}hello\u{a0}\n<#####%%%#####>\n");
    assert_eq!(tasks.len(), 1);
    assert_eq!(tasks[0].text, "hello");
}

#[test]
fn marker_padded_with_unicode_space_counts() {
    let tasks = decode("A\n|important\u{a0}\n<#####%%%#####>\n");
    assert_eq!(tasks.len(), 1);
    assert!(tasks[0].important);
}

#[test]
fn trailing_record_without_delimiter() {
    let tasks = decode("A\nB");
    assert_eq!(tasks.len(), 1);
    assert_eq!(tasks[0].text, "A\nB");
    assert!(!tasks[0].important);
}

#[test]
fn body_trimmed_at_record_boundary() {
    let tasks = decode("  hello  \n<#####%%%#####>\n");
    assert_eq!(tasks.len(), 1);
    assert_eq!(tasks[0].text, "hello");
}

#[test]
fn multiline_body_kept() {
    let tasks = decode("a\nb\n|important\n<#####%%%#####>\n");
    assert_eq!(tasks.len(), 1);
    assert_eq!(tasks[0].text, "a\nb");
    assert!(tasks[0].important);
}

#[test]
fn date_header_is_opaque_body_text() {
    let tasks = decode("Дата: 2024-01-01\tВремя: 10:00:00\nbody\n<#####%%%#####>\n");
    assert_eq!(tasks.len(), 1);
    assert_eq!(tasks[0].text, "Дата: 2024-01-01\tВремя: 10:00:00\nbody");
}

#[test]
fn encode_one_important_task() {
    let tasks = vec![Task { text: String::from("A"), important: true }];
    assert_eq!(encode(&tasks), "A\n|important\n<#####%%%#####>\n");
}

#[test]
fn encode_one_normal_task() {
    let tasks = vec![Task { text: String::from("walk the dog"), important: false }];
    assert_eq!(encode(&tasks), "walk the dog\n|normal\n<#####%%%#####>\n");
}

#[test]
fn encode_trims_body() {
    let tasks = vec![Task { text: String::from("  x \n"), important: false }];
    assert_eq!(encode(&tasks), "x\n|normal\n<#####%%%#####>\n");
}

#[test]
fn round_trip_preserves_tasks() {
    let tasks = vec![
        Task { text: String::from("line1\nline2"), important: false },
        Task { text: String::from("c"), important: true },
        Task { text: String::from("c"), important: true },
    ];
    let decoded = decode(&encode(&tasks));
    assert_eq!(decoded.len(), tasks.len());
    for (got, want) in decoded.iter().zip(tasks.iter()) {
        assert_eq!(got.text, want.text);
        assert_eq!(got.important, want.important);
    }
}
