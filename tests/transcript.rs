use snoopy_native::calendar::{days_from_epoch, normalize, EpochTime};
use snoopy_native::json::Json;
use snoopy_native::records::{decimal_text, extract_content, tool_input_preview};
use snoopy_native::text::{preview, text_eq, truncate};
use snoopy_native::transcript::{events_of_record, parse_transcript, ReadError, TranscriptEvent};

fn epoch_f64(t: &EpochTime) -> f64 {
    let mut v = t.seconds as f64;
    if !t.fraction.is_empty() {
        let digits = std::str::from_utf8(&t.fraction).unwrap();
        let frac: f64 = digits.parse().unwrap();
        v += frac / 10f64.powi(t.fraction.len() as i32);
    }
    v
}

fn read(data: &str, since: u64, preview_len: usize) -> (Vec<TranscriptEvent>, u64) {
    match parse_transcript("/home/u/proj/abc.jsonl", since, preview_len, data.as_bytes()) {
        Ok(r) => r,
        Err(_) => panic!("unexpected read error"),
    }
}

fn parse(s: &str) -> Json {
    Json::parse(s).expect("valid JSON")
}

#[test]
fn single_user_line() {
    let line = "{\"type\":\"user\",\"message\":{\"content\":\"hello\"}}\n";
    let (evs, off) = read(line, 0, 500);
    assert_eq!(evs.len(), 1);
    assert_eq!(evs[0].message_type, "user");
    assert_eq!(evs[0].content_preview, "hello");
    assert_eq!(epoch_f64(&evs[0].timestamp), 0.0);
    assert_eq!(evs[0].session_id, "abc");
    assert_eq!(evs[0].project_path, "/home/u/proj");
    assert_eq!(off, line.len() as u64);
}

#[test]
fn assistant_blocks_in_order() {
    let line = "{\"type\":\"assistant\",\"message\":{\"content\":[{\"type\":\"text\",\"text\":\"hi\"},{\"type\":\"tool_use\",\"name\":\"Bash\",\"input\":{\"command\":\"pwd\"}}]}}\n";
    let (evs, _) = read(line, 0, 500);
    assert_eq!(evs.len(), 2);
    assert_eq!(evs[0].message_type, "assistant_text");
    assert_eq!(evs[0].content_preview, "hi");
    assert_eq!(evs[1].message_type, "tool_use:Bash");
    assert_eq!(evs[1].content_preview, "pwd");
}

#[test]
fn malformed_line_is_skipped() {
    let data = "{not json\n{\"type\":\"user\",\"message\":{\"content\":\"after\"}}\n";
    let (evs, off) = read(data, 0, 500);
    assert_eq!(evs.len(), 1);
    assert_eq!(evs[0].content_preview, "after");
    assert_eq!(off, data.len() as u64);
}

#[test]
fn resume_at_final_offset_yields_nothing() {
    let data = "{\"type\":\"user\",\"message\":{\"content\":\"hello\"}}\n";
    let (_, off) = read(data, 0, 500);
    let (evs, off2) = read("", off, 500);
    assert!(evs.is_empty());
    assert_eq!(off2, off);
}

#[test]
fn resume_after_append_matches_full_parse() {
    let first = "{\"type\":\"user\",\"message\":{\"content\":\"one\"}}\n";
    let added = "{\"type\":\"user\",\"timestamp\":\"2024-01-01T00:00:00Z\",\"message\":{\"content\":\"two\"}}\n";
    let (_, off) = read(first, 0, 500);
    let (new_evs, off2) = read(added, off, 500);
    let whole = format!("{first}{added}");
    let (all, off_all) = read(&whole, 0, 500);
    assert_eq!(new_evs.len(), 1);
    assert_eq!(all.len(), 2);
    assert_eq!(new_evs[0].message_type, all[1].message_type);
    assert_eq!(new_evs[0].content_preview, all[1].content_preview);
    assert_eq!(new_evs[0].timestamp.seconds, all[1].timestamp.seconds);
    assert_eq!(new_evs[0].session_id, all[1].session_id);
    assert_eq!(off2, off_all);
}

#[test]
fn blank_and_whitespace_user_lines_dropped() {
    let data = "\n   \n{\"type\":\"user\",\"message\":{\"content\":\"  \\n \"}}\n{\"type\":\"summary\"}\n";
    let (evs, _) = read(data, 0, 500);
    assert!(evs.is_empty());
}

#[test]
fn user_content_blocks_joined() {
    let data = "{\"type\":\"user\",\"message\":{\"content\":[{\"type\":\"text\",\"text\":\"a\"},{\"type\":\"image\"},{\"type\":\"text\",\"text\":\"b\"}]}}";
    let (evs, off) = read(data, 10, 500);
    assert_eq!(evs.len(), 1);
    assert_eq!(evs[0].content_preview, "a b");
    assert_eq!(off, 10 + data.len() as u64);
}

#[test]
fn assistant_without_block_array_skipped() {
    let (evs, _) = read("{\"type\":\"assistant\",\"message\":{\"content\":\"plain\"}}\n", 0, 500);
    assert!(evs.is_empty());
}

#[test]
fn progress_tool_result_events() {
    let data = "{\"type\":\"progress\",\"data\":{\"type\":\"tool_result\",\"tool_name\":\"Read\",\"output\":\"file body\"}}\n{\"type\":\"progress\",\"data\":{\"type\":\"tool_result\",\"tool_name\":\"Bash\",\"output\":{\"code\":1}}}\n{\"type\":\"progress\",\"data\":{\"type\":\"other\"}}\n";
    let (evs, _) = read(data, 0, 500);
    assert_eq!(evs.len(), 2);
    assert_eq!(evs[0].message_type, "tool_result:Read");
    assert_eq!(evs[0].content_preview, "file body");
    assert_eq!(evs[1].message_type, "tool_result:Bash");
    assert_eq!(evs[1].content_preview, "{\"code\":1}");
}

#[test]
fn record_timestamp_is_normalized() {
    let data = "{\"type\":\"user\",\"timestamp\":\"2026-02-25T08:16:18.720Z\",\"message\":{\"content\":\"x\"}}\n{\"type\":\"user\",\"timestamp\":\"garbage\",\"message\":{\"content\":\"y\"}}\n";
    let (evs, _) = read(data, 0, 500);
    assert_eq!(evs[0].timestamp.seconds, 1772007378);
    assert_eq!(evs[0].timestamp.fraction, b"720".to_vec());
    assert_eq!(epoch_f64(&evs[1].timestamp), 0.0);
}

#[test]
fn previews_bounded_by_preview_len() {
    let data = "{\"type\":\"user\",\"message\":{\"content\":\"h\u{e9}llo\"}}\n";
    let (evs, _) = read(data, 0, 2);
    assert_eq!(evs[0].content_preview, "h");
}

#[test]
fn invalid_utf8_line_fails_the_call() {
    let mut data = b"{\"type\":\"user\",\"message\":{\"content\":\"ok\"}}\n".to_vec();
    data.extend_from_slice(&[0xff, 0xfe, b'\n']);
    let r = parse_transcript("a.jsonl", 0, 500, &data);
    assert!(matches!(r, Err(ReadError::InvalidUtf8)));
}

#[test]
fn events_of_one_record() {
    let rec = parse("{\"type\":\"user\",\"message\":{\"content\":\"hey\"}}");
    let evs = events_of_record(&rec, 500, &"s".to_string(), &"p".to_string());
    assert_eq!(evs.len(), 1);
    assert_eq!(evs[0].session_id, "s");
    assert_eq!(evs[0].project_path, "p");
    assert_eq!(evs[0].content_preview, "hey");
}

#[test]
fn normalize_known_instants() {
    let t = normalize("2024-01-01T00:00:00Z").unwrap();
    assert_eq!(epoch_f64(&t), 1704067200.0);
    let t = normalize("1969-12-31T23:59:59Z").unwrap();
    assert_eq!(epoch_f64(&t), -1.0);
    assert!(normalize("not-a-timestamp").is_none());
}

#[test]
fn normalize_offsets_and_fractions() {
    let t = normalize("2026-02-25T08:16:18.720+00:00").unwrap();
    assert_eq!(t.seconds, 1772007378);
    assert!((epoch_f64(&t) - 1772007378.72).abs() < 1e-6);
    let t = normalize("2024-01-01T05:30:00+05:30").unwrap();
    assert_eq!(t.seconds, 1704067200);
    let t = normalize("2024-01-01T00:00:00-01:00").unwrap();
    assert_eq!(t.seconds, 1704070800);
    let t = normalize("2024-01-01T00:00").unwrap();
    assert_eq!(t.seconds, 1704067200);
    assert!(t.fraction.is_empty());
}

#[test]
fn normalize_rejects_malformed() {
    assert!(normalize("2024-01-01").is_none());
    assert!(normalize("2024-01T00:00:00Z").is_none());
    assert!(normalize("2024-01-01T00").is_none());
    assert!(normalize("2024-01-01Tab:00:00Z").is_none());
    assert!(normalize("2024-01-01T00:00:00.Z").is_none());
    assert!(normalize("").is_none());
}

#[test]
fn days_across_eras() {
    assert_eq!(days_from_epoch(1970, 1, 1), 0);
    assert_eq!(days_from_epoch(2000, 3, 1), 11017);
    assert_eq!(days_from_epoch(2000, 2, 29), 11016);
    assert_eq!(days_from_epoch(1900, 3, 1), -25508);
    assert_eq!(days_from_epoch(0, 1, 1), -719528);
    assert_eq!(days_from_epoch(0, 3, 1), -719468);
    assert_eq!(days_from_epoch(-1, 12, 31), -719529);
    assert_eq!(days_from_epoch(-400, 1, 1), -719528 - 146097);
}

#[test]
fn truncate_keeps_character_boundaries() {
    assert_eq!(truncate("h\u{e9}llo", 2), "h");
    assert_eq!(truncate("h\u{e9}llo", 3), "h\u{e9}");
    assert_eq!(truncate("hello", 5), "hello");
    assert_eq!(truncate("hello", 9), "hello");
    assert_eq!(truncate("", 0), "");
    assert_eq!(truncate("\u{1f600}", 3), "");
    assert_eq!(preview("abcdef", 4), "abcd");
    for n in 0..12 {
        let s = "a\u{e9}\u{20ac}\u{1f600}";
        let r = truncate(s, n);
        assert!(r.len() <= n);
        assert!(s.starts_with(r));
    }
}

#[test]
fn write_and_default_previews() {
    let input = parse("{\"file_path\":\"/tmp/x\",\"content\":\"abcde\"}");
    assert_eq!(tool_input_preview("Write", Some(&input)), "/tmp/x (5 chars)");
    let big = format!("{{\"data\":\"{}\"}}", "z".repeat(500));
    let input = parse(&big);
    let p = tool_input_preview("Mystery", Some(&input));
    assert_eq!(p.chars().count(), 200);
    assert_eq!(p, big[..200].to_string());
}

#[test]
fn previews_for_each_tool() {
    let input = parse("{\"command\":\"ls -la\",\"pattern\":\"fn main\",\"description\":\"look\",\"file_path\":\"/a.rs\"}");
    assert_eq!(tool_input_preview("Bash", Some(&input)), "ls -la");
    assert_eq!(tool_input_preview("Read", Some(&input)), "/a.rs");
    assert_eq!(tool_input_preview("Edit", Some(&input)), "/a.rs");
    assert_eq!(tool_input_preview("Task", Some(&input)), "look");
    assert_eq!(tool_input_preview("Grep", Some(&input)), "/fn main/ in .");
    let glob = parse("{\"pattern\":\"*.rs\",\"path\":\"src\"}");
    assert_eq!(tool_input_preview("Glob", Some(&glob)), "*.rs");
    assert_eq!(tool_input_preview("Grep", Some(&glob)), "/*.rs/ in src");
    assert_eq!(tool_input_preview("Write", Some(&glob)), " (0 chars)");
    assert_eq!(tool_input_preview("Bash", None), "");
    assert_eq!(tool_input_preview("Other", None), "{}");
    let write = parse("{\"file_path\":\"f\",\"content\":\"h\u{e9}\"}");
    assert_eq!(tool_input_preview("Write", Some(&write)), "f (3 chars)");
}

#[test]
fn content_extraction_shapes() {
    let m = parse("{\"content\":\"plain\"}");
    assert_eq!(extract_content(Some(&m)), "plain");
    let m = parse("{\"content\":[{\"type\":\"text\",\"text\":\"x\"},{\"type\":\"text\"},{\"type\":\"text\",\"text\":\"y\"}]}");
    assert_eq!(extract_content(Some(&m)), "x y");
    let m = parse("{\"content\":5}");
    assert_eq!(extract_content(Some(&m)), "");
    assert_eq!(extract_content(None), "");
}

#[test]
fn json_round_trip_and_lookup() {
    let v = parse(" {\"b\":[1,2.5,null,true],\"a\":\"s\"} ");
    assert_eq!(v.to_text(), "{\"a\":\"s\",\"b\":[1,2.5,null,true]}");
    assert_eq!(v.get("a").and_then(|x| x.as_str()), Some("s"));
    assert!(v.get("zz").is_none());
    assert!(Json::parse("{bad").is_none());
}

#[test]
fn decimal_and_text_equality() {
    assert_eq!(decimal_text(0), "0");
    assert_eq!(decimal_text(9), "9");
    assert_eq!(decimal_text(10), "10");
    assert_eq!(decimal_text(1234567890), "1234567890");
    assert!(text_eq("abc", "abc"));
    assert!(!text_eq("abc", "abd"));
    assert!(!text_eq("ab", "abc"));
}

#[test]
fn inserted_malformed_line_changes_nothing() {
    let a = "{\"type\":\"user\",\"message\":{\"content\":\"one\"}}\n";
    let b = "{\"type\":\"assistant\",\"message\":{\"content\":[{\"type\":\"text\",\"text\":\"two\"}]}}\n";
    let (plain, _) = read(&format!("{a}{b}"), 0, 500);
    let (with_bad, _) = read(&format!("{a}[1,2\n{b}"), 0, 500);
    assert_eq!(plain.len(), 2);
    assert_eq!(with_bad.len(), plain.len());
    for (x, y) in plain.iter().zip(with_bad.iter()) {
        assert_eq!(x.message_type, y.message_type);
        assert_eq!(x.content_preview, y.content_preview);
    }
}
