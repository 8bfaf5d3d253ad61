use snoopy_native::archive::extract_attributed_body_text;
use snoopy_native::connections::parse_lsof_output;

fn blob(prefix: &[u8], tail: &[u8]) -> Vec<u8> {
    let mut b = prefix.to_vec();
    b.extend_from_slice(tail);
    b
}

#[test]
fn body_text_after_markers() {
    let b = blob(b"\x04\x0bstreamtyped\x81NSAttributedString\x00NSObject\x85\x92\x84\x84\x84NSString\x01\x94\x84\x01+", b"\x05hello\x86\x84");
    assert_eq!(extract_attributed_body_text(&b), "hello");
}

#[test]
fn body_text_runs_to_end_when_short() {
    let b = blob(b"xxNSStringyy\x01+", b"\x09abc");
    assert_eq!(extract_attributed_body_text(&b), "abc");
}

#[test]
fn body_text_missing_markers() {
    assert_eq!(extract_attributed_body_text(b""), "");
    assert_eq!(extract_attributed_body_text(b"no marker here"), "");
    assert_eq!(extract_attributed_body_text(b"NSString but no pair"), "");
    assert_eq!(extract_attributed_body_text(b"\x01+\x03abcNSString"), "");
    assert_eq!(extract_attributed_body_text(b"NSString\x01+"), "");
}

#[test]
fn body_text_invalid_utf8_is_replaced() {
    let b = blob(b"NSString\x01+", b"\x03a\xffb");
    assert_eq!(extract_attributed_body_text(&b), "a\u{fffd}b");
    let b = blob(b"NSString\x01+", "\x03h\u{e9}".as_bytes());
    assert_eq!(extract_attributed_body_text(&b), "h\u{e9}");
}

#[test]
fn lsof_established_connections_deduplicated() {
    let text = "COMMAND     PID USER   FD   TYPE DEVICE SIZE/OFF NODE NAME\n\
Google    1234 user   45u  IPv4 0xabc      0t0  TCP 192.168.1.2:54321->142.250.80.46:443 (ESTABLISHED)\n\
Google    1234 user   46u  IPv4 0xabd      0t0  TCP 192.168.1.2:54322->142.250.80.46:443 (ESTABLISHED)\n\
Slack     999  user   12u  IPv6 0xdef      0t0  TCP 10.0.0.5:50000->34.1.2.3:8443 (ESTABLISHED)\r\n\
sshd      77   root   3u   IPv4 0x111      0t0  TCP *:22 (LISTEN)\n\
odd       5    user   7u   IPv4 0x222      0t0  TCP 1.1.1.1:1->2.2.2.2:99999 (ESTABLISHED)\n";
    let mut r = parse_lsof_output(text);
    r.sort();
    assert_eq!(
        r,
        vec![
            ("Google".to_string(), "142.250.80.46".to_string(), 443u16),
            ("Slack".to_string(), "34.1.2.3".to_string(), 8443u16),
            ("odd".to_string(), "2.2.2.2".to_string(), 0u16),
        ]
    );
}

#[test]
fn lsof_empty_listing() {
    assert!(parse_lsof_output("").is_empty());
    assert!(parse_lsof_output("nothing to see\n").is_empty());
}
