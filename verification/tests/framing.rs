use std::collections::VecDeque;
use zappy::net::connection::{queue_line, take_lines};

#[test]
fn queued_lines_end_with_one_newline() {
    let mut out = VecDeque::new();
    queue_line(&mut out, "WELCOME");
    queue_line(&mut out, "ok\n");
    queue_line(&mut out, "");
    assert_eq!(out.iter().copied().collect::<Vec<u8>>(), b"WELCOME\nok\n\n".to_vec());
}

#[test]
fn complete_lines_are_taken_and_the_rest_kept() {
    let mut buf = b"team1\r\nForward\nLo".to_vec();
    assert_eq!(take_lines(&mut buf), vec!["team1".to_string(), "Forward".to_string()]);
    assert_eq!(buf, b"Lo".to_vec());
    buf.extend_from_slice(b"ok\n\n");
    assert_eq!(take_lines(&mut buf), vec!["Look".to_string(), String::new()]);
    assert!(buf.is_empty());
    assert!(take_lines(&mut buf).is_empty());
}

#[test]
fn sent_line_is_received_unchanged() {
    for line in ["Broadcast héllo wörld", "GRAPHIC", "", "Take food", "a\tb"] {
        let mut out = VecDeque::new();
        queue_line(&mut out, line);
        let mut buf: Vec<u8> = out.into_iter().collect();
        buf.extend_from_slice(b"Rig");
        assert_eq!(take_lines(&mut buf), vec![line.to_string()]);
        assert_eq!(buf, b"Rig".to_vec());
    }
}

#[test]
fn invalid_utf8_is_replaced() {
    let mut buf = vec![b'a', 0xFF, b'b', b'\n'];
    assert_eq!(take_lines(&mut buf), vec!["a\u{FFFD}b".to_string()]);
}
