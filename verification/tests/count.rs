use std::sync::mpsc;

use surfaceflinger_hook::count::Connection;
use surfaceflinger_hook::{Error, Message};

#[test]
fn parse_count_on_words() {
    assert_eq!(Connection::parse_count_on("vsync"), Some(Message::Vsync));
    assert_eq!(Connection::parse_count_on("soft"), Some(Message::Soft));
    assert_eq!(Connection::parse_count_on("vsync#soft\n"), Some(Message::Soft));
    assert_eq!(Connection::parse_count_on("soft# vsync "), Some(Message::Vsync));
    assert_eq!(Connection::parse_count_on("soft#"), None);
    assert_eq!(Connection::parse_count_on("vsyncs"), None);
    assert_eq!(Connection::parse_count_on(""), None);
}

#[test]
fn new_counts_on_first_message() {
    let (sx, _rx) = mpsc::channel();
    let c = Connection::new(sx, "x#soft", "count_on".to_string());
    assert_eq!(c.required_count_on(None), Message::Soft);
    assert_eq!(c.count_on_path(), "count_on");
    let (sx, _rx) = mpsc::channel();
    let c = Connection::new(sx, "what", "count_on".to_string());
    assert_eq!(c.required_count_on(None), Message::Vsync);
}

#[test]
fn required_count_on_keeps_last() {
    let (sx, _rx) = mpsc::channel();
    let c = Connection::new(sx, "vsync", "p".to_string());
    assert_eq!(c.required_count_on(Some("soft")), Message::Soft);
    assert_eq!(c.required_count_on(Some("junk")), Message::Vsync);
    assert_eq!(c.required_count_on(Some("")), Message::Vsync);
    assert_eq!(c.required_count_on(None), Message::Vsync);
}

#[test]
fn send_count_through_channel() {
    let (sx, rx) = mpsc::channel();
    let mut c = Connection::new(sx, "vsync", "p".to_string());
    assert!(c.send_count(Message::Soft, 3).is_ok());
    assert_eq!(rx.recv().unwrap(), (Message::Soft, 3));
    assert!(c.send_count(Message::Vsync, 7).is_ok());
    assert!(c.send_count(Message::Soft, 9).is_ok());
    assert_eq!(rx.recv().unwrap(), (Message::Vsync, 7));
    assert_eq!(rx.recv().unwrap(), (Message::Soft, 9));
    drop(rx);
    match c.send_count(Message::Vsync, 1) {
        Err(Error::Other(m)) => assert_eq!(m, "Failed to send count"),
        other => panic!("{other:?}"),
    }
}

#[test]
fn count_message_bytes() {
    assert_eq!(Connection::count_message(Message::Vsync, 12), b"vsync:12#".to_vec());
    assert_eq!(Connection::count_message(Message::Soft, 0), b"soft:0#".to_vec());
    assert_eq!(Connection::count_message(Message::Soft, u32::MAX), format!("soft:{}#", u32::MAX).into_bytes());
}
