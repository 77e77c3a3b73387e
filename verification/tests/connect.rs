use surfaceflinger_hook::connect::Connection;
use surfaceflinger_hook::{Error, Fps};

fn parsed(s: &str) -> Option<(Fps, u64)> {
    match Connection::parse_input(s) {
        Ok(v) => v,
        Err(e) => panic!("{s:?} gave {e:?}"),
    }
}

fn error_text(s: &str) -> &'static str {
    match Connection::parse_input(s) {
        Err(Error::Other(m)) => m,
        other => panic!("{s:?} gave {other:?}"),
    }
}

#[test]
fn parse_plain_input() {
    assert_eq!(parsed("60:1000"), Some((Fps::from_fps(60), 1000)));
    assert_eq!(parsed(" 120 : 250000 \n"), Some((Fps::from_fps(120), 250_000)));
    assert_eq!(parsed("+90:+7"), Some((Fps::from_fps(90), 7)));
    assert_eq!(parsed("60:5:7"), Some((Fps::from_fps(60), 5)));
    assert_eq!(parsed("\u{3000}30:\t8\u{a0}"), Some((Fps::from_fps(30), 8)));
    assert_eq!(parsed("0:0"), Some((Fps::from_fps(0), 0)));
}

#[test]
fn parse_none_input() {
    assert_eq!(parsed("none"), None);
    assert_eq!(parsed("  none\n"), None);
    assert_eq!(parsed("60:nonexistent"), None);
}

#[test]
fn parse_empty_input() {
    assert_eq!(error_text(""), "No input now");
    assert_eq!(error_text(" \n\t"), "No input now");
}

#[test]
fn parse_malformed_input() {
    assert_eq!(error_text("60"), "Failed to parse input");
    assert_eq!(error_text("abc:1"), "Failed to parse input");
    assert_eq!(error_text("60:"), "Failed to parse input");
    assert_eq!(error_text("-60:1"), "Failed to parse input");
    assert_eq!(error_text("+:1"), "Failed to parse input");
    assert_eq!(error_text("4294967296:1"), "Failed to parse input");
    assert_eq!(error_text("60:18446744073709551616"), "Failed to parse input");
    assert_eq!(error_text("6 0:1"), "Failed to parse input");
}

#[test]
fn parse_agrees_with_std() {
    let inputs = [
        "60:1000",
        " 4294967295:18446744073709551615",
        "4294967295:18446744073709551616",
        "00060:0001",
        "60 :  1",
        "1:2:3:4",
        "+1:+2",
        "++1:2",
        "1:-2",
        "x",
        "12:3a",
    ];
    for s in inputs {
        let t = s.trim();
        let mut it = t.split(':');
        let fps = it.next().unwrap().trim().parse::<u32>();
        let fix = it.next().map(|p| p.trim().parse::<u64>());
        let expected = match (fps, fix) {
            (Ok(f), Some(Ok(x))) => Some((Fps::from_fps(f), x)),
            _ => None,
        };
        let got = Connection::parse_input(s).ok().flatten();
        assert_eq!(got, expected, "{s:?}");
    }
}

#[test]
fn connection_from_input() {
    assert!(Connection::from_input(String::new(), "in".to_string(), "jank".to_string()).is_none());
    assert!(Connection::from_input("bad".to_string(), "in".to_string(), "jank".to_string()).is_none());
    let c = Connection::from_input("none".to_string(), "in".to_string(), "jank".to_string()).unwrap();
    assert_eq!(c.input_path(), "in");
    assert_eq!(c.jank_path(), "jank");
    let c = Connection::from_input("60:10".to_string(), "in".to_string(), "jank".to_string());
    assert!(c.is_some());
}

#[test]
fn get_input_follows_the_file() {
    let mut c = Connection::from_input("60:10".to_string(), "in".to_string(), "jank".to_string()).unwrap();
    assert_eq!(c.get_input("60:10".to_string()), Some((Fps::from_fps(60), 10)));
    assert_eq!(c.get_input("120:20".to_string()), Some((Fps::from_fps(120), 20)));
    assert_eq!(c.get_input("120:20".to_string()), Some((Fps::from_fps(120), 20)));
    assert_eq!(c.get_input("garbage".to_string()), Some((Fps::from_fps(120), 20)));
    assert_eq!(c.input_raw(), "garbage");
    assert_eq!(c.get_input("none".to_string()), None);
    assert_eq!(c.get_input("".to_string()), None);
    assert_eq!(c.get_input("90:1".to_string()), Some((Fps::from_fps(90), 1)));
}

#[test]
fn jank_message_bytes() {
    assert_eq!(Connection::jank_message(0), b"0\n".to_vec());
    assert_eq!(Connection::jank_message(8), b"8\n".to_vec());
    assert_eq!(Connection::jank_message(4_294_967_295), b"4294967295\n".to_vec());
    for j in [0u32, 1, 3, 4, 8, 10, 12345] {
        let text = String::from_utf8(Connection::jank_message(j)).unwrap();
        assert_eq!(text, format!("{j}\n"));
        assert_eq!(text.trim().parse::<u64>().unwrap(), j as u64);
    }
}

#[test]
fn blanks_and_later_fields_change_nothing() {
    for (f, n) in [(60u32, 1000u64), (0, 0), (u32::MAX, u64::MAX), (144, 7)] {
        let plain = Connection::parse_input(&format!("{f}:{n}")).ok().flatten();
        assert_eq!(plain, Some((Fps::from_fps(f), n)));
        for x in ["", "abc", " 1:2 ", ":::", "\t\u{3000}"] {
            let padded = Connection::parse_input(&format!("  {f} :{n}:{x}\n")).ok().flatten();
            assert_eq!(padded, plain, "{f} {n} {x:?}");
        }
    }
}
