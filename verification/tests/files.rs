use surfaceflinger_hook::files::{
    fps_text, frame_count, frametime_line, sample_refresh_due, initial_frametimes, push_frametime, sample_time_from_text,
    sample_time_text, update_frametimes, update_mmap, zeroed_frametimes,
};

#[test]
fn frametime_lines() {
    assert_eq!(frametime_line(0), b"0        \n".to_vec());
    assert_eq!(frametime_line(16_666_666), b"16666666 \n".to_vec());
    assert_eq!(frametime_line(999_999_999), b"999999999\n".to_vec());
    assert_eq!(frametime_line(1_000_000_000), b"1000000000\n".to_vec());
    for ns in [0u64, 7, 123_456, 8_333_333, 999_999_999, 12_345_678_901] {
        assert_eq!(frametime_line(ns), format!("{:<9}\n", ns).into_bytes());
    }
}

#[test]
fn initial_buffers() {
    let b = initial_frametimes();
    assert_eq!(b.len(), 5120);
    let mut expected = Vec::new();
    for _ in 0..512 {
        expected.extend_from_slice(format!("{:<9}\n", 0).as_bytes());
    }
    assert_eq!(b, expected);
    let z = zeroed_frametimes();
    assert_eq!(z.len(), 5120);
    assert_eq!(&z[..10], b"000000000\n");
    assert_eq!(&z[5110..], b"000000000\n");
}

#[test]
fn push_shifts_one_line() {
    let mut b = initial_frametimes();
    push_frametime(&mut b, 16_666_666);
    assert_eq!(b.len(), 5120);
    assert_eq!(&b[5110..], b"16666666 \n");
    assert_eq!(&b[..10], b"0        \n");
    push_frametime(&mut b, 42);
    assert_eq!(&b[5100..5110], b"16666666 \n");
    assert_eq!(&b[5110..], b"42       \n");
}

#[test]
fn update_records_at_most_history() {
    let mut b = initial_frametimes();
    update_frametimes(&mut b, &vec![1, 2, 3]);
    assert_eq!(&b[5090..], b"1        \n2        \n3        \n".as_slice());
    let many: Vec<u64> = (0..600).collect();
    let mut c = initial_frametimes();
    update_frametimes(&mut c, &many);
    assert_eq!(c.len(), 5120);
    assert_eq!(&c[..10], b"0        \n");
    assert_eq!(&c[5110..], b"511      \n");
    let mut d = initial_frametimes();
    update_frametimes(&mut d, &vec![]);
    assert_eq!(d, initial_frametimes());
}

#[test]
fn mmap_update_puts_newest_first() {
    let mut m = b"111111111\n222222222\n".to_vec();
    update_mmap(&mut m, 5);
    assert_eq!(m, b"5        \n111111111\n".to_vec());
    update_mmap(&mut m, 2_000_000_000);
    assert_eq!(m, b"100000000\n5        \n".to_vec());
    let mut big = zeroed_frametimes();
    let before = big.clone();
    update_mmap(&mut big, 16_666_666);
    assert_eq!(big.len(), 5120);
    assert_eq!(&big[..10], format!("{:<9}\n", 16_666_666).as_bytes());
    assert_eq!(&big[10..], &before[..5110]);
}

#[test]
fn sample_times() {
    assert_eq!(sample_time_from_text("400"), 400);
    assert_eq!(sample_time_from_text(" 1234\n"), 1234);
    assert_eq!(sample_time_from_text("0"), 0);
    assert_eq!(sample_time_from_text("9999"), 5000);
    assert_eq!(sample_time_from_text("abc"), 400);
    assert_eq!(sample_time_from_text(""), 400);
    assert_eq!(sample_time_from_text("99999999999999999999999"), 400);
}

#[test]
fn sample_time_round_trip() {
    for ms in [0u64, 1, 400, 999, 5000] {
        let text = String::from_utf8(sample_time_text(ms)).unwrap();
        assert_eq!(text, ms.to_string());
        assert_eq!(sample_time_from_text(&text), ms);
    }
}

#[test]
fn fps_texts() {
    assert_eq!(fps_text(60), b"60  ".to_vec());
    assert_eq!(fps_text(0), b"0   ".to_vec());
    assert_eq!(fps_text(9999), b"9999".to_vec());
    assert_eq!(fps_text(123_456), b"9999".to_vec());
    for v in [0u64, 5, 59, 144, 1000, 9998] {
        assert_eq!(fps_text(v), format!("{v:<4}").into_bytes());
    }
}

#[test]
fn frame_count_of_sample() {
    assert_eq!(frame_count(&vec![], 400), 0);
    assert_eq!(frame_count(&vec![1, 2, 400, 401, 3], 400), 3);
    assert_eq!(frame_count(&vec![500, 1, 2], 400), 0);
    assert_eq!(frame_count(&vec![1, 2, 3], 400), 3);
}

#[test]
fn sample_refresh_after_a_second() {
    assert!(!sample_refresh_due(0));
    assert!(!sample_refresh_due(1_000_000_000));
    assert!(sample_refresh_due(1_000_000_001));
    assert!(sample_refresh_due(u64::MAX));
}
