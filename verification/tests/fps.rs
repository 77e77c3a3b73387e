use std::cmp::Ordering;

use surfaceflinger_hook::Fps;

#[test]
fn from_fps_values() {
    assert_eq!(Fps::from_fps(60), Fps { fps: 60, frametime: 16_666_666 });
    assert_eq!(Fps::from_fps(120), Fps { fps: 120, frametime: 8_333_333 });
    assert_eq!(Fps::from_fps(1), Fps { fps: 1, frametime: 1_000_000_000 });
    assert_eq!(Fps::from_fps(0), Fps { fps: 0, frametime: 0 });
}

#[test]
fn from_frametime_values() {
    assert_eq!(Fps::from_frametime(16_666_666), Fps { fps: 60, frametime: 16_666_666 });
    assert_eq!(Fps::from_frametime(16_666_667), Fps { fps: 59, frametime: 16_666_667 });
    assert_eq!(Fps::from_frametime(1), Fps { fps: 1_000_000_000, frametime: 1 });
    assert_eq!(Fps::from_frametime(3_000_000_000), Fps { fps: 0, frametime: 3_000_000_000 });
}

#[test]
fn fps_round_trip() {
    for f in [1u32, 24, 30, 60, 90, 120, 144, 165, 240, 1000] {
        let back = Fps::from_frametime(Fps::from_fps(f).frametime);
        assert!(back.fps >= f);
    }
    assert_eq!(Fps::from_frametime(Fps::from_fps(125).frametime).fps, 125);
    assert_eq!(Fps::from_frametime(Fps::from_fps(144).frametime).fps, 144);
}

#[test]
fn default_is_zero() {
    assert_eq!(Fps::default(), Fps { fps: 0, frametime: 0 });
}

#[test]
fn add_and_sub() {
    let a = Fps { fps: 60, frametime: 16_666_666 };
    let b = Fps { fps: 30, frametime: 33_333_333 };
    assert_eq!(a + b, Fps { fps: 90, frametime: 49_999_999 });
    assert_eq!((a + b) - b, a);
    assert_eq!(b - Fps { fps: 10, frametime: 3 }, Fps { fps: 20, frametime: 33_333_330 });
}

#[test]
fn ordering_by_frametime() {
    let fast = Fps::from_fps(120);
    let slow = Fps::from_fps(60);
    assert_eq!(fast.cmp(&slow), Ordering::Less);
    assert_eq!(slow.cmp(&fast), Ordering::Greater);
    assert_eq!(fast.partial_cmp(&slow), Some(Ordering::Less));
    assert!(fast < slow);
    let a = Fps { fps: 1, frametime: 5 };
    let b = Fps { fps: 2, frametime: 5 };
    assert_eq!(a.cmp(&b), Ordering::Equal);
    assert_ne!(a, b);
}

#[test]
fn fps_round_trip_exact_up_to_31622() {
    for f in 1u32..=31622 {
        assert_eq!(Fps::from_frametime(Fps::from_fps(f).frametime).fps, f, "{f}");
    }
}
