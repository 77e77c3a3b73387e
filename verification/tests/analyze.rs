use surfaceflinger_hook::analyze::{min_jank_scale, JankState, JankStep};
use surfaceflinger_hook::Fps;

#[test]
fn scale_of_target() {
    assert_eq!(min_jank_scale(Fps::from_fps(60)), 277_777);
    assert_eq!(min_jank_scale(Fps::from_fps(120)), 69_444);
    assert_eq!(min_jank_scale(Fps::default()), 0);
}

#[test]
fn new_state_from_input() {
    let s = JankState::new(Some((Fps::from_fps(60), 5)));
    assert_eq!(s.target_fps, Fps::from_fps(60));
    assert_eq!(s.min_jank_scale, 277_777);
    let s = JankState::new(None);
    assert_eq!(s.target_fps, Fps::default());
    assert_eq!(s.min_jank_scale, 0);
}

#[test]
fn input_steps() {
    let mut s = JankState::new(Some((Fps::from_fps(60), 5)));
    assert_eq!(s.on_input(Some((Fps::from_fps(60), 5))), JankStep::Measure { fix_time: 5 });
    assert_eq!(
        s.on_input(Some((Fps::from_fps(60), 99_999_999))),
        JankStep::Measure { fix_time: 16_666_666 }
    );
    assert_eq!(s.on_input(Some((Fps::from_fps(120), 5))), JankStep::Retarget);
    assert_eq!(s.target_fps, Fps::from_fps(120));
    assert_eq!(s.min_jank_scale, 69_444);
    assert_eq!(s.on_input(None), JankStep::Retarget);
    assert_eq!(s.target_fps, Fps::default());
    assert_eq!(s.on_input(None), JankStep::Measure { fix_time: 0 });
}

#[test]
fn levels() {
    let s = JankState::new(Some((Fps::from_fps(60), 0)));
    let t = 16_666_666u64;
    let k = 277_777u64;
    assert_eq!(s.level(t, 0), 0);
    assert_eq!(s.level(t + k, 0), 0);
    assert_eq!(s.level(t + k + 1, 0), 1);
    assert_eq!(s.level(t + 2 * k, 0), 1);
    assert_eq!(s.level(t + 2 * k + 1, 0), 3);
    assert_eq!(s.level(t + 3 * k + 1, 0), 4);
    assert_eq!(s.level(t + 5 * k, 0), 4);
    assert_eq!(s.level(t + 5 * k + 1, 0), 8);
    assert_eq!(s.level(t + 5 * k + 1, 1), 4);
    assert_eq!(s.level(0, 0), 0);
    assert_eq!(s.level(u64::MAX, u64::MAX), 0);
}

#[test]
fn levels_match_float_rule() {
    let s = JankState::new(Some((Fps::from_fps(90), 0)));
    let target = s.target_fps.frametime as f64;
    let scale = s.min_jank_scale as f64;
    for fix in [0u64, 1000, 50_000] {
        let f = fix as f64;
        let mut cur = 10_000_000.0f64;
        while cur < 14_000_000.0 {
            let diff = cur - target;
            let expected = if diff <= scale + f {
                0
            } else if diff <= scale.mul_add(2.0, f) {
                1
            } else if diff <= scale.mul_add(3.0, f) {
                3
            } else if diff <= scale.mul_add(5.0, f) {
                4
            } else {
                8
            };
            assert_eq!(s.level(cur.ceil() as u64, fix), expected, "cur {cur} fix {fix}");
            cur += 1234.5678;
        }
    }
}

#[test]
fn zero_rate_gives_no_or_super_jank() {
    let s = JankState::new(None);
    for cur in [0u64, 1, 5, 1_000_000, u64::MAX] {
        for fix in [0u64, 3, 1_000_000] {
            let l = s.level(cur, fix);
            assert!(l == 0 || l == 8, "cur {cur} fix {fix}: {l}");
        }
    }
}

#[test]
fn zero_rate_over_a_run() {
    let mut s = JankState::new(Some((Fps::from_fps(60), 0)));
    let inputs = [None, Some((Fps::from_fps(90), 3)), None, None, Some((Fps::from_fps(0), 0))];
    for input in inputs {
        let _ = s.on_input(input);
        for cur in [0u64, 10_000_000, 20_000_000, u64::MAX / 2] {
            let l = s.level(cur, 0);
            assert!([0, 1, 3, 4, 8].contains(&l));
            if s.target_fps.fps == 0 {
                assert!(l == 0 || l == 8);
            }
        }
    }
}
